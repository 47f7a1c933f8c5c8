//! Encoding: the plan of the frames, and the frames one after the other.
//!
//! The plan follows from the size of the payload alone. The payload is then
//! supplied in pieces, and luma planes come out: first the planes with the QR
//! code, then the data frames.

use vstd::arithmetic::power2;
use vstd::prelude::*;

use crate::chunks;
use crate::constants::{MAX_FRAME_COUNT_EXTENDED, METADATA_FRAMES, RS_DATA_BYTES};
use crate::frame;
use crate::metadata::Meta;
use crate::rs;
use crate::stream;
use crate::stream::StreamingEcc;

verus! {

// ---------------------------------------------------------------------------
// The plan
// ---------------------------------------------------------------------------

/// The layout of an encoded file.
#[derive(Debug, Clone, Copy, PartialEq, Eq)]
pub struct EncodePlan {
    pub ecc_len: usize,
    pub index_bits: usize,
    pub data_bytes_per_frame: usize,
    pub num_data_frames: usize,
    pub total_frames: usize,
}

/// Summary of an encode run.
#[derive(Debug, Clone)]
pub struct EncodeReport {
    pub filename: String,
    pub size: u64,
    pub sha256: String,
    pub ecc_len: usize,
    pub index_bits: usize,
    pub num_data_frames: usize,
    pub total_frames: usize,
}

/// The payload needs more frames than a 32-bit index can number.
#[derive(Debug, Clone, Copy, PartialEq, Eq)]
pub struct TooManyFrames(pub usize);

/// Number of data frames for an ECC stream.
pub open spec fn data_frames(ecc_len: int) -> int {
    chunks::chunk_count(ecc_len, frame::frame_bytes(frame::chosen_index_bits(ecc_len)))
}

/// The index width chosen for a stream can number its frames, unless they are
/// too many for any width.
pub proof fn theorem_index_width_suffices(ecc_len: int)
    requires
        0 <= ecc_len,
        data_frames(ecc_len) <= MAX_FRAME_COUNT_EXTENDED,
    ensures
        0 <= data_frames(ecc_len) <= power2::pow2(frame::chosen_index_bits(ecc_len) as nat),
{
    let len = frame::frame_bytes(frame::chosen_index_bits(ecc_len));
    power2::lemma2_to64();
    vstd::arithmetic::div_mod::lemma_div_pos_is_pos(ecc_len + len - 1, len);
    if frame::chosen_index_bits(ecc_len) == 16 {
        assert(len == 57);
        assert(data_frames(ecc_len) == (ecc_len + 56) / 57);
        assert(ecc_len <= 0x1_0000 * 57);
    }
}

/// Whether [`plan`] can be called: eight times the ECC stream is addressable.
pub fn can_plan(header_len: usize, size: u64) -> (b: bool)
    ensures
        b == (rs::ecc_len(header_len + size) * 8 <= usize::MAX),
{
    let payload_len: u128 = header_len as u128 + size as u128;
    let blocks: u128 = (payload_len + 222) / 223;
    (payload_len + 32u128 * blocks) * 8 <= usize::MAX as u128
}

/// The plan for a payload of `payload_len` bytes, or why there is none.
pub open spec fn planned(payload_len: int, r: Result<EncodePlan, TooManyFrames>) -> bool {
    let ecc_len = rs::ecc_len(payload_len);
    let frames = data_frames(ecc_len);
    if frames > MAX_FRAME_COUNT_EXTENDED {
        r == Err::<EncodePlan, TooManyFrames>(TooManyFrames(frames as usize))
    } else {
        r matches Ok(p) && p.ecc_len == ecc_len && p.index_bits == frame::chosen_index_bits(ecc_len)
            && p.data_bytes_per_frame == frame::frame_bytes(p.index_bits as int)
            && p.num_data_frames == frames && p.total_frames == frames + METADATA_FRAMES
    }
}

/// A plan holds the whole stream and no frame too many: 32 parity bytes for every 223
/// payload bytes or part of them, in frames of 57 bytes while 65,536 of them suffice
/// and of 55 bytes beyond, behind 30 frames with the QR code. There is none exactly
/// where the frames cannot be numbered with 32 bits.
pub proof fn theorem_plan(payload_len: int, r: Result<EncodePlan, TooManyFrames>)
    requires
        0 <= payload_len,
        planned(payload_len, r),
        rs::ecc_len(payload_len) <= usize::MAX,
    ensures
        ({
            let ecc = payload_len + 32 * ((payload_len + 222) / 223);
            let len = if ecc <= 65536 * 57 {
                57int
            } else {
                55
            };
            &&& r is Ok <==> ecc <= 0x1_0000_0000 * len
            &&& r matches Ok(p) ==> {
                &&& p.ecc_len == ecc
                &&& p.index_bits == (if ecc <= 65536 * 57 {
                    16int
                } else {
                    32
                })
                &&& p.data_bytes_per_frame == len
                &&& (p.num_data_frames - 1) * len < ecc <= p.num_data_frames * len
                &&& p.total_frames == p.num_data_frames + 30
            }
            &&& r matches Err(TooManyFrames(n)) ==> n > 0x1_0000_0000 && (n - 1) * len < ecc <= n
                * len
        }),
{
    let ecc = payload_len + 32 * ((payload_len + 222) / 223);
    assert(rs::ecc_len(payload_len) == ecc);
    frame::theorem_index_width(ecc);
    if ecc <= 65536 * 57 {
        vstd::arithmetic::div_mod::lemma_fundamental_div_mod(ecc + 56, 57);
    } else {
        vstd::arithmetic::div_mod::lemma_fundamental_div_mod(ecc + 54, 55);
    }
}

/// Plans the frames for a payload with a header of `header_len` bytes and a
/// file of `size` bytes.
pub fn plan(header_len: usize, size: u64) -> (r: Result<EncodePlan, TooManyFrames>)
    requires
        rs::ecc_len(header_len + size) * 8 <= usize::MAX,
    ensures
        planned(header_len + size, r),
        ({
            let ecc_len = rs::ecc_len(header_len + size);
            let frames = data_frames(ecc_len);
            if frames > MAX_FRAME_COUNT_EXTENDED {
                r == Err::<EncodePlan, TooManyFrames>(TooManyFrames(frames as usize))
            } else {
                r matches Ok(p) && p.ecc_len == ecc_len && p.index_bits
                    == frame::chosen_index_bits(ecc_len) && p.data_bytes_per_frame
                    == frame::frame_bytes(p.index_bits as int) && p.num_data_frames == frames
                    && p.total_frames == frames + METADATA_FRAMES
            }
        }),
{
    let payload_len: usize = header_len + size as usize;
    let ecc_len: usize = rs::ecc_len_for(payload_len);
    let index_bits: usize = frame::select_index_bits(ecc_len);
    let (_, data_bits_per_frame) = frame::frame_layout(index_bits);
    let data_bytes_per_frame: usize = data_bits_per_frame / 8;
    assert(data_bytes_per_frame == frame::frame_bytes(index_bits as int));
    let num_data_frames: usize = chunks::count_chunks(ecc_len, data_bytes_per_frame);
    if num_data_frames as u64 > MAX_FRAME_COUNT_EXTENDED {
        return Err(TooManyFrames(num_data_frames));
    }
    proof {
        if num_data_frames > 0 {
            chunks::lemma_chunk_bounds(
                ecc_len as int,
                data_bytes_per_frame as int,
                num_data_frames - 1,
            );
        }
        assert(num_data_frames <= ecc_len);
    }
    Ok(
        EncodePlan {
            ecc_len,
            index_bits,
            data_bytes_per_frame,
            num_data_frames,
            total_frames: num_data_frames + METADATA_FRAMES,
        },
    )
}

/// `r` sums up a run for a file that follows `plan`.
pub open spec fn summarised(meta: Meta, plan: EncodePlan, r: EncodeReport) -> bool {
    &&& r.filename@ == meta.filename@
    &&& r.size == meta.size
    &&& r.sha256@ == meta.sha256@
    &&& r.ecc_len == plan.ecc_len
    &&& r.index_bits == plan.index_bits
    &&& r.num_data_frames == plan.num_data_frames
    &&& r.total_frames == plan.total_frames
}

/// A summary tells the file by its name, size and digest and repeats the plan: two that
/// say the same are of files and plans that agree in all of it.
pub proof fn theorem_summary(meta: Meta, plan: EncodePlan, other: Meta, plan2: EncodePlan, r: EncodeReport)
    requires
        summarised(meta, plan, r),
        summarised(other, plan2, r),
    ensures
        meta.filename@ == other.filename@,
        meta.size == other.size,
        meta.sha256@ == other.sha256@,
        plan.ecc_len == plan2.ecc_len,
        plan.index_bits == plan2.index_bits,
        plan.num_data_frames == plan2.num_data_frames,
        plan.total_frames == plan2.total_frames,
        r.filename@ == meta.filename@,
        r.sha256@ == meta.sha256@,
        r.size == meta.size,
        r.ecc_len == plan.ecc_len,
        r.index_bits == plan.index_bits,
        r.num_data_frames == plan.num_data_frames,
        r.total_frames == plan.total_frames,
{
}

/// The summary of a run that follows `plan`.
pub fn report(meta: &Meta, plan: &EncodePlan) -> (r: EncodeReport)
    ensures
        summarised(*meta, *plan, r),
        r.filename@ == meta.filename@,
        r.size == meta.size,
        r.sha256@ == meta.sha256@,
        r.ecc_len == plan.ecc_len,
        r.index_bits == plan.index_bits,
        r.num_data_frames == plan.num_data_frames,
        r.total_frames == plan.total_frames,
{
    EncodeReport {
        filename: meta.filename.clone(),
        size: meta.size,
        sha256: meta.sha256.clone(),
        ecc_len: plan.ecc_len,
        index_bits: plan.index_bits,
        num_data_frames: plan.num_data_frames,
        total_frames: plan.total_frames,
    }
}

// ---------------------------------------------------------------------------
// The frames
// ---------------------------------------------------------------------------

/// The bytes that data frame `k` of a stream carries: `len` of them, zeros
/// behind the end of the stream.
pub open spec fn frame_data(stream: Seq<u8>, len: int, k: int) -> Seq<u8> {
    Seq::new(
        len as nat,
        |i: int|
            if k * len + i < stream.len() {
                stream[k * len + i]
            } else {
                0u8
            },
    )
}

/// The luma plane of data frame `k` of a stream.
pub open spec fn data_luma(stream: Seq<u8>, len: int, k: int, index_bits: int) -> Seq<u8> {
    frame::luma_frame(
        frame::frame_bits(k as nat, frame_data(stream, len, k), index_bits as nat),
    )
}

/// A frame that the stream fills is not changed by what follows.
pub proof fn lemma_full_frame_stays(stream: Seq<u8>, more: Seq<u8>, len: int, k: int)
    requires
        0 <= k,
        0 <= len,
        k * len + len <= stream.len(),
    ensures
        frame_data(stream + more, len, k) == frame_data(stream, len, k),
{
    assert(0 <= k * len) by (nonlinear_arith)
        requires
            0 <= k,
            0 <= len,
    ;
    assert(frame_data(stream + more, len, k) =~= frame_data(stream, len, k));
}

/// What a frame source has to give.
#[derive(Debug)]
pub enum NextFrame {
    /// Payload has to be supplied first.
    NeedInput,
    /// The next luma plane.
    Luma(Vec<u8>),
}

/// Cuts the ECC stream of a payload into frames and draws them.
pub struct DataFrameProducer {
    ecc: StreamingEcc,
    index_bits: usize,
    frame_bytes: usize,
    emitted: usize,
    buf: Vec<u8>,
}

impl DataFrameProducer {
    /// The payload's stream.
    pub closed spec fn ecc(self) -> StreamingEcc {
        self.ecc
    }

    /// Width of the frame index.
    pub closed spec fn index_bits(self) -> int {
        self.index_bits as int
    }

    /// How many frames have been drawn.
    pub closed spec fn drawn(self) -> int {
        self.emitted as int
    }

    /// Data bytes per frame.
    pub open spec fn frame_len(self) -> int {
        frame::frame_bytes(self.index_bits())
    }

    /// How many bytes are held in memory.
    pub closed spec fn held(self) -> nat {
        self.ecc.held() + self.buf@.len()
    }

    /// The bytes read from the stream fill the frames drawn, and what is left of
    /// them is the beginning of the next frame.
    pub closed spec fn wf(self) -> bool {
        &&& self.ecc.wf()
        &&& self.index_bits <= 64
        &&& frame::byte_aligned_width(self.index_bits as int)
        &&& self.frame_bytes == frame::frame_bytes(self.index_bits as int)
        &&& self.buf@.len() <= self.frame_bytes
        &&& self.ecc.emitted().len() < self.emitted * self.frame_bytes ==> self.ended()
            && self.buf@.len() == 0
        &&& self.emitted * self.frame_bytes <= self.ecc.emitted().len() ==> self.buf@
            == self.ecc.emitted().skip(self.emitted * self.frame_bytes)
    }

    /// The payload has ended and its whole ECC stream has been read.
    pub open spec fn ended(self) -> bool {
        self.ecc().ended() && self.ecc().pending().len() == 0
    }

    /// The bytes that have been coded do not fill the next frame.
    pub open spec fn next_incomplete(self) -> bool {
        (self.ecc().emitted() + self.ecc().pending()).len() < self.drawn() * self.frame_len()
            + self.frame_len()
    }

    /// Frames with indices of `index_bits` bits, of a payload that is coded
    /// `batch_blocks` blocks at a time.
    pub fn new(batch_blocks: usize, index_bits: usize) -> (p: DataFrameProducer)
        requires
            batch_blocks * RS_DATA_BYTES <= usize::MAX,
            index_bits <= 64,
            frame::byte_aligned_width(index_bits as int),
        ensures
            p.wf(),
            p.index_bits() == index_bits,
            p.drawn() == 0,
            p.ecc().supplied() == Seq::<u8>::empty(),
            p.ecc().emitted() == Seq::<u8>::empty(),
            p.ecc().pending() == Seq::<u8>::empty(),
            !p.ecc().ended(),
    {
        let frame_bytes: usize = frame::frame_layout(index_bits).1 / 8;
        let p = DataFrameProducer {
            ecc: StreamingEcc::new(batch_blocks),
            index_bits,
            frame_bytes,
            emitted: 0,
            buf: Vec::new(),
        };
        assert(p.emitted * p.frame_bytes == 0) by (nonlinear_arith)
            requires
                p.emitted == 0,
        ;
        assert(p.buf@ =~= p.ecc.emitted().skip(0));
        p
    }

    /// Whether payload is needed now.
    pub fn needs_input(&self) -> (b: bool)
        requires
            self.wf(),
        ensures
            b == (self.ecc().pending().len() == 0 && !self.ecc().ended()),
    {
        self.ecc.needs_input()
    }

    /// The most payload bytes that [`DataFrameProducer::supply`] takes now.
    pub fn room(&self) -> (n: usize)
        requires
            self.wf(),
        ensures
            n > 0,
            n == self.ecc().batch() - self.ecc().supplied().len() as int % self.ecc().batch()
                || self.ecc().ended(),
    {
        self.ecc.room()
    }

    /// Takes in the next piece of the payload; an empty piece says that the
    /// payload has ended.
    pub fn supply(&mut self, piece: &[u8])
        requires
            old(self).wf(),
            stream::takes(old(self).ecc(), piece@.len() as int),
        ensures
            final(self).wf(),
            final(self).index_bits() == old(self).index_bits(),
            final(self).drawn() == old(self).drawn(),
            stream::took(old(self).ecc(), final(self).ecc(), piece@),
    {
        self.ecc.supply(piece);
    }

    /// Draws the next frame once its bytes are there. Behind the end of the
    /// stream there are zeros.
    pub fn next_frame(&mut self) -> (r: NextFrame)
        requires
            old(self).wf(),
            old(self).drawn() < usize::MAX,
        ensures
            final(self).wf(),
            drew(*old(self), *final(self), r),
    {
        let ghost k = self.emitted as int;
        let ghost len = self.frame_bytes as int;
        let ghost all = self.ecc.emitted() + self.ecc.pending();
        let ghost read = self.ecc.emitted();
        let want: usize = self.frame_bytes - self.buf.len();
        let mut part: Vec<u8> = self.ecc.read(want);
        proof {
            assert(self.ecc.emitted() + self.ecc.pending() =~= all);
            assert(read.is_prefix_of(self.ecc.emitted()));
            assert((k + 1) * len == k * len + len) by (nonlinear_arith);
            assert(0 <= k * len) by (nonlinear_arith)
                requires
                    0 <= k,
                    0 <= len,
            ;
        }
        let ghost held = self.buf@;
        self.buf.append(&mut part);
        let ghost now = self.ecc.emitted();
        proof {
            if k * len <= read.len() {
                assert(self.buf@ =~= now.skip(k * len));
            } else {
                assert(self.buf@ =~= Seq::<u8>::empty());
                assert(now =~= read);
            }
        }
        if self.buf.len() < self.frame_bytes && self.ecc.needs_input() {
            return NextFrame::NeedInput;
        }
        while self.buf.len() < self.frame_bytes
            invariant
                self.ecc.emitted() == now,
                self.ecc.wf(),
                self.ecc.batch() == old(self).ecc.batch(),
                self.ecc.supplied() == old(self).ecc.supplied(),
                self.ecc.ended() == old(self).ecc.ended(),
                self.buf@.len() < len ==> self.ecc.ended() && self.ecc.pending().len() == 0,
                now.len() >= k * len + len || (self.ecc.ended() && self.ecc.pending().len() == 0),
                self.index_bits == old(self).index_bits,
                self.frame_bytes == len,
                self.frame_bytes == old(self).frame_bytes,
                self.emitted == k,
                0 <= k * len,
                self.buf@.len() <= len,
                forall|i: int|
                    0 <= i < self.buf@.len() ==> #[trigger] self.buf@[i] == frame_data(
                        now,
                        len,
                        k,
                    )[i],
                now.len() >= k * len ==> self.buf@.len() >= now.len() - k * len,
            decreases self.frame_bytes - self.buf@.len(),
        {
            self.buf.push(0);
        }
        assert(self.buf@ =~= frame_data(now, len, k));
        let luma: Vec<u8> = frame::make_frame_luma(self.emitted as u64, &self.buf, self.index_bits);
        self.emitted = self.emitted + 1;
        self.buf = Vec::new();
        proof {
            if (k + 1) * len <= now.len() {
                assert(self.buf@ =~= now.skip((k + 1) * len));
            }
        }
        NextFrame::Luma(luma)
    }
}

/// All frames of an encoded file: the plane with the QR code
/// [`METADATA_FRAMES`] times, then the data frames.
pub struct FrameSource {
    qr_luma: Vec<u8>,
    shown: usize,
    producer: DataFrameProducer,
}

impl FrameSource {
    /// The plane with the QR code.
    pub closed spec fn qr_luma(self) -> Seq<u8> {
        self.qr_luma@
    }

    /// How many of the planes with the QR code have been handed out.
    pub closed spec fn qr_shown(self) -> int {
        self.shown as int
    }

    /// The data frames.
    pub closed spec fn producer(self) -> DataFrameProducer {
        self.producer
    }

    /// Data frames follow the planes with the QR code.
    pub closed spec fn wf(self) -> bool {
        &&& self.producer.wf()
        &&& self.shown <= METADATA_FRAMES
        &&& self.shown < METADATA_FRAMES ==> self.producer.drawn() == 0
    }

    /// The frames of a file: `qr_luma` first, then data frames with indices of
    /// `index_bits` bits.
    pub fn new(qr_luma: Vec<u8>, batch_blocks: usize, index_bits: usize) -> (s: FrameSource)
        requires
            batch_blocks * RS_DATA_BYTES <= usize::MAX,
            index_bits <= 64,
            frame::byte_aligned_width(index_bits as int),
        ensures
            s.wf(),
            s.qr_luma() == qr_luma@,
            s.qr_shown() == 0,
            s.producer().index_bits() == index_bits,
            s.producer().drawn() == 0,
            s.producer().ecc().supplied() == Seq::<u8>::empty(),
            s.producer().ecc().emitted() == Seq::<u8>::empty(),
            s.producer().ecc().pending() == Seq::<u8>::empty(),
            !s.producer().ecc().ended(),
    {
        FrameSource { qr_luma, shown: 0, producer: DataFrameProducer::new(batch_blocks, index_bits) }
    }

    /// The most payload bytes that [`FrameSource::supply`] takes now.
    pub fn room(&self) -> (n: usize)
        requires
            self.wf(),
        ensures
            n > 0,
            n == self.producer().ecc().batch() - self.producer().ecc().supplied().len() as int
                % self.producer().ecc().batch() || self.producer().ecc().ended(),
    {
        self.producer.room()
    }

    /// Takes in the next piece of the payload, after [`FrameSource::next`] has
    /// asked for it; an empty piece says that the payload has ended.
    pub fn supply(&mut self, piece: &[u8])
        requires
            old(self).wf(),
            stream::takes(old(self).producer().ecc(), piece@.len() as int),
        ensures
            final(self).wf(),
            final(self).qr_luma() == old(self).qr_luma(),
            final(self).qr_shown() == old(self).qr_shown(),
            final(self).producer().index_bits() == old(self).producer().index_bits(),
            final(self).producer().drawn() == old(self).producer().drawn(),
            stream::took(old(self).producer().ecc(), final(self).producer().ecc(), piece@),
    {
        self.producer.supply(piece);
    }

    /// The next frame, or a request for payload.
    pub fn next(&mut self) -> (r: NextFrame)
        requires
            old(self).wf(),
            old(self).producer().drawn() < usize::MAX,
        ensures
            final(self).wf(),
            final(self).qr_luma() == old(self).qr_luma(),
            old(self).qr_shown() < METADATA_FRAMES ==> (r matches NextFrame::Luma(luma) && luma@
                == old(self).qr_luma()) && final(self).producer() == old(self).producer()
                && final(self).qr_shown() == old(self).qr_shown() + 1,
            old(self).qr_shown() >= METADATA_FRAMES ==> final(self).qr_shown() == old(
                self,
            ).qr_shown() && drew(old(self).producer(), final(self).producer(), r),
    {
        if self.shown < METADATA_FRAMES {
            self.shown = self.shown + 1;
            let mut luma: Vec<u8> = Vec::new();
            luma.extend_from_slice(&self.qr_luma);
            assert(luma@ =~= self.qr_luma@);
            NextFrame::Luma(luma)
        } else {
            self.producer.next_frame()
        }
    }
}

/// What [`DataFrameProducer::next_frame`] does: it asks for payload, or it draws
/// the next frame of the bytes read.
pub open spec fn drew(before: DataFrameProducer, now: DataFrameProducer, r: NextFrame) -> bool {
    let k = before.drawn();
    let len = before.frame_len();
    &&& now.index_bits() == before.index_bits()
    &&& now.ecc().batch() == before.ecc().batch()
    &&& now.ecc().supplied() == before.ecc().supplied()
    &&& now.ecc().ended() == before.ecc().ended()
    &&& before.ecc().emitted().is_prefix_of(now.ecc().emitted())
    &&& (r is NeedInput) == (before.next_incomplete() && !before.ecc().ended())
    &&& match r {
        NextFrame::NeedInput => now.drawn() == k && now.ecc().pending().len() == 0,
        NextFrame::Luma(luma) => {
            &&& now.drawn() == k + 1
            &&& luma@ == data_luma(now.ecc().emitted(), len, k, before.index_bits())
            &&& now.ecc().emitted().len() >= k * len + len || now.ended()
        },
    }
}

/// How many frames a stream takes, and what each carries: 57 bytes a frame for up to
/// 65,536 frames and 55 for more, no frame without a byte of the stream, byte `i` of
/// frame `k` being byte `k * 57 + i` or `k * 55 + i` of it, and zeros behind its end.
pub proof fn theorem_frames_of_a_stream(stream: Seq<u8>, k: int, i: int)
    requires
        0 <= k,
    ensures
        ({
            let n = data_frames(stream.len() as int);
            let len = if stream.len() <= 65536 * 57 {
                57int
            } else {
                55
            };
            &&& frame::frame_bytes(frame::chosen_index_bits(stream.len() as int)) == len
            &&& (n - 1) * len < stream.len() <= n * len
            &&& frame_data(stream, len, k).len() == len
            &&& 0 <= i < len ==> frame_data(stream, len, k)[i] == (if k * len + i < stream.len() {
                stream[k * len + i]
            } else {
                0
            })
        }),
{
    let total = stream.len() as int;
    frame::theorem_index_width(total);
    if total <= 65536 * 57 {
        vstd::arithmetic::div_mod::lemma_fundamental_div_mod(total + 56, 57);
    } else {
        vstd::arithmetic::div_mod::lemma_fundamental_div_mod(total + 54, 55);
    }
}

/// What asking for the next frame comes to: payload is asked for only where the bytes
/// coded so far do not fill the frame and more are to come, and a frame that is drawn
/// is the one after the last, with the bytes of the stream that belong to it.
pub proof fn theorem_next_frame(before: DataFrameProducer, now: DataFrameProducer, r: NextFrame)
    requires
        drew(before, now, r),
    ensures
        now.ecc().supplied() == before.ecc().supplied(),
        r is NeedInput ==> now.drawn() == before.drawn() && !before.ecc().ended(),
        r is NeedInput <==> !before.ecc().ended() && before.ecc().emitted().len()
            + before.ecc().pending().len() < (before.drawn() + 1) * ((472 - before.index_bits())
            / 8),
        r is Luma ==> {
            let k = before.drawn();
            let len = (472 - before.index_bits()) / 8;
            let stream = now.ecc().emitted();
            &&& now.drawn() == k + 1
            &&& r->Luma_0@ == frame::luma_frame(
                frame::frame_bits(
                    k as nat,
                    frame_data(stream, len, k),
                    before.index_bits() as nat,
                ),
            )
            &&& k * len + len <= stream.len() || (now.ecc().ended() && now.ecc().pending().len()
                == 0)
        },
{
    let width = (472 - before.index_bits()) / 8;
    assert(before.frame_len() == width);
    let k = before.drawn();
    assert((k + 1) * width == k * width + width) by (nonlinear_arith);
}

/// However long the payload is, drawing its frames holds no more in memory than
/// one batch, the code of one batch, and the bytes of one frame.
pub proof fn theorem_encoding_memory(p: DataFrameProducer)
    requires
        p.wf(),
    ensures
        p.held() <= p.ecc().batch() + rs::ecc_len(p.ecc().batch()) + p.frame_len(),
{
    stream::theorem_coding_memory(p.ecc);
}

/// A frame that has been drawn shows the bytes of the payload's ECC stream, as
/// it turns out once the payload has ended: `source` is the producer as it drew
/// the frame, `end` the producer when everything has been read.
pub proof fn theorem_frames_show_stream(
    source: DataFrameProducer,
    end: DataFrameProducer,
    k: int,
    payload: Seq<u8>,
)
    requires
        0 <= k,
        source.frame_len() >= 0,
        end.wf(),
        end.ended(),
        end.ecc().supplied() == payload,
        source.ecc().emitted().is_prefix_of(end.ecc().emitted()),
        source.ecc().emitted().len() >= k * source.frame_len() + source.frame_len()
            || source.ecc().emitted() == end.ecc().emitted(),
    ensures
        data_luma(source.ecc().emitted(), source.frame_len(), k, source.index_bits()) == data_luma(
            rs::ecc_stream(payload),
            source.frame_len(),
            k,
            source.index_bits(),
        ),
{
    stream::theorem_streamed_is_one_shot(end.ecc());
    let a = source.ecc().emitted();
    let b = end.ecc().emitted();
    if a.len() >= k * source.frame_len() + source.frame_len() {
        let more = b.skip(a.len() as int);
        assert(b =~= a + more);
        lemma_full_frame_stays(a, more, source.frame_len(), k);
    }
}

/// The frames of a stream carry it: the byte at place `i` of frame `k` is byte
/// `k * len + i` of the stream, and the frames together cover it.
pub proof fn theorem_frames_cover_stream(stream: Seq<u8>, len: int, p: int)
    requires
        0 < len,
        0 <= p < stream.len(),
    ensures
        0 <= p / len < chunks::chunk_count(stream.len() as int, len),
        frame_data(stream, len, p / len)[p % len] == stream[p],
{
    let q = p / len;
    vstd::arithmetic::div_mod::lemma_fundamental_div_mod(p, len);
    vstd::arithmetic::div_mod::lemma_div_pos_is_pos(p, len);
    assert(q * len == len * q) by (nonlinear_arith);
    vstd::arithmetic::div_mod::lemma_fundamental_div_mod(stream.len() + len - 1, len);
    let n = chunks::chunk_count(stream.len() as int, len);
    assert(q < n) by (nonlinear_arith)
        requires
            0 < len,
            len * q <= p < stream.len(),
            stream.len() + len - 1 == len * n + (stream.len() + len - 1) % len,
            0 <= (stream.len() + len - 1) % len < len,
    ;
}

} // verus!
