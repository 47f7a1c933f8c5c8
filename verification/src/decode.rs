//! Decoding: frames in, file bytes out.
//!
//! Frames come one at a time. Once QR metadata has told the number of frames,
//! the index width and the file's name, size and digest, the bytes of each data
//! frame go into a sliding window over the ECC stream, and the file is written
//! out as the window moves. Without such metadata the frames are collected, and
//! what they hold is handed over at the end, to be completed by the metadata in
//! the payload itself.

use vstd::prelude::*;

use crate::cells;
use crate::constants::{
    DEFAULT_FRAME_INDEX_BITS, EXTENDED_FRAME_INDEX_BITS, METADATA_FRAMES, RS_BLOCK_SIZE, SYNC_BITS,
    TOTAL_BLOCKS,
};
use crate::frame;
use crate::metadata;
use crate::metadata::{Meta, PayloadError, PayloadSink, QrMeta, SHA256_BYTE_LIMIT};
use crate::rs::ReedSolomonError;
use crate::window;
use crate::window::{Reception, Window, WindowError};

verus! {

/// The channels that a file was recovered from.
#[derive(Debug, Clone, Copy, PartialEq, Eq)]
pub enum Strategy {
    VideoOnly,
}

/// What was recovered.
#[derive(Debug, Clone)]
pub struct DecodeReport {
    pub filename: String,
    pub size: usize,
    pub sha256: String,
    pub sha_ok: bool,
    pub strategy: Strategy,
}

/// Why no file was recovered.
#[derive(Debug, Clone, Copy, PartialEq, Eq)]
pub enum DecodeError {
    /// No frame carried data.
    NoValidFrames,
    /// A window of the ECC stream could not be decoded.
    WindowFailed(WindowError),
    /// The ECC stream, decoded at the end, could not be recovered.
    StreamFailed(ReedSolomonError),
    /// The payload holds no file.
    BadPayload(PayloadError),
    /// The recovered file is not the original.
    ShaMismatch,
}

/// What a report comes to.
pub open spec fn verdict_on(report: DecodeReport) -> Result<DecodeReport, DecodeError> {
    if report.sha_ok {
        Ok(report)
    } else {
        Err(DecodeError::ShaMismatch)
    }
}

/// A recovered file that is not the original is an error, whatever else the report says,
/// and one that is the original never is; the report is passed on as it is.
pub proof fn theorem_verdict(report: DecodeReport)
    ensures
        verdict_on(report) is Ok <==> report.sha_ok,
        report.sha_ok ==> verdict_on(report)->Ok_0 == report,
        !report.sha_ok ==> verdict_on(report) == Err::<DecodeReport, DecodeError>(
            DecodeError::ShaMismatch,
        ),
{
}

impl DecodeReport {
    /// A recovered file counts only where its digest is the expected one.
    pub fn verdict(self) -> (r: Result<DecodeReport, DecodeError>)
        ensures
            r == verdict_on(self),
            r == (if self.sha_ok {
                Ok::<DecodeReport, DecodeError>(self)
            } else {
                Err(DecodeError::ShaMismatch)
            }),
    {
        if self.sha_ok {
            Ok(self)
        } else {
            Err(DecodeError::ShaMismatch)
        }
    }
}

// ---------------------------------------------------------------------------
// The course of decoding
// ---------------------------------------------------------------------------

/// What QR metadata says of the stream and of the file.
pub ghost struct Target {
    pub frames: int,
    pub frame_bytes: int,
    pub stream_len: int,
    pub size: int,
    pub filename: Seq<char>,
    pub sha256: Seq<char>,
}

/// How far decoding has come. While there is no target, frames are pending.
pub ghost struct Course {
    pub index_bits: int,
    pub qr: Option<QrMeta>,
    pub pending: Seq<(nat, Seq<u8>)>,
    pub target: Option<Target>,
    pub reception: Reception,
    pub total: nat,
    pub sync_fail: nat,
    pub valid: nat,
}

/// Nothing has been seen.
pub open spec fn course_start() -> Course {
    Course {
        index_bits: DEFAULT_FRAME_INDEX_BITS as int,
        qr: None,
        pending: Seq::empty(),
        target: None,
        reception: Reception { received: Map::empty(), start: 0 },
        total: 0,
        sync_fail: 0,
        valid: 0,
    }
}

/// The index width once QR metadata has been read: the one that it names, where
/// that is a width in use.
pub open spec fn adopted(index_bits: int, m: QrMeta) -> int {
    match m.index_bits {
        Some(ib) => if ib == DEFAULT_FRAME_INDEX_BITS || ib == EXTENDED_FRAME_INDEX_BITS {
            ib as int
        } else {
            index_bits
        },
        None => index_bits,
    }
}

/// Length of the ECC stream in frames that hold `raw` bytes: what the metadata
/// says, where the frames hold as much; where it says nothing, the whole blocks
/// among the bytes, or all bytes where they do not fill a block.
pub open spec fn stream_len(raw: int, ecc_bytes: Option<u64>) -> int {
    match ecc_bytes {
        Some(e) => if e <= raw {
            e as int
        } else {
            raw
        },
        None => if raw >= RS_BLOCK_SIZE {
            raw / RS_BLOCK_SIZE as int * RS_BLOCK_SIZE
        } else {
            raw
        },
    }
}

/// The target that QR metadata sets; it takes the number of frames and the
/// file's name, size and digest.
pub open spec fn target_of(m: QrMeta, index_bits: int) -> Option<Target> {
    match (m.frames, m.filename, m.size, m.sha256) {
        (Some(frames), Some(filename), Some(size), Some(sha256)) => Some(
            Target {
                frames: frames as int,
                frame_bytes: frame::frame_bytes(index_bits),
                stream_len: stream_len(frames * frame::frame_bytes(index_bits), m.ecc_bytes),
                size: size as int,
                filename: filename@,
                sha256: sha256@,
            },
        ),
        _ => None,
    }
}

/// The reception once a data frame has come; a frame beyond the last is
/// ignored.
pub open spec fn after_frame(
    r: Reception,
    bytes: int,
    t: Target,
    content: (nat, Seq<u8>),
) -> Reception {
    if content.0 < t.frames {
        window::arrived(r, bytes, content.0 * t.frame_bytes, content.1)
    } else {
        r
    }
}

/// The reception once the first `n` pending frames have been put into an empty
/// window.
pub open spec fn replayed(pending: Seq<(nat, Seq<u8>)>, n: nat, bytes: int, t: Target) -> Reception
    decreases n,
{
    if n == 0 {
        Reception { received: Map::empty(), start: 0 }
    } else {
        after_frame(replayed(pending, (n - 1) as nat, bytes, t), bytes, t, pending[n - 1])
    }
}

/// QR metadata is looked for in the first [`METADATA_FRAMES`] frames, until some
/// is found.
pub open spec fn looks_for_qr(c: Course) -> bool {
    c.total < METADATA_FRAMES && c.qr is None
}

/// The course once `m` has been found. Frames that were read at another index
/// width are dropped.
pub open spec fn after_meta(c: Course, bytes: int, m: QrMeta) -> Course {
    let bits = adopted(c.index_bits, m);
    let pending = if bits == c.index_bits {
        c.pending
    } else {
        Seq::empty()
    };
    match target_of(m, bits) {
        Some(t) => Course {
            index_bits: bits,
            qr: Some(m),
            pending: Seq::empty(),
            target: Some(t),
            reception: replayed(pending, pending.len(), bytes, t),
            ..c
        },
        None => Course { index_bits: bits, qr: Some(m), pending, ..c },
    }
}

/// The course once the metadata found in a frame, if any, has been considered.
pub open spec fn after_qr(c: Course, bytes: int, qr: Option<QrMeta>) -> Course {
    match qr {
        Some(m) => if looks_for_qr(c) {
            after_meta(c, bytes, m)
        } else {
            c
        },
        None => c,
    }
}

/// The course once the blocks of a frame have been read.
pub open spec fn after_blocks(c: Course, bytes: int, blocks: Seq<u8>) -> Course {
    let total = c.total + 1;
    match frame::frame_content(blocks, SYNC_BITS + c.index_bits) {
        Some(content) => match c.target {
            Some(t) => Course {
                reception: after_frame(c.reception, bytes, t, content),
                valid: if content.0 < t.frames {
                    c.valid + 1
                } else {
                    c.valid
                },
                total,
                ..c
            },
            None => Course { pending: c.pending.push(content), total, ..c },
        },
        None => Course { sync_fail: c.sync_fail + 1, total, ..c },
    }
}

/// The course once a frame, with the metadata found in it, has been seen.
pub open spec fn after(c: Course, bytes: int, frame: Seq<u8>, qr: Option<QrMeta>) -> Course {
    after_blocks(after_qr(c, bytes, qr), bytes, frame::sampled(frame))
}

/// Decoding has failed in a window.
pub open spec fn course_failed(c: Course, bytes: int, e: WindowError) -> bool {
    c.target matches Some(t) && window::failed(
        c.reception,
        bytes,
        t.stream_len,
        e.offset as int,
        e.error,
    )
}

/// The file bytes written so far are those in what the window has left, where no
/// block lacks more than 32 bytes.
pub open spec fn written_so_far(c: Course, written: Seq<u8>) -> bool {
    match c.target {
        Some(t) => {
            let left = window::settled(c.reception, t.stream_len);
            &&& !cells::starved(left)
            &&& cells::decoded_cells(left) matches Ok(p) && written == metadata::file_part(
                p,
                t.size,
            )
        },
        None => written.len() == 0,
    }
}

/// The number of frames that the metadata claims can be addressed.
pub open spec fn addressable(c: Course, m: QrMeta) -> bool {
    m.frames matches Some(n) ==> n * frame::frame_bytes(adopted(c.index_bits, m)) <= usize::MAX
}

/// What one frame changes, where no metadata is found in it. Without the sync pattern
/// it is counted as such and nothing else. With it, its bytes go where its index says
/// once the stream is known, replacing what came for that place before, unless the
/// index lies behind the last frame; until then the frame is kept.
pub proof fn theorem_frame_step(c: Course, bytes: int, frame: Seq<u8>)
    ensures
        ({
            let n = after(c, bytes, frame, None);
            let content = frame::frame_content(frame::sampled(frame), 8 + c.index_bits);
            &&& n.total == c.total + 1
            &&& n.qr == c.qr && n.target == c.target && n.index_bits == c.index_bits
            &&& content is None ==> n.sync_fail == c.sync_fail + 1 && n.valid == c.valid
                && n.pending == c.pending && n.reception == c.reception
            &&& content is Some ==> n.sync_fail == c.sync_fail
            &&& content is Some && c.target is None ==> n.pending == c.pending.push(content->0)
                && n.valid == c.valid && n.reception == c.reception
            &&& content is Some && c.target is Some ==> {
                let (idx, data) = content->0;
                let t = c.target->0;
                &&& n.pending == c.pending
                &&& idx < t.frames ==> n.valid == c.valid + 1 && n.reception == window::arrived(
                    c.reception,
                    bytes,
                    idx * t.frame_bytes,
                    data,
                )
                &&& idx >= t.frames ==> n.valid == c.valid && n.reception == c.reception
            }
        }),
{
}

/// Decoding begins with nothing seen, at an index width of 16 bits.
pub proof fn theorem_start()
    ensures
        ({
            let c = course_start();
            &&& c.index_bits == 16
            &&& c.qr is None && c.target is None
            &&& c.pending.len() == 0
            &&& c.reception.received.dom() == Set::<int>::empty() && c.reception.start == 0
            &&& c.total == 0 && c.sync_fail == 0 && c.valid == 0
        }),
{
}

/// The file bytes written so far: those of the payload that the cells before the window
/// decode to, behind its header and up to the size of the file. Before there is a
/// target nothing is written.
pub proof fn theorem_written(c: Course, written: Seq<u8>)
    requires
        written_so_far(c, written),
    ensures
        c.target is None ==> written.len() == 0,
        c.target matches Some(t) ==> {
            let left = window::cells_of(
                c.reception.received,
                0,
                window::least(c.reception.start, t.stream_len),
            );
            let p = cells::decoded_cells(left)->Ok_0;
            &&& cells::decoded_cells(left) is Ok
            &&& written == metadata::file_part(p, t.size)
        },
{
}

/// The number of frames that metadata tells can be addressed where all their bytes
/// can.
pub proof fn theorem_addressable(c: Course, m: QrMeta)
    ensures
        m.frames is None ==> addressable(c, m),
        m.frames is Some ==> (addressable(c, m) <==> m.frames->0 * ((472 - (
        if m.index_bits == Some(16u32) {
            16
        } else if m.index_bits == Some(32u32) {
            32
        } else {
            c.index_bits
        })) / 8) <= usize::MAX),
{
}

/// When metadata counts: in one of the first 30 frames, and only the first that is
/// found. Later metadata, and any after the first, is as if it were not there.
pub proof fn theorem_metadata_counts_once(c: Course, bytes: int, frame: Seq<u8>, m: QrMeta)
    ensures
        c.total >= 30 || c.qr is Some ==> after(c, bytes, frame, Some(m)) == after(
            c,
            bytes,
            frame,
            None,
        ),
        c.total < 30 && c.qr is None ==> after(c, bytes, frame, Some(m)).qr == Some(m),
        looks_for_qr(c) <==> c.total < 30 && c.qr is None,
{
}

/// What metadata sets: the index width, where it is 16 or 32, and, where the number of
/// frames and the file's name, size and digest are told, the target. The stream is as
/// long as is told, but no longer than the frames hold. Frames that were kept are
/// taken in order as if they came now, unless they were read at another width.
pub proof fn theorem_metadata_step(c: Course, bytes: int, frame: Seq<u8>, m: QrMeta)
    requires
        c.total < 30,
        c.qr is None,
    ensures
        ({
            let n = after_meta(c, bytes, m);
            let bits = if m.index_bits == Some(16u32) {
                16int
            } else if m.index_bits == Some(32u32) {
                32
            } else {
                c.index_bits
            };
            let raw = m.frames->0 * ((472 - bits) / 8);
            let known = m.frames is Some && m.filename is Some && m.size is Some && m.sha256 is Some;
            &&& after(c, bytes, frame, Some(m)) == after(n, bytes, frame, None)
            &&& n.index_bits == bits
            &&& n.total == c.total && n.sync_fail == c.sync_fail && n.valid == c.valid
            &&& known ==> {
                let t = n.target->0;
                &&& n.target is Some
                &&& n.pending.len() == 0
                &&& t.frames == m.frames->0
                &&& t.frame_bytes == (472 - bits) / 8
                &&& t.size == m.size->0
                &&& t.filename == m.filename->0@
                &&& t.sha256 == m.sha256->0@
                &&& m.ecc_bytes is Some ==> t.stream_len == (if m.ecc_bytes->0 <= raw {
                    m.ecc_bytes->0 as int
                } else {
                    raw
                })
                &&& m.ecc_bytes is None ==> t.stream_len == (if raw < 255 {
                    raw
                } else {
                    raw - raw % 255
                })
                &&& bits == c.index_bits ==> n.reception == replayed(
                    c.pending,
                    c.pending.len(),
                    bytes,
                    t,
                )
                &&& bits != c.index_bits ==> n.reception == (Reception {
                    received: Map::empty(),
                    start: 0,
                })
            }
            &&& !known ==> n.target == c.target && n.reception == c.reception && n.pending == (
            if bits == c.index_bits {
                c.pending
            } else {
                Seq::empty()
            })
        }),
{
}

/// Frames kept until the metadata came are taken one after the other, as if each came
/// then.
pub proof fn theorem_replayed(pending: Seq<(nat, Seq<u8>)>, n: nat, bytes: int, t: Target)
    ensures
        replayed(pending, 0, bytes, t).received.dom() == Set::<int>::empty(),
        replayed(pending, 0, bytes, t).start == 0,
        pending[n as int].0 < t.frames ==> replayed(pending, n + 1, bytes, t) == window::arrived(
            replayed(pending, n, bytes, t),
            bytes,
            pending[n as int].0 * t.frame_bytes,
            pending[n as int].1,
        ),
        pending[n as int].0 >= t.frames ==> replayed(pending, n + 1, bytes, t) == replayed(
            pending,
            n,
            bytes,
            t,
        ),
{
}

/// A window fails only where it has to: no payload can be recovered from what has
/// arrived for it, and what had failed then has failed for good.
pub proof fn theorem_no_false_failure(c: Course, bytes: int, e: WindowError, payload: Seq<u8>)
    requires
        course_failed(c, bytes, e),
        c.reception.start <= usize::MAX,
    ensures
        c.target matches Some(t) && {
            let left = window::cells_of(
                c.reception.received,
                0,
                window::least(c.reception.start, t.stream_len),
            );
            &&& !cells::recoverable_cells(payload, left)
            &&& cells::decoded_cells(left) is Err
            &&& e.offset + bytes <= c.reception.start && e.offset < t.stream_len
        },
{
    let t = c.target->0;
    cells::lemma_hopeless(payload, window::settled(c.reception, t.stream_len));
}

// ---------------------------------------------------------------------------
// The session
// ---------------------------------------------------------------------------

/// A stream whose metadata is known.
struct Resolved {
    window: Window,
    payload: PayloadSink,
    frame_bytes: usize,
    frames: u64,
    total_ecc_len: usize,
    size: u64,
    sha_expected: String,
    filename: String,
}

/// Decoding as it goes on.
pub struct DecodeSession {
    window_bytes: usize,
    index_bits: usize,
    qr_meta: Option<QrMeta>,
    buffered: Vec<(u64, Vec<u8>)>,
    resolved: Option<Resolved>,
    total: usize,
    sync_fail: usize,
    valid: usize,
}

/// What a frame led to: the name of the file to begin, once it is known, and
/// the file bytes to write.
#[derive(Debug)]
pub struct FrameStep {
    pub opened: Option<String>,
    pub bytes: Vec<u8>,
}

/// The pending frames, by their views.
pub open spec fn frames_view(buffered: Seq<(u64, Vec<u8>)>) -> Seq<(nat, Seq<u8>)> {
    Seq::new(buffered.len(), |i: int| (buffered[i].0 as nat, buffered[i].1@))
}

/// Pending frames by their views are all of them, one by one.
pub proof fn theorem_frames_view(buffered: Seq<(u64, Vec<u8>)>, i: int)
    ensures
        frames_view(buffered).len() == buffered.len(),
        0 <= i < buffered.len() ==> frames_view(buffered)[i].0 == buffered[i].0,
        0 <= i < buffered.len() ==> frames_view(buffered)[i].1 == buffered[i].1@,
{
}

impl Resolved {
    /// What the metadata said.
    spec fn target(self) -> Target {
        Target {
            frames: self.frames as int,
            frame_bytes: self.frame_bytes as int,
            stream_len: self.total_ecc_len as int,
            size: self.size as int,
            filename: self.filename@,
            sha256: self.sha_expected@,
        }
    }

    /// The payload fed to the sink is what the window has left.
    spec fn wf(self) -> bool {
        &&& self.window.wf()
        &&& self.payload.wf()
        &&& self.payload.expected_size() == self.size
        &&& 1 <= self.frame_bytes
        &&& self.frames * self.frame_bytes <= usize::MAX
        &&& window::handed_on(
            self.window.reception(),
            self.total_ecc_len as int,
            self.payload.fed(),
        )
    }
}

/// Whole frames up to the last fit where all of them fit.
proof fn lemma_frame_span(idx: int, frames: int, len: int)
    requires
        0 <= idx < frames,
        0 <= len,
    ensures
        0 <= idx * len,
        idx * len + len <= frames * len,
{
    assert(0 <= idx * len && idx * len + len <= frames * len) by (nonlinear_arith)
        requires
            0 <= idx < frames,
            0 <= len,
    ;
}

/// A failure stays, whatever frame comes next.
proof fn lemma_frame_keeps_failure(
    r: Reception,
    bytes: int,
    t: Target,
    e: WindowError,
    content: (nat, Seq<u8>),
)
    requires
        0 < bytes,
        bytes % RS_BLOCK_SIZE as int == 0,
        0 <= r.start,
        r.start % RS_BLOCK_SIZE as int == 0,
        window::failed(r, bytes, t.stream_len, e.offset as int, e.error),
    ensures
        window::failed(
            after_frame(r, bytes, t, content),
            bytes,
            t.stream_len,
            e.offset as int,
            e.error,
        ),
{
    if content.0 < t.frames {
        window::lemma_failed_stays(
            r,
            bytes,
            t.stream_len,
            e.offset as int,
            e.error,
            content.0 * t.frame_bytes,
            content.1,
        );
    }
}

/// The window begins between blocks after any number of pending frames.
proof fn lemma_replayed_aligned(pending: Seq<(nat, Seq<u8>)>, n: nat, bytes: int, t: Target)
    requires
        0 < bytes,
        bytes % RS_BLOCK_SIZE as int == 0,
    ensures
        0 <= replayed(pending, n, bytes, t).start,
        replayed(pending, n, bytes, t).start % RS_BLOCK_SIZE as int == 0,
    decreases n,
{
    if n > 0 {
        lemma_replayed_aligned(pending, (n - 1) as nat, bytes, t);
        let r = replayed(pending, (n - 1) as nat, bytes, t);
        let (idx, data) = pending[n - 1];
        window::lemma_arrived_keeps(r, bytes, idx * t.frame_bytes, data);
        window::lemma_slid_aligned(r.start, bytes, idx * t.frame_bytes, data.len() as int);
    }
}

/// A failure among the first pending frames is one of all of them.
proof fn lemma_replay_keeps_failure(
    pending: Seq<(nat, Seq<u8>)>,
    m: nat,
    n: nat,
    bytes: int,
    t: Target,
    e: WindowError,
)
    requires
        m <= n,
        0 < bytes,
        bytes % RS_BLOCK_SIZE as int == 0,
        window::failed(
            replayed(pending, m, bytes, t),
            bytes,
            t.stream_len,
            e.offset as int,
            e.error,
        ),
    ensures
        window::failed(
            replayed(pending, n, bytes, t),
            bytes,
            t.stream_len,
            e.offset as int,
            e.error,
        ),
    decreases n,
{
    if m < n {
        lemma_replay_keeps_failure(pending, m, (n - 1) as nat, bytes, t, e);
        lemma_replayed_aligned(pending, (n - 1) as nat, bytes, t);
        lemma_frame_keeps_failure(
            replayed(pending, (n - 1) as nat, bytes, t),
            bytes,
            t,
            e,
            pending[n - 1],
        );
    }
}

impl Resolved {
    /// Puts the bytes of frame `idx` into the window, if there is such a frame.
    fn take_frame(&mut self, idx: u64, data: &[u8]) -> (r: Result<Vec<u8>, WindowError>)
        requires
            old(self).wf(),
            data@.len() == old(self).frame_bytes,
        ensures
            r is Ok ==> final(self).wf(),
            r is Ok ==> final(self).window.bytes() == old(self).window.bytes(),
            r is Ok ==> final(self).target() == old(self).target(),
            r is Ok ==> final(self).frame_bytes == old(self).frame_bytes,
            r is Ok ==> final(self).window.reception() == after_frame(
                old(self).window.reception(),
                old(self).window.bytes(),
                old(self).target(),
                (idx as nat, data@),
            ),
            r is Ok ==> final(self).payload.written() == old(self).payload.written() + r->Ok_0@,
            r is Err ==> window::failed(
                after_frame(
                    old(self).window.reception(),
                    old(self).window.bytes(),
                    old(self).target(),
                    (idx as nat, data@),
                ),
                old(self).window.bytes(),
                old(self).target().stream_len,
                r->Err_0.offset as int,
                r->Err_0.error,
            ),
    {
        if idx >= self.frames {
            let out: Vec<u8> = Vec::new();
            assert(self.payload.written() + out@ =~= self.payload.written());
            return Ok(out);
        }
        proof {
            lemma_frame_span(idx as int, self.frames as int, self.frame_bytes as int);
            let len = self.frame_bytes;
            assert(idx <= idx * len) by (nonlinear_arith)
                requires
                    1 <= len,
            ;
        }
        let abs_start: usize = idx as usize * self.frame_bytes;
        window::write_into_window(
            &mut self.window,
            &mut self.payload,
            self.total_ecc_len,
            abs_start,
            data,
        )
    }
}

/// The index widths in use.
pub open spec fn width_in_use(index_bits: int) -> bool {
    index_bits == DEFAULT_FRAME_INDEX_BITS || index_bits == EXTENDED_FRAME_INDEX_BITS
}

impl DecodeSession {
    /// How far decoding has come.
    pub closed spec fn course(self) -> Course {
        Course {
            index_bits: self.index_bits as int,
            qr: self.qr_meta,
            pending: frames_view(self.buffered@),
            target: match self.resolved {
                Some(r) => Some(r.target()),
                None => None,
            },
            reception: match self.resolved {
                Some(r) => r.window.reception(),
                None => Reception { received: Map::empty(), start: 0 },
            },
            total: self.total as nat,
            sync_fail: self.sync_fail as nat,
            valid: self.valid as nat,
        }
    }

    /// Length of the sliding window.
    pub closed spec fn window_bytes(self) -> int {
        self.window_bytes as int
    }

    /// The file bytes written so far.
    pub closed spec fn written(self) -> Seq<u8> {
        match self.resolved {
            Some(r) => r.payload.written(),
            None => Seq::empty(),
        }
    }

    /// How many bytes of the stream, and marks for them, are held in memory.
    pub closed spec fn held(self) -> int {
        self.buffered@.len() * frame::frame_bytes(self.index_bits as int) + match self.resolved {
            Some(r) => r.window.held(),
            None => 0,
        }
    }

    /// The parts of the session agree.
    pub closed spec fn wf(self) -> bool {
        &&& 0 < self.window_bytes
        &&& self.window_bytes % RS_BLOCK_SIZE == 0
        &&& width_in_use(self.index_bits as int)
        &&& self.sync_fail <= self.total
        &&& self.valid <= self.total
        &&& forall|i: int|
            0 <= i < self.buffered@.len() ==> (#[trigger] self.buffered@[i]).1@.len()
                == frame::frame_bytes(self.index_bits as int)
        &&& match self.resolved {
            Some(r) => r.wf() && self.buffered@.len() == 0 && r.window.bytes() == self.window_bytes
                && r.frame_bytes == frame::frame_bytes(self.index_bits as int) && self.qr_meta
                is Some,
            None => true,
        }
    }
}

impl DecodeSession {
    /// A session with a window of `window_blocks` Reed-Solomon blocks.
    pub fn new(window_blocks: usize) -> (session: DecodeSession)
        requires
            0 < window_blocks,
            window_blocks * RS_BLOCK_SIZE <= usize::MAX,
        ensures
            session.wf(),
            session.course() == course_start(),
            session.window_bytes() == window_blocks * RS_BLOCK_SIZE,
            session.written() == Seq::<u8>::empty(),
    {
        let session = DecodeSession {
            window_bytes: window_blocks * RS_BLOCK_SIZE,
            index_bits: DEFAULT_FRAME_INDEX_BITS,
            qr_meta: None,
            buffered: Vec::new(),
            resolved: None,
            total: 0,
            sync_fail: 0,
            valid: 0,
        };
        assert(frames_view(session.buffered@) =~= Seq::<(nat, Seq<u8>)>::empty());
        session
    }

    /// Whether QR metadata is to be looked for in the next frame.
    pub fn wants_qr(&self) -> (b: bool)
        ensures
            b == looks_for_qr(self.course()),
    {
        self.total < METADATA_FRAMES && self.qr_meta.is_none()
    }

    /// Whether the frames that `m` tells of can be addressed.
    pub fn can_address(&self, m: &QrMeta) -> (b: bool)
        requires
            self.wf(),
        ensures
            b == addressable(self.course(), *m),
    {
        match m.frames {
            Some(n) => {
                let bits: usize = self.width_with(m);
                let frame_bytes: usize = frame::frame_layout(bits).1 / 8;
                assert(frame_bytes == frame::frame_bytes(bits as int));
                let most: usize = usize::MAX / frame_bytes;
                proof {
                    let f = frame_bytes as int;
                    let q = most as int;
                    vstd::arithmetic::div_mod::lemma_fundamental_div_mod(usize::MAX as int, f);
                    if n <= most {
                        assert(n * f <= f * q) by (nonlinear_arith)
                            requires
                                n <= q,
                                f > 0,
                        ;
                    } else {
                        assert(n * f >= f * q + f) by (nonlinear_arith)
                            requires
                                n >= q + 1,
                                f > 0,
                        ;
                    }
                }
                n <= most as u64
            },
            None => true,
        }
    }

    /// The index width once `m` has been read.
    fn width_with(&self, m: &QrMeta) -> (bits: usize)
        requires
            width_in_use(self.index_bits as int),
        ensures
            bits == adopted(self.index_bits as int, *m),
            width_in_use(bits as int),
    {
        match m.index_bits {
            Some(ib) => if ib as usize == DEFAULT_FRAME_INDEX_BITS || ib as usize
                == EXTENDED_FRAME_INDEX_BITS {
                ib as usize
            } else {
                self.index_bits
            },
            None => self.index_bits,
        }
    }

    /// Reads the blocks of a frame.
    fn take_blocks(&mut self, frame: &[u8]) -> (r: Result<Vec<u8>, WindowError>)
        requires
            old(self).wf(),
            old(self).total < usize::MAX,
            frame::holds_samples(frame@),
        ensures
            r is Ok ==> final(self).wf(),
            r is Ok ==> final(self).course() == after_blocks(
                old(self).course(),
                old(self).window_bytes(),
                frame::sampled(frame@),
            ),
            r is Ok ==> final(self).window_bytes() == old(self).window_bytes(),
            r is Ok ==> final(self).written() == old(self).written() + r->Ok_0@,
            r is Err ==> course_failed(
                after_blocks(
                    old(self).course(),
                    old(self).window_bytes(),
                    frame::sampled(frame@),
                ),
                old(self).window_bytes(),
                r->Err_0,
            ),
    {
        let blocks: [u8; TOTAL_BLOCKS] = frame::read_blocks(frame);
        let (header_bits, _) = frame::frame_layout(self.index_bits);
        let mut bytes: Vec<u8> = Vec::new();
        assert(self.written() + bytes@ =~= self.written());
        match frame::decode_frame(&blocks, self.index_bits, header_bits) {
            Some((idx, data)) => {
                match &mut self.resolved {
                    Some(resolved) => {
                        match resolved.take_frame(idx, &data) {
                            Ok(part) => {
                                bytes = part;
                            },
                            Err(e) => {
                                return Err(e);
                            },
                        }
                        if idx < resolved.frames {
                            self.valid = self.valid + 1;
                        }
                    },
                    None => {
                        let ghost before = self.buffered@;
                        self.buffered.push((idx, data));
                        assert(frames_view(self.buffered@) =~= frames_view(before).push(
                            (idx as nat, data@),
                        ));
                    },
                }
            },
            None => {
                self.sync_fail = self.sync_fail + 1;
            },
        }
        self.total = self.total + 1;
        Ok(bytes)
    }

    /// Sees the next frame. `qr` is the metadata found in it, which counts only
    /// where it is looked for.
    pub fn on_frame(&mut self, frame: &[u8], qr: Option<QrMeta>) -> (r: Result<
        FrameStep,
        DecodeError,
    >)
        requires
            old(self).wf(),
            old(self).course().total < usize::MAX,
            frame::holds_samples(frame@),
            looks_for_qr(old(self).course()) ==> (qr matches Some(m) ==> addressable(
                old(self).course(),
                m,
            )),
        ensures
            r is Ok ==> final(self).wf(),
            r is Ok ==> final(self).course() == after(
                old(self).course(),
                old(self).window_bytes(),
                frame@,
                qr,
            ),
            r is Ok ==> final(self).window_bytes() == old(self).window_bytes(),
            r is Ok ==> metadata::text(r->Ok_0.opened) == opened_name(
                old(self).course(),
                final(self).course(),
            ),
            r is Ok ==> final(self).written() == old(self).written() + r->Ok_0.bytes@,
            r is Ok ==> written_so_far(final(self).course(), final(self).written()),
            r is Err ==> (r->Err_0 matches DecodeError::WindowFailed(e) && course_failed(
                after(old(self).course(), old(self).window_bytes(), frame@, qr),
                old(self).window_bytes(),
                e,
            )),
    {
        let ghost c0 = self.course();
        let ghost bytes = self.window_bytes as int;
        let mut step = FrameStep { opened: None, bytes: Vec::new() };
        assert(self.written() + step.bytes@ =~= self.written());
        if self.total < METADATA_FRAMES && self.qr_meta.is_none() {
            if let Some(m) = qr {
                assert(self.written() =~= Seq::<u8>::empty());
                match self.adopt(m) {
                    Ok(adopted) => {
                        step = adopted;
                    },
                    Err(e) => {
                        proof {
                            let c = after_meta(c0, bytes, m);
                            let kept = if adopted(c0.index_bits, m) == c0.index_bits {
                                c0.pending
                            } else {
                                Seq::empty()
                            };
                            lemma_replayed_aligned(kept, kept.len(), bytes, c.target->0);
                            lemma_blocks_keep_failure(c, bytes, e, frame::sampled(frame@));
                        }
                        return Err(DecodeError::WindowFailed(e));
                    },
                }
            }
        }
        let ghost sofar = step.bytes@;
        match self.take_blocks(frame) {
            Ok(part) => {
                step.bytes.extend_from_slice(&part);
                assert(step.bytes@ =~= sofar + part@);
                proof {
                    reveal(window::handed_on);
                }
                Ok(step)
            },
            Err(e) => Err(DecodeError::WindowFailed(e)),
        }
    }

    /// Considers the metadata found in a frame.
    fn adopt(&mut self, m: QrMeta) -> (r: Result<FrameStep, WindowError>)
        requires
            old(self).wf(),
            old(self).resolved is None,
            addressable(old(self).course(), m),
        ensures
            r is Ok ==> final(self).wf(),
            r is Ok ==> final(self).course() == after_meta(
                old(self).course(),
                old(self).window_bytes(),
                m,
            ),
            r is Ok ==> final(self).window_bytes() == old(self).window_bytes(),
            r is Ok ==> metadata::text(r->Ok_0.opened) == opened_name(
                old(self).course(),
                final(self).course(),
            ),
            r is Ok ==> final(self).written() == r->Ok_0.bytes@,
            r is Err ==> course_failed(
                after_meta(old(self).course(), old(self).window_bytes(), m),
                old(self).window_bytes(),
                r->Err_0,
            ),
    {
        let ghost c0 = self.course();
        let ghost bytes = self.window_bytes as int;
        let bits: usize = self.width_with(&m);
        if bits != self.index_bits {
            self.index_bits = bits;
            self.buffered = Vec::new();
            assert(frames_view(self.buffered@) =~= Seq::<(nat, Seq<u8>)>::empty());
        }
        let ghost pending = frames_view(self.buffered@);
        let frame_bytes: usize = frame::frame_layout(bits).1 / 8;
        assert(frame_bytes == frame::frame_bytes(bits as int));
        let mut step = FrameStep { opened: None, bytes: Vec::new() };
        match (m.frames, &m.filename, m.size, &m.sha256) {
            (Some(frames), Some(filename), Some(size), Some(sha256)) => {
                assert(frames <= frames * frame_bytes) by (nonlinear_arith)
                    requires
                        frame_bytes >= 1,
                ;
                let raw_total: usize = frames as usize * frame_bytes;
                let total_ecc_len: usize = match m.ecc_bytes {
                    Some(e) => if e <= raw_total as u64 {
                        e as usize
                    } else {
                        raw_total
                    },
                    None => if raw_total >= RS_BLOCK_SIZE {
                        raw_total / RS_BLOCK_SIZE * RS_BLOCK_SIZE
                    } else {
                        raw_total
                    },
                };
                let mut resolved = Resolved {
                    window: Window::new(self.window_bytes),
                    payload: PayloadSink::new(size),
                    frame_bytes,
                    frames,
                    total_ecc_len,
                    size,
                    sha_expected: sha256.clone(),
                    filename: filename.clone(),
                };
                let ghost t = resolved.target();
                proof {
                    window::lemma_handed_on_start(resolved.window.reception(), total_ecc_len as int);
                    assert(target_of(m, bits as int) == Some(t));
                    assert(resolved.payload.written() =~= step.bytes@);
                }
                let mut i: usize = 0;
                while i < self.buffered.len()
                    invariant
                        0 <= i <= self.buffered@.len(),
                        c0 == old(self).course(),
                        bytes == old(self).window_bytes(),
                        pending == frames_view(self.buffered@),
                        0 < bytes,
                        bytes % RS_BLOCK_SIZE as int == 0,
                        self.index_bits == bits,
                        frame_bytes == frame::frame_bytes(bits as int),
                        forall|j: int|
                            0 <= j < self.buffered@.len() ==> (#[trigger] self.buffered@[j]).1@.len()
                                == frame_bytes,
                        resolved.wf(),
                        resolved.window.bytes() == bytes,
                        resolved.target() == t,
                        resolved.frame_bytes == frame_bytes,
                        resolved.window.reception() == replayed(pending, i as nat, bytes, t),
                        resolved.payload.written() == step.bytes@,
                        resolves_to(c0, bytes, m, bits as int, pending, t),
                    decreases self.buffered@.len() - i,
                {
                    assert(pending[i as int] == (
                        self.buffered@[i as int].0 as nat,
                        self.buffered@[i as int].1@,
                    ));
                    let ghost sofar = step.bytes@;
                    match resolved.take_frame(self.buffered[i].0, &self.buffered[i].1) {
                        Ok(part) => {
                            step.bytes.extend_from_slice(&part);
                            assert(step.bytes@ =~= sofar + part@);
                        },
                        Err(e) => {
                            proof {
                                lemma_replay_keeps_failure(
                                    pending,
                                    (i + 1) as nat,
                                    pending.len(),
                                    bytes,
                                    t,
                                    e,
                                );
                            }
                            return Err(e);
                        },
                    }
                    i = i + 1;
                }
                step.opened = Some(filename.clone());
                self.resolved = Some(resolved);
                self.buffered = Vec::new();
                assert(frames_view(self.buffered@) =~= Seq::<(nat, Seq<u8>)>::empty());
            },
            _ => {
                assert(self.written() =~= step.bytes@);
            },
        }
        self.qr_meta = Some(m);
        Ok(step)
    }
}

/// Once metadata has been found, decoding holds one window of the stream in
/// memory, however long the stream is.
pub proof fn theorem_decoding_memory(session: DecodeSession)
    requires
        session.wf(),
        session.course().target is Some,
    ensures
        session.held() == 2 * session.window_bytes(),
{
    window::theorem_window_memory(session.resolved->0.window);
    assert(0 * frame::frame_bytes(session.index_bits as int) == 0);
}

/// The name of the file that has become known between two points.
pub open spec fn opened_name(before: Course, now: Course) -> Option<Seq<char>> {
    match (before.target, now.target) {
        (None, Some(t)) => Some(t.filename),
        _ => None,
    }
}

/// The file is opened once, by the name that the metadata gives, when it is first known
/// where the stream ends.
pub proof fn theorem_opened(before: Course, now: Course)
    ensures
        opened_name(before, now) is Some <==> before.target is None && now.target is Some,
        opened_name(before, now) is Some ==> opened_name(before, now)->0 == now.target->0.filename,
{
}

/// A failure stays, whatever the blocks of the frame.
proof fn lemma_blocks_keep_failure(c: Course, bytes: int, e: WindowError, blocks: Seq<u8>)
    requires
        0 < bytes,
        bytes % RS_BLOCK_SIZE as int == 0,
        0 <= c.reception.start,
        c.reception.start % RS_BLOCK_SIZE as int == 0,
        course_failed(c, bytes, e),
    ensures
        course_failed(after_blocks(c, bytes, blocks), bytes, e),
{
    match frame::frame_content(blocks, SYNC_BITS + c.index_bits) {
        Some(content) => {
            lemma_frame_keeps_failure(c.reception, bytes, c.target->0, e, content);
        },
        None => {},
    }
}

/// What `after_meta` comes to where the metadata sets the target `t`.
spec fn resolves_to(
    c: Course,
    bytes: int,
    m: QrMeta,
    bits: int,
    pending: Seq<(nat, Seq<u8>)>,
    t: Target,
) -> bool {
    after_meta(c, bytes, m) == (Course {
        index_bits: bits,
        qr: Some(m),
        pending: Seq::empty(),
        target: Some(t),
        reception: replayed(pending, pending.len(), bytes, t),
        ..c
    })
}

// ---------------------------------------------------------------------------
// The end of the stream
// ---------------------------------------------------------------------------

/// How many frames there were: all, those with data, those without a sync
/// pattern, and those missing from the stream.
#[derive(Debug, Clone, Copy, PartialEq, Eq)]
pub struct FrameCounts {
    pub total: usize,
    pub valid: usize,
    pub sync_fail: usize,
    pub missing: usize,
}

/// How a stream ended.
#[derive(Debug)]
pub enum Ending {
    /// The file has been written out but for its last bytes.
    Streamed { tail: Vec<u8>, report: DecodeReport, counts: FrameCounts },
    /// Without metadata that tells how long the stream is, the frames were put
    /// together: their bytes, zero where none arrived, and which have arrived.
    Collected { raw: Vec<u8>, seen: Vec<bool>, qr: Option<QrMeta>, counts: FrameCounts },
}

/// The cells of the stream from its beginning to the end of the window.
pub open spec fn covered(c: Course, bytes: int, t: Target) -> Seq<Option<u8>> {
    window::cells_of(
        c.reception.received,
        0,
        window::least(c.reception.start + bytes, t.stream_len),
    )
}

/// One more than the greatest index among the first `n` pending frames.
pub open spec fn frame_count(pending: Seq<(nat, Seq<u8>)>, n: nat) -> nat
    decreases n,
{
    if n == 0 {
        0
    } else {
        let before = frame_count(pending, (n - 1) as nat);
        if before <= pending[n - 1].0 {
            pending[n - 1].0 + 1
        } else {
            before
        }
    }
}

/// The bytes of the first `n` pending frames, by position; of two frames with
/// one index the later one counts.
pub open spec fn pasted(pending: Seq<(nat, Seq<u8>)>, n: nat, frame_bytes: int) -> Map<int, u8>
    decreases n,
{
    if n == 0 {
        Map::empty()
    } else {
        window::accepted(
            Reception { received: pasted(pending, (n - 1) as nat, frame_bytes), start: 0 },
            pending[n - 1].0 * frame_bytes,
            pending[n - 1].1,
        )
    }
}

/// The cells that the pending frames make, up to the end of the last of them.
pub open spec fn collected(c: Course) -> Seq<Option<u8>> {
    let frame_bytes = frame::frame_bytes(c.index_bits);
    window::cells_of(
        pasted(c.pending, c.pending.len(), frame_bytes),
        0,
        frame_count(c.pending, c.pending.len()) * frame_bytes,
    )
}

/// Frame `i` is among the first `n` pending ones.
pub open spec fn is_pending(pending: Seq<(nat, Seq<u8>)>, n: nat, i: nat) -> bool {
    exists|k: int| 0 <= k < n && (#[trigger] pending[k]).0 == i
}

/// How many of the frames `0 .. m` are pending.
pub open spec fn distinct_frames(pending: Seq<(nat, Seq<u8>)>, m: nat) -> nat
    decreases m,
{
    if m == 0 {
        0
    } else {
        distinct_frames(pending, (m - 1) as nat) + if is_pending(
            pending,
            pending.len(),
            (m - 1) as nat,
        ) {
            1nat
        } else {
            0nat
        }
    }
}

/// The counts at the end.
pub open spec fn counted(c: Course, counts: FrameCounts) -> bool {
    &&& counts.total == c.total
    &&& counts.sync_fail == c.sync_fail
    &&& match c.target {
        Some(t) => counts.valid == c.valid && counts.missing == (if c.valid <= t.frames {
            t.frames - c.valid
        } else {
            0
        }),
        None => {
            let n = frame_count(c.pending, c.pending.len());
            counts.valid == distinct_frames(c.pending, n) && counts.missing == n - counts.valid
        },
    }
}

/// `report` tells of `file`, which is to have the digest `sha256`.
pub open spec fn reports(
    report: DecodeReport,
    filename: Seq<char>,
    file: Seq<u8>,
    sha256: Seq<char>,
) -> bool {
    &&& report.filename@ == filename
    &&& report.size == file.len()
    &&& report.sha256@ == metadata::hex(metadata::sha256(file))
    &&& report.sha_ok <==> report.sha256@ == sha256
    &&& report.strategy == Strategy::VideoOnly
}

/// What the end of a stream tells is true of the bytes that were handed out, however
/// many they are: their digest, in hexadecimal, is the one reported, it counts as
/// right exactly where it is the one that the metadata names, and size and name are
/// those of the file. It ends so exactly where some frame had data and the stream
/// decodes.
pub proof fn theorem_end_is_true(
    c: Course,
    bytes: int,
    written: Seq<u8>,
    r: Result<Ending, DecodeError>,
)
    requires
        ended(c, bytes, written, r),
        c.target is Some,
    ensures
        ({
            let t = c.target->0;
            let cells = window::cells_of(
                c.reception.received,
                0,
                window::least(c.reception.start + bytes, t.stream_len),
            );
            &&& r is Ok <==> c.valid > 0 && cells::decoded_cells(cells) is Ok
            &&& c.valid == 0 ==> r == Err::<Ending, DecodeError>(DecodeError::NoValidFrames)
            &&& c.valid > 0 && r is Err ==> (r->Err_0 matches DecodeError::WindowFailed(e)
                && cells::decoded_cells(cells) == Err::<Seq<u8>, ReedSolomonError>(e.error))
            &&& r is Ok ==> (r matches Ok(Ending::Streamed { tail, report, counts }) && {
                let file = written + tail@;
                &&& report.sha256@ == metadata::hex(metadata::sha256(file))
                &&& report.sha_ok <==> metadata::hex(metadata::sha256(file)) == t.sha256
                &&& report.size == file.len()
                &&& report.filename@ == t.filename
                &&& report.strategy == Strategy::VideoOnly
                &&& counts.total == c.total
                &&& counts.sync_fail == c.sync_fail
                &&& counts.valid == c.valid
                &&& counts.missing == (if c.valid < t.frames {
                    t.frames - c.valid
                } else {
                    0
                })
            })
        }),
{
}

/// Without metadata the frames are handed over as they are: at each place the byte of
/// the last frame that held it and the mark that it arrived, or a zero and no mark,
/// up to the end of the frame with the greatest index.
pub proof fn theorem_collected_end(
    c: Course,
    bytes: int,
    written: Seq<u8>,
    r: Result<Ending, DecodeError>,
    p: int,
)
    requires
        ended(c, bytes, written, r),
        c.target is None,
        width_in_use(c.index_bits),
    ensures
        c.pending.len() == 0 ==> r == Err::<Ending, DecodeError>(DecodeError::NoValidFrames),
        c.pending.len() > 0 ==> (r matches Ok(Ending::Collected { raw, seen, qr, counts }) && {
            let len = (472 - c.index_bits) / 8;
            let n = frame_count(c.pending, c.pending.len());
            let received = pasted(c.pending, c.pending.len(), len);
            &&& raw@.len() == n * len
            &&& seen@.len() == n * len
            &&& 0 <= p < n * len ==> seen@[p] == received.dom().contains(p)
            &&& 0 <= p < n * len ==> raw@[p] == (if received.dom().contains(p) {
                received[p]
            } else {
                0
            })
            &&& qr == c.qr
            &&& counts.total == c.total
            &&& counts.sync_fail == c.sync_fail
            &&& counts.valid == distinct_frames(c.pending, n)
            &&& counts.valid + counts.missing == n
        }),
{
    if c.pending.len() > 0 {
        let len = (472 - c.index_bits) / 8;
        let n = frame_count(c.pending, c.pending.len());
        assert(0 <= n * len) by (nonlinear_arith)
            requires
                0 <= n,
                0 <= len,
        ;
        let (raw, seen) = (r->Ok_0->raw, r->Ok_0->seen);
        assert(cells::marked(raw@, seen@)[p] == collected(c)[p]);
    }
}

/// A recovered file whose digest is not the expected one is never passed off as the
/// file: whatever its size, the report does not say that the digest is right.
pub proof fn theorem_mismatch_is_told(
    report: DecodeReport,
    filename: Seq<char>,
    file: Seq<u8>,
    sha256: Seq<char>,
)
    requires
        reports(report, filename, file, sha256),
    ensures
        report.sha_ok <==> metadata::hex(metadata::sha256(file)) == sha256,
        report.sha256@ == metadata::hex(metadata::sha256(file)),
        report.size == file.len(),
        report.filename@ == filename,
{
}

/// The number of frames observed: one more than the greatest index.
pub proof fn theorem_frame_count(pending: Seq<(nat, Seq<u8>)>, n: nat)
    requires
        n <= pending.len(),
    ensures
        n == 0 ==> frame_count(pending, n) == 0,
        forall|k: int| 0 <= k < n ==> (#[trigger] pending[k]).0 < frame_count(pending, n),
        n > 0 ==> exists|k: int| 0 <= k < n && (#[trigger] pending[k]).0 + 1 == frame_count(pending, n),
    decreases n,
{
    if n > 0 {
        theorem_frame_count(pending, (n - 1) as nat);
        assert(pending[n - 1].0 < frame_count(pending, n));
        if n > 1 && pending[n - 1].0 < frame_count(pending, (n - 1) as nat) {
            let k = choose|k: int|
                0 <= k < n - 1 && (#[trigger] pending[k]).0 + 1 == frame_count(
                    pending,
                    (n - 1) as nat,
                );
            assert(pending[k].0 + 1 == frame_count(pending, n));
        } else {
            assert(pending[n - 1].0 + 1 == frame_count(pending, n));
        }
    }
}

/// One more frame is pasted over what was there, at the place that its index says.
pub proof fn theorem_pasted(pending: Seq<(nat, Seq<u8>)>, n: nat, len: int, p: int)
    requires
        n < pending.len(),
        0 <= len,
    ensures
        ({
            let before = pasted(pending, n, len);
            let now = pasted(pending, n + 1, len);
            let (idx, data) = pending[n as int];
            let new = idx * len <= p < idx * len + data.len();
            &&& pasted(pending, 0, len).dom() == Set::<int>::empty()
            &&& now.dom().contains(p) <==> (new || before.dom().contains(p))
            &&& new ==> now[p] == data[p - idx * len]
            &&& !new && before.dom().contains(p) ==> now[p] == before[p]
        }),
{
    let idx = pending[n as int].0;
    assert(0 <= idx * len) by (nonlinear_arith)
        requires
            0 <= idx,
            0 <= len,
    ;
}

/// The frames counted as valid without metadata are the different indices that were
/// seen, and those missing are the others up to the greatest.
pub proof fn theorem_distinct_frames(pending: Seq<(nat, Seq<u8>)>, m: nat)
    ensures
        ({
            let seen = Set::new(
                |i: int| 0 <= i < m && exists|k: int|
                    0 <= k < pending.len() && (#[trigger] pending[k]).0 == i,
            );
            seen.finite() && distinct_frames(pending, m) == seen.len()
        }),
    decreases m,
{
    let seen = Set::new(
        |i: int| 0 <= i < m && exists|k: int|
            0 <= k < pending.len() && (#[trigger] pending[k]).0 == i,
    );
    if m == 0 {
        assert(seen =~= Set::empty());
    } else {
        let before = Set::new(
            |i: int| 0 <= i < m - 1 && exists|k: int|
                0 <= k < pending.len() && (#[trigger] pending[k]).0 == i,
        );
        theorem_distinct_frames(pending, (m - 1) as nat);
        if is_pending(pending, pending.len(), (m - 1) as nat) {
            assert(seen =~= before.insert(m - 1));
        } else {
            assert(seen =~= before);
        }
    }
}

/// The end is within what lengths and digests can express: fewer file bytes
/// than SHA-256 takes, and pending frames that can be addressed.
pub open spec fn finishable(c: Course) -> bool {
    match c.target {
        Some(t) => window::least(t.size, t.stream_len) < SHA256_BYTE_LIMIT,
        None => frame_count(c.pending, c.pending.len()) * frame::frame_bytes(c.index_bits)
            <= usize::MAX,
    }
}

/// Decoding can be brought to its end whatever was seen, unless the file and its stream
/// both have more bytes than a digest can be taken of or, without metadata, the frames up
/// to the last one have more than can be addressed.
pub proof fn theorem_finishable(c: Course)
    ensures
        c.target matches Some(t) ==> (finishable(c) <==> t.size < 0x2000_0000_0000_0000
            || t.stream_len < 0x2000_0000_0000_0000),
        c.target is None ==> (finishable(c) <==> frame_count(c.pending, c.pending.len()) * ((472
            - c.index_bits) / 8) <= usize::MAX),
{
}

/// What the end of the stream comes to. `written` are the file bytes written
/// before.
pub open spec fn ended(
    c: Course,
    bytes: int,
    written: Seq<u8>,
    r: Result<Ending, DecodeError>,
) -> bool {
    match c.target {
        Some(t) => if c.valid == 0 {
            r == Err::<Ending, DecodeError>(DecodeError::NoValidFrames)
        } else {
            match cells::decoded_cells(covered(c, bytes, t)) {
                Ok(p) => r matches Ok(Ending::Streamed { tail, report, counts }) && {
                    let file = metadata::file_part(p, t.size);
                    &&& written + tail@ == file
                    &&& reports(report, t.filename, file, t.sha256)
                    &&& counted(c, counts)
                },
                Err(error) => r == Err::<Ending, DecodeError>(
                    DecodeError::WindowFailed(
                        WindowError { offset: c.reception.start as usize, error },
                    ),
                ),
            }
        },
        None => if c.pending.len() == 0 {
            r == Err::<Ending, DecodeError>(DecodeError::NoValidFrames)
        } else {
            r matches Ok(Ending::Collected { raw, seen, qr, counts }) && {
                &&& raw@ == cells::filled(collected(c))
                &&& seen@.len() == raw@.len()
                &&& cells::marked(raw@, seen@) == collected(c)
                &&& qr == c.qr
                &&& counted(c, counts)
            }
        },
    }
}

impl Resolved {
    /// Decodes what the window still holds, and the digest of the whole file.
    fn finish(self, total: usize, valid: usize, sync_fail: usize, c: Ghost<Course>) -> (r: Result<
        Ending,
        DecodeError,
    >)
        requires
            self.wf(),
            c@.target == Some(self.target()),
            c@.reception == self.window.reception(),
            c@.total == total,
            c@.valid == valid,
            c@.sync_fail == sync_fail,
            finishable(c@),
        ensures
            ended(c@, self.window.bytes(), self.payload.written(), r),
            c@.valid > 0 ==> forall|p: Seq<u8>| #[trigger]
                cells::recoverable_cells(p, covered(c@, self.window.bytes(), self.target()))
                    ==> cells::decoded_cells(covered(c@, self.window.bytes(), self.target()))
                    == Ok::<Seq<u8>, ReedSolomonError>(p),
    {
        if valid == 0 {
            return Err(DecodeError::NoValidFrames);
        }
        let ghost t = self.target();
        let ghost bytes = self.window.bytes();
        let ghost rec = self.window.reception();
        let ghost fed = self.payload.fed();
        let ghost all = covered(c@, bytes, t);
        let ghost last = window::live(rec, bytes, t.stream_len);
        proof {
            reveal(window::handed_on);
            window::lemma_window_aligned(self.window);
            if rec.start <= t.stream_len {
                window::lemma_cells_split(
                    rec.received,
                    0,
                    rec.start,
                    window::least(rec.start + bytes, t.stream_len),
                );
                cells::theorem_decoded_cells_append(window::settled(rec, t.stream_len), last);
            }
        }
        let mut payload: PayloadSink = self.payload;
        let tail: Vec<u8> = match window::flush_window(
            &self.window,
            &mut payload,
            self.total_ecc_len,
        ) {
            Ok(tail) => tail,
            Err(e) => {
                proof {
                    cells::lemma_hopeless_append(window::settled(rec, t.stream_len), last);
                    assert forall|p: Seq<u8>| #[trigger]
                        cells::recoverable_cells(p, all) implies false by {
                        cells::lemma_hopeless(p, all);
                    }
                }
                return Err(DecodeError::WindowFailed(e));
            },
        };
        proof {
            let d = choose|d: Seq<u8>| #[trigger]
                cells::decoded_cells(last) == Ok::<Seq<u8>, ReedSolomonError>(d) && payload.fed()
                    == fed + d && d.len() <= last.len();
            window::lemma_handed_on_next(rec, bytes, t.stream_len, fed, d);
            assert(all =~= window::settled(
                (Reception { received: rec.received, start: rec.start + bytes }),
                t.stream_len,
            ));
            assert(payload.written() == metadata::file_part(fed + d, t.size));
            metadata::lemma_file_part_len(fed + d, t.size);
            let (n, len) = (self.frames, self.frame_bytes);
            assert(n <= n * len) by (nonlinear_arith)
                requires
                    1 <= len,
            ;
            assert forall|p: Seq<u8>| #[trigger] cells::recoverable_cells(p, all) implies
                cells::decoded_cells(all) == Ok::<Seq<u8>, ReedSolomonError>(p) by {
                cells::lemma_recoverable_cells(p, all);
            }
        }
        let finished = payload.finish();
        let sha_ok: bool = finished.sha256 == self.sha_expected;
        let missing: usize = if self.frames <= valid as u64 {
            0
        } else {
            (self.frames - valid as u64) as usize
        };
        let report = DecodeReport {
            filename: self.filename,
            size: finished.bytes_written as usize,
            sha256: finished.sha256,
            sha_ok,
            strategy: Strategy::VideoOnly,
        };
        let counts = FrameCounts { total, valid, sync_fail, missing };
        Ok(Ending::Streamed { tail, report, counts })
    }
}

/// Every pending index is below the frame count.
proof fn lemma_frame_count(pending: Seq<(nat, Seq<u8>)>, n: nat, k: int)
    requires
        0 <= k < n <= pending.len(),
    ensures
        pending[k].0 < frame_count(pending, n),
    decreases n,
{
    if k < n - 1 {
        lemma_frame_count(pending, (n - 1) as nat, k);
    }
}

/// There are at most as many distinct frames as there are places for them.
proof fn lemma_distinct_frames(pending: Seq<(nat, Seq<u8>)>, m: nat)
    ensures
        distinct_frames(pending, m) <= m,
    decreases m,
{
    if m > 0 {
        lemma_distinct_frames(pending, (m - 1) as nat);
    }
}

/// One more than the greatest index, if that fits.
fn count_frames(buffered: &Vec<(u64, Vec<u8>)>) -> (n: Option<u64>)
    ensures
        match n {
            Some(n) => n == frame_count(frames_view(buffered@), buffered@.len()),
            None => frame_count(frames_view(buffered@), buffered@.len()) > u64::MAX,
        },
{
    let ghost pending = frames_view(buffered@);
    let mut count: u64 = 0;
    let mut i: usize = 0;
    while i < buffered.len()
        invariant
            0 <= i <= buffered@.len(),
            pending == frames_view(buffered@),
            count == frame_count(pending, i as nat),
        decreases buffered@.len() - i,
    {
        let idx: u64 = buffered[i].0;
        assert(pending[i as int].0 == idx);
        if idx == u64::MAX {
            proof {
                lemma_frame_count(pending, pending.len(), i as int);
            }
            return None;
        }
        if count <= idx {
            count = idx + 1;
        }
        i = i + 1;
    }
    Some(count)
}

/// How many different frames are pending.
fn count_distinct(buffered: &Vec<(u64, Vec<u8>)>, count: usize) -> (n: usize)
    requires
        count == frame_count(frames_view(buffered@), buffered@.len()),
    ensures
        n == distinct_frames(frames_view(buffered@), count as nat),
        n <= count,
{
    let ghost pending = frames_view(buffered@);
    let mut seen: Vec<bool> = vec![false; count];
    let mut i: usize = 0;
    while i < buffered.len()
        invariant
            0 <= i <= buffered@.len(),
            pending == frames_view(buffered@),
            count == frame_count(pending, pending.len()),
            seen@.len() == count,
            forall|j: int|
                0 <= j < count ==> #[trigger] seen@[j] == is_pending(pending, i as nat, j as nat),
        decreases buffered@.len() - i,
    {
        proof {
            lemma_frame_count(pending, pending.len(), i as int);
        }
        let ghost before = seen@;
        let idx: usize = buffered[i].0 as usize;
        seen.set(idx, true);
        i = i + 1;
        assert forall|j: int| 0 <= j < count implies #[trigger] seen@[j] == is_pending(
            pending,
            i as nat,
            j as nat,
        ) by {
            assert(before[j] == is_pending(pending, (i - 1) as nat, j as nat));
            assert(pending[i - 1].0 == idx);
            if before[j] {
                let k = choose|k: int| 0 <= k < i - 1 && (#[trigger] pending[k]).0 == j as nat;
                assert(pending[k].0 == j as nat);
            }
        }
    }
    let mut n: usize = 0;
    let mut j: usize = 0;
    while j < count
        invariant
            0 <= j <= count,
            seen@.len() == count,
            n <= j,
            n == distinct_frames(pending, j as nat),
            forall|j: int|
                0 <= j < count ==> #[trigger] seen@[j] == is_pending(
                    pending,
                    pending.len(),
                    j as nat,
                ),
        decreases count - j,
    {
        if seen[j] {
            n = n + 1;
        }
        j = j + 1;
    }
    n
}

/// Puts the pending frames together.
fn collect_frames(
    buffered: &Vec<(u64, Vec<u8>)>,
    count: usize,
    index_bits: usize,
    c: Ghost<Course>,
) -> (r: (Vec<u8>, Vec<bool>))
    requires
        width_in_use(index_bits as int),
        c@.index_bits == index_bits,
        c@.pending == frames_view(buffered@),
        count == frame_count(c@.pending, c@.pending.len()),
        count * frame::frame_bytes(index_bits as int) <= usize::MAX,
        forall|i: int|
            0 <= i < buffered@.len() ==> (#[trigger] buffered@[i]).1@.len() == frame::frame_bytes(
                index_bits as int,
            ),
    ensures
        r.0@ == cells::filled(collected(c@)),
        r.1@.len() == r.0@.len(),
        cells::marked(r.0@, r.1@) == collected(c@),
{
    let ghost pending = c@.pending;
    let frame_bytes: usize = frame::frame_layout(index_bits).1 / 8;
    assert(frame_bytes == frame::frame_bytes(index_bits as int));
    let raw: usize = count * frame_bytes;
    let mut ecc: Vec<u8> = vec![0u8; raw];
    let mut seen: Vec<bool> = vec![false; raw];
    assert(cells::marked(ecc@, seen@) =~= window::cells_of(
        pasted(pending, 0, frame_bytes as int),
        0,
        raw as int,
    ));
    let mut i: usize = 0;
    while i < buffered.len()
        invariant
            0 <= i <= buffered@.len(),
            pending == frames_view(buffered@),
            count == frame_count(pending, pending.len()),
            frame_bytes == frame::frame_bytes(index_bits as int),
            raw == count * frame_bytes,
            ecc@.len() == raw,
            seen@.len() == raw,
            forall|i: int|
                0 <= i < buffered@.len() ==> (#[trigger] buffered@[i]).1@.len() == frame_bytes,
            forall|j: int| 0 <= j < raw && !seen@[j] ==> #[trigger] ecc@[j] == 0,
            cells::marked(ecc@, seen@) == window::cells_of(
                pasted(pending, i as nat, frame_bytes as int),
                0,
                raw as int,
            ),
        decreases buffered@.len() - i,
    {
        let ghost before = cells::marked(ecc@, seen@);
        let ghost map = pasted(pending, i as nat, frame_bytes as int);
        proof {
            lemma_frame_count(pending, pending.len(), i as int);
            assert(pending[i as int] == (buffered@[i as int].0 as nat, buffered@[i as int].1@));
            lemma_frame_span(buffered@[i as int].0 as int, count as int, frame_bytes as int);
            assert(buffered@[i as int].1@.len() == frame_bytes);
        }
        let at: usize = buffered[i].0 as usize * frame_bytes;
        cells::put(&mut ecc, &mut seen, at, &buffered[i].1);
        i = i + 1;
        proof {
            let now = window::cells_of(
                pasted(pending, i as nat, frame_bytes as int),
                0,
                raw as int,
            );
            assert forall|j: int| 0 <= j < raw implies cells::marked(ecc@, seen@)[j] == now[j] by {
                assert(before[j] == window::cells_of(map, 0, raw as int)[j]);
            }
            assert(cells::marked(ecc@, seen@) =~= now);
        }
    }
    assert forall|j: int| 0 <= j < raw implies ecc@[j] == cells::filled(collected(c@))[j] by {
        assert(cells::marked(ecc@, seen@)[j] == collected(c@)[j]);
    }
    assert(ecc@ =~= cells::filled(collected(c@)));
    (ecc, seen)
}

impl DecodeSession {
    /// How many frames have been seen.
    pub fn frames_seen(&self) -> (n: usize)
        ensures
            n == self.course().total,
    {
        self.total
    }

    /// Whether [`DecodeSession::finish`] can be called.
    pub fn can_finish(&self) -> (b: bool)
        requires
            self.wf(),
        ensures
            b == finishable(self.course()),
    {
        match &self.resolved {
            Some(r) => (r.total_ecc_len as u64) < SHA256_BYTE_LIMIT || r.size < SHA256_BYTE_LIMIT,
            None => {
                let frame_bytes: usize = frame::frame_layout(self.index_bits).1 / 8;
                assert(frame_bytes == frame::frame_bytes(self.index_bits as int));
                match count_frames(&self.buffered) {
                    Some(n) => {
                        assert(n * frame_bytes <= 0xffff_ffff_ffff_ffff * 480) by (nonlinear_arith)
                            requires
                                n <= 0xffff_ffff_ffff_ffff,
                                frame_bytes <= 480,
                        ;
                        n as u128 * frame_bytes as u128 <= usize::MAX as u128
                    },
                    None => {
                        proof {
                            let k = frame_count(frames_view(self.buffered@), self.buffered@.len());
                            assert(k * frame_bytes > usize::MAX) by (nonlinear_arith)
                                requires
                                    k > usize::MAX,
                                    frame_bytes >= 1,
                            ;
                        }
                        false
                    },
                }
            },
        }
    }

    /// Ends the session: decodes what is left, and checks the file's digest.
    /// Without metadata, hands over what the frames hold.
    pub fn finish(self) -> (r: Result<Ending, DecodeError>)
        requires
            self.wf(),
            finishable(self.course()),
        ensures
            ended(self.course(), self.window_bytes(), self.written(), r),
            self.course().target matches Some(t) ==> (self.course().valid > 0 ==> (forall|
                p: Seq<u8>,
            | #[trigger]
                cells::recoverable_cells(p, covered(self.course(), self.window_bytes(), t))
                    ==> cells::decoded_cells(covered(self.course(), self.window_bytes(), t))
                    == Ok::<Seq<u8>, ReedSolomonError>(p))),
            self.course().target matches Some(t) ==> (cells::starved(
                covered(self.course(), self.window_bytes(), t),
            ) ==> r is Err),
            r matches Ok(Ending::Streamed { tail, report, counts }) ==> {
                &&& self.course().target is Some
                &&& report.sha256@ == metadata::hex(metadata::sha256(self.written() + tail@))
                &&& report.sha_ok <==> report.sha256@ == self.course().target->0.sha256
            },
    {
        let ghost c = self.course();
        proof {
            if let Some(t) = c.target {
                if cells::starved(covered(c, self.window_bytes as int, t)) {
                    cells::theorem_starved_fails(covered(c, self.window_bytes as int, t));
                }
            }
        }
        match self.resolved {
            Some(resolved) => resolved.finish(self.total, self.valid, self.sync_fail, Ghost(c)),
            None => {
                if self.buffered.is_empty() {
                    return Err(DecodeError::NoValidFrames);
                }
                let count: usize = match count_frames(&self.buffered) {
                    Some(n) => {
                        proof {
                            let len = frame::frame_bytes(self.index_bits as int);
                            assert(n <= n * len) by (nonlinear_arith)
                                requires
                                    1 <= len,
                            ;
                        }
                        n as usize
                    },
                    None => {
                        proof {
                            let len = frame::frame_bytes(self.index_bits as int);
                            let k = frame_count(c.pending, c.pending.len());
                            assert(k <= k * len) by (nonlinear_arith)
                                requires
                                    1 <= len,
                            ;
                        }
                        0
                    },
                };
                let valid: usize = count_distinct(&self.buffered, count);
                let counts = FrameCounts {
                    total: self.total,
                    valid,
                    sync_fail: self.sync_fail,
                    missing: count - valid,
                };
                let (raw, seen) = collect_frames(&self.buffered, count, self.index_bits, Ghost(c));
                Ok(Ending::Collected { raw, seen, qr: self.qr_meta, counts })
            },
        }
    }
}

/// The text of an optional string, or another one.
pub open spec fn text_or(s: Option<String>, other: Seq<char>) -> Seq<char> {
    match s {
        Some(t) => t@,
        None => other,
    }
}

/// The file's size according to optional metadata.
pub open spec fn known_size(qr: Option<QrMeta>) -> Option<u64> {
    match qr {
        Some(m) => m.size,
        None => None,
    }
}

/// The file's name according to optional metadata.
pub open spec fn known_name(qr: Option<QrMeta>) -> Option<String> {
    match qr {
        Some(m) => m.filename,
        None => None,
    }
}

/// The file's digest according to optional metadata.
pub open spec fn known_sha(qr: Option<QrMeta>) -> Option<String> {
    match qr {
        Some(m) => m.sha256,
        None => None,
    }
}

/// What is known of a file from QR metadata is what they say, and without them nothing;
/// a text that is known counts before any other.
pub proof fn theorem_known(m: QrMeta, t: String, other: Seq<char>)
    ensures
        known_size(Some(m)) == m.size,
        known_name(Some(m)) == m.filename,
        known_sha(Some(m)) == m.sha256,
        known_size(None) is None,
        known_name(None) is None,
        known_sha(None) is None,
        text_or(Some(t), other) == t@,
        text_or(None, other) == other,
{
}

/// Takes the file out of a payload that was decoded at the end. `meta` is what
/// the payload's own metadata spells, `None` where it spells none; what QR
/// metadata says counts before it.
pub fn extract_file(payload: &[u8], meta: Option<Meta>, qr: Option<QrMeta>) -> (r: Result<
    (DecodeReport, Vec<u8>),
    DecodeError,
>)
    requires
        payload@.len() < SHA256_BYTE_LIMIT,
    ensures
        match metadata::parsed(payload@, meta, known_size(qr)) {
            Ok((m, file)) => r matches Ok((report, bytes)) && bytes@ == file && reports(
                report,
                text_or(known_name(qr), m.filename@),
                file,
                text_or(known_sha(qr), m.sha256@),
            ),
            Err(e) => r == Err::<(DecodeReport, Vec<u8>), DecodeError>(DecodeError::BadPayload(e)),
        },
        r matches Ok((report, bytes)) ==> {
            &&& report.sha256@ == metadata::hex(metadata::sha256(bytes@))
            &&& report.size == bytes@.len()
            &&& meta is Some
            &&& report.sha_ok <==> report.sha256@ == (if qr is Some && qr->0.sha256 is Some {
                qr->0.sha256->0@
            } else {
                meta->0.sha256@
            })
            &&& report.filename@ == (if qr is Some && qr->0.filename is Some {
                qr->0.filename->0@
            } else {
                meta->0.filename@
            })
        },
{
    let (size, name, sha): (Option<u64>, Option<String>, Option<String>) = match qr {
        Some(m) => (m.size, m.filename, m.sha256),
        None => (None, None, None),
    };
    match metadata::parse_payload(payload, meta, size) {
        Ok((m, file)) => {
            let sha256: String = metadata::sha256_hex(&file);
            let expected: String = match sha {
                Some(s) => s,
                None => m.sha256,
            };
            let sha_ok: bool = sha256 == expected;
            let filename: String = match name {
                Some(n) => n,
                None => m.filename,
            };
            let report = DecodeReport {
                filename,
                size: file.len(),
                sha256,
                sha_ok,
                strategy: Strategy::VideoOnly,
            };
            Ok((report, file))
        },
        Err(e) => Err(DecodeError::BadPayload(e)),
    }
}

} // verus!
