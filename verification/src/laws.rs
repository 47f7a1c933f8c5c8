//! What holds of encoding and decoding together.

use vstd::arithmetic::power2;
use vstd::prelude::*;

use crate::cells;
use crate::chunks;
use crate::constants::{MAX_FRAME_COUNT_EXTENDED, RS_ECC_SYMBOLS, SYNC_BITS};
use crate::decode;
use crate::decode::{Course, Target};
use crate::encode;
use crate::frame;
use crate::metadata;
use crate::metadata::{Meta, PayloadError, QrMeta};
use crate::qr;
use crate::reassembly;
use crate::rs;
use crate::rs::ReedSolomonError;
use crate::window;
use crate::window::Reception;

verus! {

/// The course once the first `n` of `frames` have been seen, without further
/// metadata.
pub open spec fn watched(c: Course, bytes: int, frames: Seq<Seq<u8>>, n: nat) -> Course
    decreases n,
{
    if n == 0 {
        c
    } else {
        decode::after(watched(c, bytes, frames, (n - 1) as nat), bytes, frames[n - 1], None)
    }
}

/// `frame` shows data frame `k` of the stream; what the pixels outside the
/// centres of the blocks are, and how far those inside are from black and
/// white, does not matter.
pub open spec fn shows_frame(frame: Seq<u8>, stream: Seq<u8>, index_bits: int, k: int) -> bool {
    frame::shows(
        frame,
        frame::frame_bits(
            k as nat,
            encode::frame_data(stream, frame::frame_bytes(index_bits), k),
            index_bits as nat,
        ),
    )
}

/// Metadata has set the target `t` for a stream, and no data frame has been
/// seen.
pub open spec fn set_out(c: Course, t: Target, stream: Seq<u8>) -> bool {
    &&& c.target == Some(t)
    &&& c.reception == (Reception { received: Map::empty(), start: 0 })
    &&& decode::width_in_use(c.index_bits)
    &&& t.frame_bytes == frame::frame_bytes(c.index_bits)
    &&& t.stream_len == stream.len()
    &&& t.frames == chunks::chunk_count(stream.len() as int, t.frame_bytes)
    &&& t.frames <= power2::pow2(c.index_bits as nat)
}

/// QR metadata that tells of a stream, as it is built for an encoded file.
pub open spec fn tells_of(m: QrMeta, stream: Seq<u8>) -> bool {
    &&& metadata::complete(m)
    &&& m.ecc_bytes == Some(stream.len() as u64)
    &&& m.frames == Some(encode::data_frames(stream.len() as int) as u64)
    &&& m.index_bits == Some(frame::chosen_index_bits(stream.len() as int) as u32)
}

/// A frame that follows the luma plane of an encoded file with its metadata sets
/// decoding out for the file's stream.
pub proof fn theorem_metadata_sets_out(
    c: Course,
    bytes: int,
    m: QrMeta,
    stream: Seq<u8>,
    pic: Seq<u8>,
    w: int,
    dark: Seq<bool>,
)
    requires
        decode::looks_for_qr(c),
        c.target is None,
        c.pending.len() == 0,
        decode::width_in_use(c.index_bits),
        stream.len() <= u64::MAX,
        encode::data_frames(stream.len() as int) <= MAX_FRAME_COUNT_EXTENDED,
        tells_of(m, stream),
        1 <= w,
        qr::module_px(w) >= 1,
        frame::follows(pic, qr::qr_luma(w, dark)),
    ensures
        ({
            let now = decode::after(c, bytes, pic, Some(m));
            let t = Target {
                frames: encode::data_frames(stream.len() as int),
                frame_bytes: frame::frame_bytes(frame::chosen_index_bits(stream.len() as int)),
                stream_len: stream.len() as int,
                size: m.size->0 as int,
                filename: m.filename->0@,
                sha256: m.sha256->0@,
            };
            now.index_bits == frame::chosen_index_bits(stream.len() as int) && set_out(
                now,
                t,
                stream,
            )
        }),
{
    let len = stream.len() as int;
    let bits = frame::chosen_index_bits(len);
    let fb = frame::frame_bytes(bits);
    let n = encode::data_frames(len);
    qr::theorem_qr_frame_is_no_data(pic, w, dark, SYNC_BITS + bits);
    encode::theorem_index_width_suffices(len);
    vstd::arithmetic::div_mod::lemma_fundamental_div_mod(len + fb - 1, fb);
    assert(0 <= n) by {
        vstd::arithmetic::div_mod::lemma_div_pos_is_pos(len + fb - 1, fb);
    }
    assert(n * fb >= len) by (nonlinear_arith)
        requires
            len + fb - 1 == fb * n + (len + fb - 1) % fb,
            (len + fb - 1) % fb < fb,
    ;
}

/// Another frame that follows a luma plane with metadata changes nothing.
pub proof fn theorem_further_qr_frames(
    c: Course,
    bytes: int,
    t: Target,
    stream: Seq<u8>,
    pic: Seq<u8>,
    w: int,
    dark: Seq<bool>,
    qr: Option<QrMeta>,
)
    requires
        set_out(c, t, stream),
        c.qr is Some,
        1 <= w,
        qr::module_px(w) >= 1,
        frame::follows(pic, qr::qr_luma(w, dark)),
    ensures
        set_out(decode::after(c, bytes, pic, qr), t, stream),
        decode::after(c, bytes, pic, qr).qr == c.qr,
{
    qr::theorem_qr_frame_is_no_data(pic, w, dark, SYNC_BITS + c.index_bits);
}

/// A frame that follows the luma plane drawn for data frame `k` shows that data
/// frame.
pub proof fn theorem_luma_shows_frame(pic: Seq<u8>, stream: Seq<u8>, index_bits: int, k: int)
    requires
        decode::width_in_use(index_bits),
        frame::follows(
            pic,
            encode::data_luma(stream, frame::frame_bytes(index_bits), k, index_bits),
        ),
    ensures
        shows_frame(pic, stream, index_bits, k),
{
    let data = encode::frame_data(stream, frame::frame_bytes(index_bits), k);
    frame::theorem_luma_frame_shows(pic, frame::frame_bits(k as nat, data, index_bits as nat));
}

/// A frame that shows data frame `k` is read as such.
proof fn lemma_frame_read(frame: Seq<u8>, stream: Seq<u8>, index_bits: int, k: int)
    requires
        decode::width_in_use(index_bits),
        0 <= k < power2::pow2(index_bits as nat),
        shows_frame(frame, stream, index_bits, k),
    ensures
        frame::frame_content(frame::sampled(frame), SYNC_BITS + index_bits) == Some(
            (k as nat, encode::frame_data(stream, frame::frame_bytes(index_bits), k)),
        ),
{
    let data = encode::frame_data(stream, frame::frame_bytes(index_bits), k);
    let blocks = frame::frame_bits(k as nat, data, index_bits as nat);
    frame::theorem_frame_bits_content(k as nat, data, index_bits as nat);
    frame::theorem_shown_blocks_are_read(frame, blocks);
}

/// Byte `p` of the stream is in one of the first `n` frames with the numbers
/// `ks`.
pub open spec fn in_frames(ks: Seq<int>, n: nat, len: int, p: int) -> bool {
    0 <= p && exists|j: int| 0 <= j < n && #[trigger] ks[j] == p / len
}

/// The bytes of the first `n` frames with the numbers `ks` have been received
/// and nothing else.
spec fn has_frames(
    r: Reception,
    bytes: int,
    stream: Seq<u8>,
    len: int,
    ks: Seq<int>,
    n: nat,
) -> bool {
    &&& 0 <= r.start
    &&& n == 0 ==> r.start == 0
    &&& n > 0 ==> r.start == 0 || r.start < ks[n - 1] * len + len
    &&& n > 0 ==> ks[n - 1] * len + len <= r.start + bytes
    &&& forall|p: int| #[trigger] r.received.dom().contains(p) <==> in_frames(ks, n, len, p)
    &&& forall|p: int|
        in_frames(ks, n, len, p) && p < stream.len() ==> #[trigger] r.received[p] == stream[p]
}

/// A byte is in frame `k` exactly where its position says so.
proof fn lemma_in_frame(len: int, k: int, p: int)
    requires
        0 < len,
        0 <= k,
        0 <= p,
    ensures
        p / len == k <==> k * len <= p < k * len + len,
{
    vstd::arithmetic::div_mod::lemma_fundamental_div_mod(p, len);
    let q = p / len;
    assert(len * q == q * len) by (nonlinear_arith);
    if k * len <= p < k * len + len {
        vstd::arithmetic::div_mod::lemma_fundamental_div_mod_converse(p, len, k, p - k * len);
    }
}

/// The bytes of one more frame, with a greater number, are received too.
proof fn lemma_frame_received(
    r: Reception,
    bytes: int,
    stream: Seq<u8>,
    len: int,
    ks: Seq<int>,
    m: nat,
)
    requires
        0 < bytes,
        0 < len,
        m < ks.len(),
        0 <= ks[m as int],
        m > 0 ==> 0 <= ks[m - 1] < ks[m as int],
        has_frames(r, bytes, stream, len, ks, m),
    ensures
        has_frames(
            window::arrived(
                r,
                bytes,
                ks[m as int] * len,
                encode::frame_data(stream, len, ks[m as int]),
            ),
            bytes,
            stream,
            len,
            ks,
            (m + 1) as nat,
        ),
{
    let k = ks[m as int];
    let at = k * len;
    let n = (m + 1) as nat;
    assert(0 <= at) by (nonlinear_arith)
        requires
            at == k * len,
            0 <= k,
            0 < len,
    ;
    if m > 0 {
        let j = ks[m - 1];
        assert(j * len + len <= at) by (nonlinear_arith)
            requires
                at == k * len,
                0 <= j < k,
                0 < len,
        ;
    }
    assert(r.start <= at);
    let data = encode::frame_data(stream, len, k);
    let now = window::arrived(r, bytes, at, data);
    let last = at + len - 1 - r.start;
    let q = last / bytes;
    vstd::arithmetic::div_mod::lemma_fundamental_div_mod(last, bytes);
    vstd::arithmetic::div_mod::lemma_div_pos_is_pos(last, bytes);
    assert(bytes * q == q * bytes) by (nonlinear_arith);
    assert(q * bytes >= 0) by (nonlinear_arith)
        requires
            q >= 0,
            bytes > 0,
    ;
    assert forall|p: int|
        {
            &&& #[trigger] now.received.dom().contains(p) <==> in_frames(ks, n, len, p)
            &&& in_frames(ks, n, len, p) && p < stream.len() ==> now.received[p] == stream[p]
        } by {
        assert(r.received.dom().contains(p) <==> in_frames(ks, m, len, p));
        if 0 <= p {
            lemma_in_frame(len, k, p);
            if in_frames(ks, n, len, p) {
                let j = choose|j: int| 0 <= j < n && #[trigger] ks[j] == p / len;
                assert(j == m || in_frames(ks, m, len, p));
            }
            if in_frames(ks, m, len, p) {
                let j = choose|j: int| 0 <= j < m && #[trigger] ks[j] == p / len;
                assert(ks[j] == p / len);
                assert(p < stream.len() ==> r.received[p] == stream[p]);
            }
            if at <= p < at + len {
                assert(ks[m as int] == p / len);
                assert(p < stream.len() ==> data[p - at] == stream[p]);
            }
        }
    }
    assert forall|p: int|
        in_frames(ks, n, len, p) && p < stream.len() implies #[trigger] now.received[p]
        == stream[p] by {
        assert(now.received.dom().contains(p));
    }
}

/// A data frame of the stream is put into the window and counted.
proof fn lemma_frame_seen(c: Course, bytes: int, t: Target, stream: Seq<u8>, frame: Seq<u8>, k: int)
    requires
        c.target == Some(t),
        decode::width_in_use(c.index_bits),
        t.frame_bytes == frame::frame_bytes(c.index_bits),
        0 <= k < t.frames <= power2::pow2(c.index_bits as nat),
        shows_frame(frame, stream, c.index_bits, k),
    ensures
        decode::after(c, bytes, frame, None) == (Course {
            reception: window::arrived(
                c.reception,
                bytes,
                k * t.frame_bytes,
                encode::frame_data(stream, t.frame_bytes, k),
            ),
            valid: c.valid + 1,
            total: c.total + 1,
            ..c
        }),
{
    lemma_frame_read(frame, stream, c.index_bits, k);
}

/// Frames with growing numbers `ks` are seen; others are missing.
pub open spec fn some_frames(
    frames: Seq<Seq<u8>>,
    ks: Seq<int>,
    stream: Seq<u8>,
    index_bits: int,
    t: Target,
) -> bool {
    &&& frames.len() == ks.len()
    &&& forall|j: int| 0 <= j < ks.len() ==> 0 <= #[trigger] ks[j] < t.frames
    &&& forall|i: int, j: int| 0 <= i < j < ks.len() ==> #[trigger] ks[i] < #[trigger] ks[j]
    &&& forall|j: int|
        0 <= j < ks.len() ==> shows_frame(#[trigger] frames[j], stream, index_bits, ks[j])
}

/// After the first `n` frames, their bytes have been received and nothing else.
proof fn lemma_watched(
    c: Course,
    bytes: int,
    t: Target,
    stream: Seq<u8>,
    frames: Seq<Seq<u8>>,
    ks: Seq<int>,
    n: nat,
)
    requires
        0 < bytes,
        set_out(c, t, stream),
        some_frames(frames, ks, stream, c.index_bits, t),
        n <= frames.len(),
    ensures
        ({
            let w = watched(c, bytes, frames, n);
            &&& w.target == c.target
            &&& w.index_bits == c.index_bits
            &&& w.valid == c.valid + n
            &&& has_frames(w.reception, bytes, stream, t.frame_bytes, ks, n)
        }),
    decreases n,
{
    if n > 0 {
        let m = n - 1;
        lemma_watched(c, bytes, t, stream, frames, ks, m as nat);
        let before = watched(c, bytes, frames, m as nat);
        assert(shows_frame(frames[m], stream, c.index_bits, ks[m]));
        assert(0 <= ks[m] < t.frames);
        lemma_frame_seen(before, bytes, t, stream, frames[m], ks[m]);
        if m > 0 {
            assert(ks[m - 1] < ks[m]);
        }
        lemma_frame_received(before.reception, bytes, stream, t.frame_bytes, ks, m as nat);
    }
}

/// Dropped frames: where only some of the data frames are seen, in order, the
/// bytes of those frames arrive, each right, and the others are gaps. As long as
/// no Reed-Solomon block has more than 32 of them, and the window reaches the
/// end of the stream, the payload can be recovered.
pub proof fn theorem_dropped_frames(
    c: Course,
    bytes: int,
    t: Target,
    payload: Seq<u8>,
    frames: Seq<Seq<u8>>,
    ks: Seq<int>,
)
    requires
        0 < bytes,
        rs::ecc_stream(payload).len() <= usize::MAX,
        set_out(c, t, rs::ecc_stream(payload)),
        some_frames(frames, ks, rs::ecc_stream(payload), c.index_bits, t),
    ensures
        ({
            let w = watched(c, bytes, frames, frames.len());
            let cells = decode::covered(w, bytes, t);
            &&& w.target == Some(t)
            &&& w.valid == c.valid + frames.len()
            &&& forall|p: int|
                0 <= p < cells.len() ==> #[trigger] cells[p] == (if in_frames(
                    ks,
                    ks.len(),
                    t.frame_bytes,
                    p,
                ) {
                    Some(rs::ecc_stream(payload)[p])
                } else {
                    None
                })
            &&& cells.len() == rs::ecc_stream(payload).len() && (forall|k: int|
                0 <= k < rs::ecc_blocks(cells.len() as int) ==> cells::block_gaps(
                    #[trigger] cells::cell_block(cells, k),
                ).len() <= RS_ECC_SYMBOLS) ==> cells::recoverable_cells(payload, cells)
        }),
{
    let stream = rs::ecc_stream(payload);
    lemma_watched(c, bytes, t, stream, frames, ks, frames.len());
    let w = watched(c, bytes, frames, frames.len());
    let cells = decode::covered(w, bytes, t);
    assert forall|p: int| 0 <= p < cells.len() implies #[trigger] cells[p] == (if in_frames(
        ks,
        ks.len(),
        t.frame_bytes,
        p,
    ) {
        Some(stream[p])
    } else {
        None
    }) by {
        assert(w.reception.received.dom().contains(p) <==> in_frames(
            ks,
            ks.len(),
            t.frame_bytes,
            p,
        ));
        if in_frames(ks, ks.len(), t.frame_bytes, p) {
            assert(w.reception.received[p] == stream[p]);
        }
    }
    if cells.len() == stream.len() && (forall|k: int|
        0 <= k < rs::ecc_blocks(cells.len() as int) ==> cells::block_gaps(
            #[trigger] cells::cell_block(cells, k),
        ).len() <= RS_ECC_SYMBOLS) {
        cells::theorem_losses_recoverable(payload, cells);
    }
}

/// What the library is for: where the metadata is known and every data frame of
/// a payload's ECC stream is seen, in order and with its blocks on the right
/// side of the threshold, decoding ends with that payload, whatever the length
/// of the window.
pub proof fn theorem_encoded_video_decodes(
    c: Course,
    bytes: int,
    t: Target,
    payload: Seq<u8>,
    frames: Seq<Seq<u8>>,
)
    requires
        0 < bytes,
        set_out(c, t, rs::ecc_stream(payload)),
        frames.len() == t.frames,
        forall|k: int|
            0 <= k < frames.len() ==> shows_frame(
                #[trigger] frames[k],
                rs::ecc_stream(payload),
                c.index_bits,
                k,
            ),
    ensures
        ({
            let w = watched(c, bytes, frames, frames.len());
            &&& w.target == Some(t)
            &&& w.valid == c.valid + frames.len()
            &&& decode::covered(w, bytes, t) == cells::known(rs::ecc_stream(payload))
            &&& cells::recoverable_cells(payload, decode::covered(w, bytes, t))
        }),
{
    let stream = rs::ecc_stream(payload);
    let len = t.frame_bytes;
    let n = frames.len();
    let ks = Seq::new(n, |k: int| k);
    assert forall|j: int| 0 <= j < ks.len() implies shows_frame(
        #[trigger] frames[j],
        stream,
        c.index_bits,
        ks[j],
    ) by {}
    lemma_watched(c, bytes, t, stream, frames, ks, n);
    let w = watched(c, bytes, frames, n);
    let got = decode::covered(w, bytes, t);
    assert(n * len >= stream.len()) by {
        if n > 0 {
            chunks::lemma_chunk_bounds(stream.len() as int, len, n - 1);
        } else {
            vstd::arithmetic::div_mod::lemma_fundamental_div_mod(stream.len() + len - 1, len);
        }
    }
    if n > 0 {
        assert(ks[n - 1] * len + len == n * len) by (nonlinear_arith)
            requires
                ks[n - 1] == n - 1,
        ;
    } else {
        assert(n * len == 0) by (nonlinear_arith)
            requires
                n == 0,
        ;
    }
    assert(got.len() == stream.len());
    assert forall|p: int| 0 <= p < stream.len() implies got[p] == cells::known(stream)[p] by {
        let k = p / len;
        encode::theorem_frames_cover_stream(stream, len, p);
        assert(ks[k] == p / len);
        assert(in_frames(ks, n, len, p));
        assert(w.reception.received.dom().contains(p));
        assert(w.reception.received[p] == stream[p]);
    }
    assert(got =~= cells::known(stream));
    cells::theorem_complete_stream_recoverable(payload);
}

/// The whole way: the payload of a file ends as that file, and its digest is
/// the one that was taken of the file.
pub proof fn theorem_file_comes_back(
    c: Course,
    bytes: int,
    t: Target,
    meta: Seq<u8>,
    raw: Seq<u8>,
    frames: Seq<Seq<u8>>,
    written: Seq<u8>,
    r: Result<decode::Ending, decode::DecodeError>,
)
    requires
        0 < bytes,
        meta.len() < 0x1_0000_0000,
        4 + meta.len() + raw.len() <= usize::MAX,
        set_out(c, t, rs::ecc_stream(metadata::payload_of(meta, raw))),
        t.size == raw.len(),
        t.sha256 == metadata::hex(metadata::sha256(raw)),
        frames.len() == t.frames,
        forall|k: int|
            0 <= k < frames.len() ==> shows_frame(
                #[trigger] frames[k],
                rs::ecc_stream(metadata::payload_of(meta, raw)),
                c.index_bits,
                k,
            ),
        ({
            let w = watched(c, bytes, frames, frames.len());
            &&& decode::ended(w, bytes, written, r)
            &&& forall|p: Seq<u8>| #[trigger]
                cells::recoverable_cells(p, decode::covered(w, bytes, t)) ==> cells::decoded_cells(
                    decode::covered(w, bytes, t),
                ) == Ok::<Seq<u8>, ReedSolomonError>(p)
        }),
    ensures
        r matches Ok(decode::Ending::Streamed { tail, report, counts }) && written + tail@ == raw
            && report.sha_ok && report.filename@ == t.filename && report.size == raw.len(),
{
    let payload = metadata::payload_of(meta, raw);
    theorem_encoded_video_decodes(c, bytes, t, payload, frames);
    metadata::theorem_payload_round_trip(meta, raw);
    let stream = rs::ecc_stream(payload);
    rs::lemma_ecc_stream_len(payload);
    rs::lemma_block_counts(payload.len() as int);
    assert(payload.len() >= 4);
    assert(stream.len() > 0);
    vstd::arithmetic::div_mod::lemma_div_non_zero(stream.len() + t.frame_bytes - 1, t.frame_bytes);
    let w = watched(c, bytes, frames, frames.len());
    assert(w.valid > 0);
    assert(cells::decoded_cells(decode::covered(w, bytes, t)) == Ok::<Seq<u8>, ReedSolomonError>(
        payload,
    ));
}

/// From planes to the file: frames that follow the luma planes drawn for the
/// payload of a file, after its metadata, end as that file.
pub proof fn theorem_planes_come_back(
    c: Course,
    bytes: int,
    t: Target,
    meta: Seq<u8>,
    raw: Seq<u8>,
    frames: Seq<Seq<u8>>,
    written: Seq<u8>,
    r: Result<decode::Ending, decode::DecodeError>,
)
    requires
        0 < bytes,
        meta.len() < 0x1_0000_0000,
        4 + meta.len() + raw.len() <= usize::MAX,
        set_out(c, t, rs::ecc_stream(metadata::payload_of(meta, raw))),
        t.size == raw.len(),
        t.sha256 == metadata::hex(metadata::sha256(raw)),
        frames.len() == t.frames,
        forall|k: int|
            0 <= k < frames.len() ==> frame::follows(
                #[trigger] frames[k],
                encode::data_luma(
                    rs::ecc_stream(metadata::payload_of(meta, raw)),
                    t.frame_bytes,
                    k,
                    c.index_bits,
                ),
            ),
        ({
            let w = watched(c, bytes, frames, frames.len());
            &&& decode::ended(w, bytes, written, r)
            &&& forall|p: Seq<u8>| #[trigger]
                cells::recoverable_cells(p, decode::covered(w, bytes, t)) ==> cells::decoded_cells(
                    decode::covered(w, bytes, t),
                ) == Ok::<Seq<u8>, ReedSolomonError>(p)
        }),
    ensures
        r matches Ok(decode::Ending::Streamed { tail, report, counts }) && written + tail@ == raw
            && report.sha_ok && report.filename@ == t.filename && report.size == raw.len(),
{
    let stream = rs::ecc_stream(metadata::payload_of(meta, raw));
    assert forall|k: int| 0 <= k < frames.len() implies shows_frame(
        #[trigger] frames[k],
        stream,
        c.index_bits,
        k,
    ) by {
        theorem_luma_shows_frame(frames[k], stream, c.index_bits, k);
    }
    theorem_file_comes_back(c, bytes, t, meta, raw, frames, written, r);
}

// ---------------------------------------------------------------------------
// Without metadata
// ---------------------------------------------------------------------------

/// Frames with the numbers `ks`, in any order, each showing that frame of the
/// stream.
pub open spec fn any_frames(
    frames: Seq<Seq<u8>>,
    ks: Seq<int>,
    stream: Seq<u8>,
    index_bits: int,
) -> bool {
    &&& frames.len() == ks.len()
    &&& forall|j: int| 0 <= j < ks.len() ==> 0 <= #[trigger] ks[j] < power2::pow2(index_bits as nat)
    &&& forall|j: int|
        0 <= j < ks.len() ==> shows_frame(#[trigger] frames[j], stream, index_bits, ks[j])
}

/// No metadata has been found and no frame is pending.
pub open spec fn unset(c: Course) -> bool {
    c.target is None && c.pending.len() == 0 && decode::width_in_use(c.index_bits)
}

/// The bytes of the first `n` frames have been pasted and nothing else.
spec fn pasted_frames(
    received: Map<int, u8>,
    stream: Seq<u8>,
    len: int,
    ks: Seq<int>,
    n: nat,
) -> bool {
    &&& forall|p: int| #[trigger] received.dom().contains(p) <==> in_frames(ks, n, len, p)
    &&& forall|p: int|
        in_frames(ks, n, len, p) ==> #[trigger] received[p] == reassembly::padded(stream, p)
}

/// One more frame is pasted.
proof fn lemma_frame_pasted(
    received: Map<int, u8>,
    stream: Seq<u8>,
    len: int,
    ks: Seq<int>,
    m: nat,
)
    requires
        0 < len,
        m < ks.len(),
        0 <= ks[m as int],
        pasted_frames(received, stream, len, ks, m),
    ensures
        pasted_frames(
            window::accepted(
                Reception { received, start: 0 },
                ks[m as int] * len,
                encode::frame_data(stream, len, ks[m as int]),
            ),
            stream,
            len,
            ks,
            (m + 1) as nat,
        ),
{
    let k = ks[m as int];
    let at = k * len;
    let n = (m + 1) as nat;
    let data = encode::frame_data(stream, len, k);
    let now = window::accepted(Reception { received, start: 0 }, at, data);
    assert(0 <= at) by (nonlinear_arith)
        requires
            at == k * len,
            0 <= k,
            0 < len,
    ;
    assert forall|p: int|
        {
            &&& #[trigger] now.dom().contains(p) <==> in_frames(ks, n, len, p)
            &&& in_frames(ks, n, len, p) ==> now[p] == reassembly::padded(stream, p)
        } by {
        assert(received.dom().contains(p) <==> in_frames(ks, m, len, p));
        if 0 <= p {
            lemma_in_frame(len, k, p);
            if in_frames(ks, n, len, p) {
                let j = choose|j: int| 0 <= j < n && #[trigger] ks[j] == p / len;
                assert(j == m || in_frames(ks, m, len, p));
            }
            if in_frames(ks, m, len, p) {
                let j = choose|j: int| 0 <= j < m && #[trigger] ks[j] == p / len;
                assert(ks[j] == p / len);
                assert(received[p] == reassembly::padded(stream, p));
            }
            if at <= p < at + len {
                assert(ks[m as int] == p / len);
                assert(data[p - at] == reassembly::padded(stream, p));
            }
        }
    }
    assert forall|p: int|
        in_frames(ks, n, len, p) implies #[trigger] now[p] == reassembly::padded(stream, p) by {
        assert(now.dom().contains(p));
    }
}

/// After the first `n` frames they are all pending.
proof fn lemma_pending(
    c: Course,
    bytes: int,
    stream: Seq<u8>,
    frames: Seq<Seq<u8>>,
    ks: Seq<int>,
    n: nat,
)
    requires
        unset(c),
        any_frames(frames, ks, stream, c.index_bits),
        n <= frames.len(),
    ensures
        ({
            let w = watched(c, bytes, frames, n);
            let len = frame::frame_bytes(c.index_bits);
            &&& w.target is None
            &&& w.index_bits == c.index_bits
            &&& w.qr == c.qr
            &&& w.pending.len() == n
            &&& forall|j: int|
                0 <= j < n ==> #[trigger] w.pending[j] == (
                    ks[j] as nat,
                    encode::frame_data(stream, len, ks[j]),
                )
        }),
    decreases n,
{
    if n > 0 {
        let m = n - 1;
        lemma_pending(c, bytes, stream, frames, ks, m as nat);
        assert(shows_frame(frames[m], stream, c.index_bits, ks[m]));
        assert(0 <= ks[m]);
        lemma_frame_read(frames[m], stream, c.index_bits, ks[m]);
    }
}

/// The pending frames paste to the bytes of those frames.
proof fn lemma_pasted(
    pending: Seq<(nat, Seq<u8>)>,
    stream: Seq<u8>,
    len: int,
    ks: Seq<int>,
    n: nat,
)
    requires
        0 < len,
        n <= ks.len(),
        ks.len() == pending.len(),
        forall|j: int| 0 <= j < ks.len() ==> 0 <= #[trigger] ks[j],
        forall|j: int|
            0 <= j < ks.len() ==> #[trigger] pending[j] == (
                ks[j] as nat,
                encode::frame_data(stream, len, ks[j]),
            ),
    ensures
        pasted_frames(decode::pasted(pending, n, len), stream, len, ks, n),
        forall|j: int| 0 <= j < n ==> #[trigger] ks[j] < decode::frame_count(pending, n),
    decreases n,
{
    if n > 0 {
        let m = n - 1;
        lemma_pasted(pending, stream, len, ks, m as nat);
        assert(pending[m] == (ks[m] as nat, encode::frame_data(stream, len, ks[m])));
        assert(0 <= ks[m]);
        lemma_frame_pasted(decode::pasted(pending, m as nat, len), stream, len, ks, m as nat);
    }
}

/// Without metadata: whatever data frames are seen, in whatever order, what they
/// hold is collected byte for byte, with zeros behind the end of the stream, and
/// the rest are gaps. Where the last frame
/// of a payload's ECC stream is among them and no block lacks more than 32 bytes,
/// the payload can be recovered.
pub proof fn theorem_frames_without_metadata(
    c: Course,
    bytes: int,
    payload: Seq<u8>,
    frames: Seq<Seq<u8>>,
    ks: Seq<int>,
)
    requires
        rs::ecc_stream(payload).len() <= usize::MAX,
        unset(c),
        any_frames(frames, ks, rs::ecc_stream(payload), c.index_bits),
    ensures
        ({
            let w = watched(c, bytes, frames, frames.len());
            let cells = decode::collected(w);
            let stream = rs::ecc_stream(payload);
            let len = frame::frame_bytes(c.index_bits);
            &&& w.target is None
            &&& w.qr == c.qr
            &&& w.pending.len() == frames.len()
            &&& forall|p: int|
                0 <= p < cells.len() ==> #[trigger] cells[p] == (if in_frames(
                    ks,
                    ks.len(),
                    len,
                    p,
                ) {
                    Some(reassembly::padded(stream, p))
                } else {
                    None
                })
            &&& forall|p: int| in_frames(ks, ks.len(), len, p) ==> p < cells.len()
            &&& cells.len() >= stream.len() && !cells::starved(cells.take(stream.len() as int))
                ==> cells::recoverable_cells(payload, cells.take(stream.len() as int))
        }),
{
    let stream = rs::ecc_stream(payload);
    let len = frame::frame_bytes(c.index_bits);
    let n = frames.len();
    let w = watched(c, bytes, frames, n);
    let cells = decode::collected(w);
    lemma_pending(c, bytes, stream, frames, ks, n);
    lemma_pasted(w.pending, stream, len, ks, n);
    let count = decode::frame_count(w.pending, n) as int;
    let received = decode::pasted(w.pending, n, len);
    assert(0 <= count * len) by (nonlinear_arith)
        requires
            0 <= count,
            0 < len,
    ;
    assert forall|p: int|
        0 <= p < cells.len() implies #[trigger] cells[p] == (if in_frames(ks, ks.len(), len, p) {
        Some(reassembly::padded(stream, p))
    } else {
        None
    }) by {
        assert(received.dom().contains(p) <==> in_frames(ks, n, len, p));
        if in_frames(ks, n, len, p) {
            assert(received[p] == reassembly::padded(stream, p));
        }
    }
    assert forall|p: int| in_frames(ks, ks.len(), len, p) implies p < cells.len() by {
        let j = choose|j: int| 0 <= j < n && #[trigger] ks[j] == p / len;
        let k = ks[j];
        lemma_in_frame(len, k, p);
        assert(k * len + len <= count * len) by (nonlinear_arith)
            requires
                0 <= k < count,
                0 < len,
        ;
    }
    let part = cells.take(stream.len() as int);
    if cells.len() >= stream.len() && !cells::starved(part) {
        assert forall|p: int| 0 <= p < part.len() && part[p] is Some implies #[trigger] part[p]
            == Some(stream[p]) by {
            assert(part[p] == cells[p]);
        }
        cells::theorem_losses_recoverable(payload, part);
    }
}

/// Where every byte of a stream is in some frame, and no frame lies behind it, what
/// is collected has no gaps.
proof fn lemma_no_frame_missing(
    pending: Seq<(nat, Seq<u8>)>,
    stream: Seq<u8>,
    len: int,
    ks: Seq<int>,
    n: nat,
)
    requires
        0 < len,
        n <= ks.len(),
        ks.len() == pending.len(),
        forall|j: int|
            0 <= j < ks.len() ==> 0 <= #[trigger] ks[j] < chunks::chunk_count(
                stream.len() as int,
                len,
            ),
        forall|j: int| 0 <= j < ks.len() ==> (#[trigger] pending[j]).0 == ks[j],
    ensures
        decode::frame_count(pending, n) <= chunks::chunk_count(stream.len() as int, len) || n == 0,
    decreases n,
{
    if n > 0 {
        lemma_no_frame_missing(pending, stream, len, ks, (n - 1) as nat);
        assert(pending[n - 1].0 == ks[n - 1]);
    }
}

/// All bytes of a frame are seen where one of them is.
proof fn lemma_frame_whole(ks: Seq<int>, stream: Seq<u8>, len: int, p: int)
    requires
        0 < len,
        0 <= p < chunks::chunk_count(stream.len() as int, len) * len,
        forall|q: int| 0 <= q < stream.len() ==> #[trigger] in_frames(ks, ks.len(), len, q),
    ensures
        in_frames(ks, ks.len(), len, p),
{
    let k = p / len;
    let count = chunks::chunk_count(stream.len() as int, len);
    vstd::arithmetic::div_mod::lemma_fundamental_div_mod(p, len);
    vstd::arithmetic::div_mod::lemma_div_pos_is_pos(p, len);
    assert(k < count) by (nonlinear_arith)
        requires
            p == len * k + p % len,
            0 <= p % len,
            p < count * len,
            0 < len,
    ;
    chunks::lemma_chunk_bounds(stream.len() as int, len, k);
    let q = k * len;
    assert(0 <= q) by (nonlinear_arith)
        requires
            q == k * len,
            0 <= k,
            0 < len,
    ;
    lemma_in_frame(len, k, q);
    assert(in_frames(ks, ks.len(), len, q));
}

/// The blocks with the header are among those of the stream.
proof fn lemma_header_in_stream(payload: Seq<u8>, len: int)
    requires
        metadata::meta_part(payload) is Ok,
        len >= rs::ecc_stream(payload).len(),
    ensures
        reassembly::header_blocks(payload) <= rs::ecc_blocks(len),
{
    let end = metadata::file_start(payload);
    rs::lemma_ecc_stream_len(payload);
    rs::lemma_block_counts(payload.len() as int);
    assert((end + 222) / 223 <= (payload.len() as int + 222) / 223);
    assert((rs::ecc_stream(payload).len() as int + 254) / 255 <= (len + 254) / 255);
}

/// Recovery without metadata: where every data frame of a file's payload is seen,
/// in whatever order, the collected bytes show the payload's metadata in clear,
/// the ECC stream of the payload is complete in them, and with the size that the
/// metadata tells the file comes back. Without frames from behind the stream, the
/// metadata is what repairing it gives, too.
pub proof fn theorem_file_comes_back_without_metadata(
    c: Course,
    bytes: int,
    meta: Seq<u8>,
    m: Meta,
    raw: Seq<u8>,
    frames: Seq<Seq<u8>>,
    ks: Seq<int>,
)
    requires
        meta.len() < 0x1_0000_0000,
        rs::ecc_stream(metadata::payload_of(meta, raw)).len() <= usize::MAX,
        m.size == raw.len(),
        unset(c),
        any_frames(frames, ks, rs::ecc_stream(metadata::payload_of(meta, raw)), c.index_bits),
        forall|p: int|
            0 <= p < rs::ecc_stream(metadata::payload_of(meta, raw)).len() ==> #[trigger] in_frames(
                ks,
                ks.len(),
                frame::frame_bytes(c.index_bits),
                p,
            ),
    ensures
        ({
            let w = watched(c, bytes, frames, frames.len());
            let cells = decode::collected(w);
            let payload = metadata::payload_of(meta, raw);
            let len = reassembly::payload_len(meta.len() as int, m.size as int);
            &&& w.target is None
            &&& w.pending.len() > 0
            &&& metadata::meta_part(reassembly::clear_text(cells::filled(cells))) == Ok::<
                Seq<u8>,
                PayloadError,
            >(meta)
            &&& len == payload.len()
            &&& rs::ecc_len(len) <= cells.len()
            &&& cells.take(rs::ecc_len(len)) == cells::known(rs::ecc_stream(payload))
            &&& cells::recoverable_cells(payload, cells.take(rs::ecc_len(len)))
            &&& metadata::parsed(payload, Some(m), None) == Ok::<(Meta, Seq<u8>), PayloadError>(
                (m, raw),
            )
            &&& (forall|j: int|
                0 <= j < ks.len() ==> #[trigger] ks[j] < chunks::chunk_count(
                    rs::ecc_stream(payload).len() as int,
                    frame::frame_bytes(c.index_bits),
                )) ==> reassembly::repairable(payload, cells)
        }),
{
    let payload = metadata::payload_of(meta, raw);
    let stream = rs::ecc_stream(payload);
    let w = watched(c, bytes, frames, frames.len());
    let cells = decode::collected(w);
    rs::lemma_ecc_stream_len(payload);
    rs::lemma_block_counts(payload.len() as int);
    theorem_frames_without_metadata(c, bytes, payload, frames, ks);
    metadata::theorem_payload_round_trip(meta, raw);
    assert(stream.len() > 0);
    let last = stream.len() - 1;
    assert(in_frames(ks, ks.len(), frame::frame_bytes(c.index_bits), last));
    assert(cells.len() >= stream.len());
    let part = cells.take(stream.len() as int);
    assert forall|p: int| 0 <= p < stream.len() implies part[p] == cells::known(stream)[p] by {
        assert(in_frames(ks, ks.len(), frame::frame_bytes(c.index_bits), p));
        assert(cells[p] == Some(stream[p]));
    }
    assert(part =~= cells::known(stream));
    cells::theorem_complete_stream_recoverable(payload);
    let bytes_shown = cells::filled(cells);
    assert(bytes_shown.take(stream.len() as int) =~= stream) by {
        assert forall|p: int| 0 <= p < stream.len() implies bytes_shown[p] == stream[p] by {
            assert(part[p] == cells[p]);
        }
    }
    reassembly::theorem_payload_in_clear(payload, bytes_shown);
    let text = reassembly::clear_text(bytes_shown);
    assert(payload.take(payload.len() as int) =~= payload);
    metadata::lemma_same_metadata(text, payload, payload.len() as int);
    let len = frame::frame_bytes(c.index_bits);
    let count = chunks::chunk_count(stream.len() as int, len);
    if forall|j: int| 0 <= j < ks.len() ==> #[trigger] ks[j] < count {
        lemma_pending(c, bytes, stream, frames, ks, frames.len());
        lemma_no_frame_missing(w.pending, stream, len, ks, frames.len());
        let seen = decode::frame_count(w.pending, w.pending.len()) as int;
        assert(seen * len <= count * len) by (nonlinear_arith)
            requires
                seen <= count,
                0 < len,
        ;
        assert forall|p: int| 0 <= p < cells.len() implies #[trigger] cells[p] == Some(
            reassembly::padded(stream, p),
        ) by {
            lemma_frame_whole(ks, stream, len, p);
        }
        assert forall|k: int| 0 <= k < reassembly::header_blocks(payload) implies cells::block_gaps(
            #[trigger] cells::cell_block(cells, k),
        ).len() <= RS_ECC_SYMBOLS by {
            let block = cells::cell_block(cells, k);
            if k < rs::ecc_blocks(cells.len() as int) {
                chunks::lemma_chunk_bounds(cells.len() as int, 255, k);
                assert forall|i: int| 0 <= i < block.len() implies (#[trigger] block[i]) is Some by {
                    assert(cells[k * 255 + i] == block[i]);
                }
                cells::lemma_no_block_gaps(block, block.len());
            } else {
                lemma_header_in_stream(payload, cells.len() as int);
            }
        }
        reassembly::theorem_header_losses_repairable(payload, cells);
    }
}

// ---------------------------------------------------------------------------
// Pieces of a stream
// ---------------------------------------------------------------------------

/// The first `n` pieces, one after the other.
pub open spec fn joined(pieces: Seq<Seq<u8>>, n: nat) -> Seq<u8>
    decreases n,
{
    if n == 0 {
        Seq::empty()
    } else {
        joined(pieces, (n - 1) as nat) + pieces[n - 1]
    }
}

/// The reception once the first `n` pieces have been put down, one behind the
/// other.
pub open spec fn put_down(bytes: int, pieces: Seq<Seq<u8>>, n: nat) -> Reception
    decreases n,
{
    if n == 0 {
        Reception { received: Map::empty(), start: 0 }
    } else {
        window::arrived(
            put_down(bytes, pieces, (n - 1) as nat),
            bytes,
            joined(pieces, (n - 1) as nat).len() as int,
            pieces[n - 1],
        )
    }
}

/// A stream has been received up to its end and the window covers it.
spec fn has_stream(r: Reception, bytes: int, stream: Seq<u8>) -> bool {
    &&& 0 <= r.start
    &&& r.start == 0 || r.start < stream.len()
    &&& stream.len() <= r.start + bytes
    &&& forall|p: int| #[trigger] r.received.dom().contains(p) <==> 0 <= p < stream.len()
    &&& forall|p: int| 0 <= p < stream.len() ==> #[trigger] r.received[p] == stream[p]
}

/// One more piece makes the stream longer.
proof fn lemma_stream_grows(r: Reception, bytes: int, stream: Seq<u8>, piece: Seq<u8>)
    requires
        0 < bytes,
        has_stream(r, bytes, stream),
    ensures
        has_stream(
            window::arrived(r, bytes, stream.len() as int, piece),
            bytes,
            stream + piece,
        ),
{
    let at = stream.len() as int;
    let longer = stream + piece;
    let now = window::arrived(r, bytes, at, piece);
    let last = at + piece.len() - 1 - r.start;
    if piece.len() > 0 {
        let q = last / bytes;
        vstd::arithmetic::div_mod::lemma_fundamental_div_mod(last, bytes);
        vstd::arithmetic::div_mod::lemma_div_pos_is_pos(last, bytes);
        assert(bytes * q == q * bytes) by (nonlinear_arith);
        assert(q * bytes >= 0) by (nonlinear_arith)
            requires
                q >= 0,
                bytes > 0,
        ;
    }
    assert forall|p: int| #[trigger] now.received.dom().contains(p) <==> 0 <= p
        < longer.len() by {
        assert(r.received.dom().contains(p) <==> 0 <= p < at);
    }
    assert forall|p: int| 0 <= p < longer.len() implies #[trigger] now.received[p]
        == longer[p] by {
        assert(now.received.dom().contains(p));
        if p < at {
            assert(r.received[p] == stream[p]);
        }
    }
}

/// Pieces put down in order leave the stream that they make up.
proof fn lemma_put_down(bytes: int, pieces: Seq<Seq<u8>>, n: nat)
    requires
        0 < bytes,
    ensures
        has_stream(put_down(bytes, pieces, n), bytes, joined(pieces, n)),
    decreases n,
{
    if n > 0 {
        lemma_put_down(bytes, pieces, (n - 1) as nat);
        lemma_stream_grows(
            put_down(bytes, pieces, (n - 1) as nat),
            bytes,
            joined(pieces, (n - 1) as nat),
            pieces[n - 1],
        );
    }
}

/// Windowed decoding is one-shot decoding: however a payload's ECC stream is cut
/// into pieces, and whatever the length of the window, the cells that the window
/// has left and those that it still covers are the whole stream, and the payload
/// can be recovered from them.
pub proof fn theorem_windowed_is_one_shot(bytes: int, pieces: Seq<Seq<u8>>, payload: Seq<u8>)
    requires
        0 < bytes,
        joined(pieces, pieces.len()) == rs::ecc_stream(payload),
    ensures
        ({
            let r = put_down(bytes, pieces, pieces.len());
            let total = rs::ecc_stream(payload).len() as int;
            let cells = window::settled(r, total) + window::live(r, bytes, total);
            &&& cells == cells::known(rs::ecc_stream(payload))
            &&& cells::recoverable_cells(payload, cells)
        }),
{
    let stream = rs::ecc_stream(payload);
    let total = stream.len() as int;
    lemma_put_down(bytes, pieces, pieces.len());
    let r = put_down(bytes, pieces, pieces.len());
    let cells = window::settled(r, total) + window::live(r, bytes, total);
    assert forall|p: int| 0 <= p < total implies cells[p] == cells::known(stream)[p] by {
        assert(r.received.dom().contains(p));
        assert(r.received[p] == stream[p]);
    }
    assert(cells =~= cells::known(stream));
    cells::theorem_complete_stream_recoverable(payload);
}

} // verus!
