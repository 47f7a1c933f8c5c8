//! A sliding window over the ECC stream.
//!
//! Pieces of the stream arrive with their position. They are collected in a
//! window of whole Reed-Solomon blocks; when a piece reaches behind the window,
//! the window is decoded, its payload handed on, and the window moves forward.
//! What arrives for a place that the window has left is dropped.

use vstd::arithmetic::div_mod;
use vstd::prelude::*;

use crate::cells;
use crate::constants::RS_BLOCK_SIZE;
use crate::metadata::PayloadSink;
use crate::rs::ReedSolomonError;

verus! {

/// The bytes of the stream that were taken up, by position, and where the
/// window begins.
pub ghost struct Reception {
    pub received: Map<int, u8>,
    pub start: int,
}

/// The cells from `lo` up to `hi`.
pub open spec fn cells_of(received: Map<int, u8>, lo: int, hi: int) -> Seq<Option<u8>> {
    Seq::new(
        if lo <= hi {
            (hi - lo) as nat
        } else {
            0
        },
        |i: int|
            if received.dom().contains(lo + i) {
                Some(received[lo + i])
            } else {
                None
            },
    )
}

/// The smaller of two positions.
pub open spec fn least(a: int, b: int) -> int {
    if a <= b {
        a
    } else {
        b
    }
}

/// `p` is the place of a byte of `data`, put down at `at`, that the window has
/// not left.
pub open spec fn taken_up(start: int, at: int, data: Seq<u8>, p: int) -> bool {
    start <= p && at <= p < at + data.len()
}

/// What has been received once `data` has arrived for position `at`.
pub open spec fn accepted(r: Reception, at: int, data: Seq<u8>) -> Map<int, u8> {
    Map::new(
        |p: int| r.received.dom().contains(p) || taken_up(r.start, at, data, p),
        |p: int|
            if taken_up(r.start, at, data, p) {
                data[p - at]
            } else {
                r.received[p]
            },
    )
}

/// Where the window begins once `data` has arrived for position `at`: it moves
/// by its own length until it covers the last byte.
pub open spec fn slid(start: int, bytes: int, at: int, len: int) -> int {
    if len == 0 || at + len <= start {
        start
    } else {
        start + (at + len - 1 - start) / bytes * bytes
    }
}

/// The reception once `data` has arrived for position `at`.
pub open spec fn arrived(r: Reception, bytes: int, at: int, data: Seq<u8>) -> Reception {
    Reception {
        received: accepted(r, at, data),
        start: slid(r.start, bytes, at, data.len() as int),
    }
}

/// The cells that the window has left, in a stream of `total` bytes.
pub open spec fn settled(r: Reception, total: int) -> Seq<Option<u8>> {
    cells_of(r.received, 0, least(r.start, total))
}

/// The cells that the window covers, in a stream of `total` bytes.
pub open spec fn live(r: Reception, bytes: int, total: int) -> Seq<Option<u8>> {
    cells_of(r.received, r.start, least(r.start + bytes, total))
}

/// The window at `offset` is the first one that does not decode, and `error` is
/// why.
pub open spec fn fails_at(
    received: Map<int, u8>,
    bytes: int,
    total: int,
    offset: int,
    error: ReedSolomonError,
) -> bool {
    &&& 0 <= offset < total
    &&& cells::decoded_cells(cells_of(received, 0, offset)) is Ok
    &&& cells::decoded_cells(cells_of(received, offset, least(offset + bytes, total))) == Err::<
        Seq<u8>,
        ReedSolomonError,
    >(error)
}

/// Decoding has failed for good at `offset`, which the window has left: nothing
/// that arrives later changes it.
pub open spec fn failed(
    r: Reception,
    bytes: int,
    total: int,
    offset: int,
    error: ReedSolomonError,
) -> bool {
    &&& fails_at(r.received, bytes, total, offset, error)
    &&& offset + bytes <= r.start
    &&& cells::decoded_cells(settled(r, total)) == Err::<Seq<u8>, ReedSolomonError>(error)
    &&& cells::hopeless(settled(r, total))
}

/// The window that begins at `offset` of the ECC stream could not be decoded.
#[derive(Debug, Clone, Copy, PartialEq, Eq)]
pub struct WindowError {
    pub offset: usize,
    pub error: ReedSolomonError,
}

/// A window of whole blocks, with what has arrived for it.
pub struct Window {
    start: usize,
    bytes: usize,
    buf: Vec<u8>,
    seen: Vec<bool>,
    received: Ghost<Map<int, u8>>,
}

impl Window {
    /// What has arrived, and where the window begins.
    pub closed spec fn reception(self) -> Reception {
        Reception { received: self.received@, start: self.start as int }
    }

    /// Length of the window.
    pub closed spec fn bytes(self) -> int {
        self.bytes as int
    }

    /// How many bytes and marks are held in memory.
    pub closed spec fn held(self) -> nat {
        self.buf@.len() + self.seen@.len()
    }

    /// The window is made of whole blocks and holds what was received for it.
    pub closed spec fn wf(self) -> bool {
        &&& 0 < self.bytes
        &&& self.bytes % RS_BLOCK_SIZE == 0
        &&& self.start % RS_BLOCK_SIZE == 0
        &&& self.buf@.len() == self.bytes
        &&& self.seen@.len() == self.bytes
        &&& forall|i: int| 0 <= i < self.bytes && !self.seen@[i] ==> #[trigger] self.buf@[i] == 0
        &&& cells::marked(self.buf@, self.seen@) == cells_of(
            self.received@,
            self.start as int,
            self.start + self.bytes,
        )
        &&& forall|p: int| #[trigger]
            self.received@.dom().contains(p) ==> 0 <= p < self.start + self.bytes
    }

    /// An empty window at the beginning of the stream.
    pub fn new(bytes: usize) -> (w: Window)
        requires
            0 < bytes,
            bytes % RS_BLOCK_SIZE == 0,
        ensures
            w.wf(),
            w.reception() == (Reception { received: Map::empty(), start: 0 }),
            w.bytes() == bytes,
    {
        let w = Window {
            start: 0,
            bytes,
            buf: vec![0u8; bytes],
            seen: vec![false; bytes],
            received: Ghost(Map::empty()),
        };
        assert(cells::marked(w.buf@, w.seen@) =~= cells_of(w.received@, 0, bytes as int));
        w
    }

    /// Puts `piece` down at `pos`, which the window covers.
    fn place(&mut self, pos: usize, piece: &[u8])
        requires
            old(self).wf(),
            old(self).start <= pos,
            pos - old(self).start + piece.len() <= old(self).bytes,
        ensures
            final(self).wf(),
            final(self).bytes == old(self).bytes,
            final(self).start == old(self).start,
            final(self).received@ == accepted(old(self).reception(), pos as int, piece@),
    {
        let ghost was = *self;
        let offset: usize = pos - self.start;
        cells::put(&mut self.buf, &mut self.seen, offset, piece);
        proof {
            let next = accepted(was.reception(), pos as int, piece@);
            self.received@ = next;
            let was_cells = cells::marked(was.buf@, was.seen@);
            let now = cells_of(next, self.start as int, self.start + self.bytes);
            assert forall|j: int| 0 <= j < self.bytes implies cells::marked(self.buf@, self.seen@)[j]
                == now[j] by {
                assert(was_cells[j] == cells_of(
                    was.received@,
                    was.start as int,
                    was.start + was.bytes,
                )[j]);
            }
            assert(cells::marked(self.buf@, self.seen@) =~= now);
        }
    }

    /// Moves forward by one window's length.
    fn advance(&mut self)
        requires
            old(self).wf(),
            old(self).start + old(self).bytes <= usize::MAX,
        ensures
            final(self).wf(),
            final(self).bytes == old(self).bytes,
            final(self).start == old(self).start + old(self).bytes,
            final(self).received == old(self).received,
    {
        self.start = self.start + self.bytes;
        self.buf = vec![0u8; self.bytes];
        self.seen = vec![false; self.bytes];
        assert(cells::marked(self.buf@, self.seen@) =~= cells_of(
            self.received@,
            self.start as int,
            self.start + self.bytes,
        ));
    }
}

/// What arrives is taken down byte by byte: each byte of the piece at its own place,
/// in place of what was there, but for places that the window has left, and nothing
/// else changes.
pub proof fn theorem_arrived(r: Reception, bytes: int, at: int, data: Seq<u8>, p: int)
    requires
        0 < bytes,
    ensures
        ({
            let now = arrived(r, bytes, at, data);
            let new = r.start <= p && at <= p < at + data.len();
            &&& now.received.dom().contains(p) <==> (new || r.received.dom().contains(p))
            &&& new ==> now.received[p] == data[p - at]
            &&& !new && r.received.dom().contains(p) ==> now.received[p] == r.received[p]
        }),
{
}

/// Where the window begins: it stays as long as nothing reaches behind it, and moves
/// by whole window lengths, no further than to the window with the last byte that
/// arrived.
pub proof fn theorem_window_moves(r: Reception, bytes: int, at: int, data: Seq<u8>)
    requires
        0 < bytes,
    ensures
        ({
            let now = arrived(r, bytes, at, data).start;
            let last = at + data.len() - 1;
            &&& data.len() == 0 || last < r.start + bytes ==> now == r.start
            &&& data.len() > 0 && last >= r.start ==> now <= last < now + bytes
            &&& (now - r.start) % bytes == 0
        }),
{
    let d = at + data.len() - 1 - r.start;
    if data.len() > 0 && at + data.len() > r.start {
        let q = d / bytes;
        div_mod::lemma_fundamental_div_mod(d, bytes);
        assert(bytes * q == q * bytes) by (nonlinear_arith);
        div_mod::lemma_mod_multiples_basic(q, bytes);
        if d < bytes {
            div_mod::lemma_basic_div(d, bytes);
            assert(q * bytes == 0) by (nonlinear_arith)
                requires
                    q == 0,
            ;
        }
    } else {
        div_mod::lemma_small_mod(0, bytes as nat);
    }
}

/// The cells of a stretch of the stream: at each place the byte that was received
/// there, or nothing.
pub proof fn theorem_cells_of(received: Map<int, u8>, lo: int, hi: int, p: int)
    requires
        lo <= p < hi,
    ensures
        cells_of(received, lo, hi).len() == hi - lo,
        cells_of(received, lo, hi)[p - lo] == (if received.dom().contains(p) {
            Some(received[p])
        } else {
            None
        }),
{
}

/// What the window has left and what it covers, place by place: all up to where it
/// begins, and from there on its own length, but nothing behind the end of the stream.
pub proof fn theorem_left_and_covered(r: Reception, bytes: int, total: int, p: int)
    requires
        0 < bytes,
        0 <= r.start,
        0 <= total,
    ensures
        settled(r, total).len() == (if r.start <= total {
            r.start
        } else {
            total
        }),
        live(r, bytes, total).len() == (if total <= r.start {
            0
        } else if total - r.start <= bytes {
            total - r.start
        } else {
            bytes
        }),
        0 <= p < r.start && p < total ==> settled(r, total)[p] == (if r.received.dom().contains(p) {
            Some(r.received[p])
        } else {
            None
        }),
        r.start <= p < r.start + bytes && p < total ==> live(r, bytes, total)[p - r.start] == (
        if r.received.dom().contains(p) {
            Some(r.received[p])
        } else {
            None
        }),
{
}

/// What has been handed on is what all the cells before the window decode to.
pub proof fn theorem_handed_on(r: Reception, total: int, fed: Seq<u8>)
    requires
        0 <= r.start,
        0 <= total,
        handed_on(r, total, fed),
    ensures
        cells::decoded_cells(
            cells_of(
                r.received,
                0,
                if r.start <= total {
                    r.start
                } else {
                    total
                },
            ),
        ) == Ok::<Seq<u8>, ReedSolomonError>(fed),
{
    reveal(handed_on);
}

/// A failure is a true one: the window that it names has been left, what comes before
/// it decodes, it does not, nor does all that has been left, and no payload is within
/// reach of that.
pub proof fn theorem_failed(
    r: Reception,
    bytes: int,
    total: int,
    offset: int,
    error: ReedSolomonError,
    payload: Seq<u8>,
)
    requires
        0 < bytes,
        0 <= r.start,
        0 <= total <= usize::MAX,
        failed(r, bytes, total, offset, error),
    ensures
        0 <= offset < total,
        offset + bytes <= r.start,
        cells::decoded_cells(cells_of(r.received, 0, offset)) is Ok,
        cells::decoded_cells(
            cells_of(
                r.received,
                offset,
                if offset + bytes <= total {
                    offset + bytes
                } else {
                    total
                },
            ),
        ) == Err::<Seq<u8>, ReedSolomonError>(error),
        cells::decoded_cells(
            cells_of(
                r.received,
                0,
                if r.start <= total {
                    r.start
                } else {
                    total
                },
            ),
        ) == Err::<Seq<u8>, ReedSolomonError>(error),
        !cells::recoverable_cells(payload, settled(r, total)),
{
    cells::lemma_hopeless(payload, settled(r, total));
}

/// However long the stream is, a window holds its own length in memory, with a
/// mark for each byte.
pub proof fn theorem_window_memory(w: Window)
    requires
        w.wf(),
    ensures
        w.held() == 2 * w.bytes(),
{
}

/// A window is made of whole blocks and begins between blocks.
pub proof fn lemma_window_aligned(w: Window)
    requires
        w.wf(),
    ensures
        0 < w.bytes(),
        w.bytes() % RS_BLOCK_SIZE as int == 0,
        0 <= w.reception().start <= usize::MAX,
        w.reception().start % RS_BLOCK_SIZE as int == 0,
{
}

/// The payload handed on is what the cells that the window has left decode to.
#[verifier::opaque]
pub open spec fn handed_on(r: Reception, total: int, fed: Seq<u8>) -> bool {
    &&& cells::decoded_cells(settled(r, total)) == Ok::<Seq<u8>, ReedSolomonError>(fed)
    &&& cells::all_reach(settled(r, total))
    &&& fed.len() <= settled(r, total).len()
    &&& !cells::starved(settled(r, total))
}

/// Cells up to `mid` and from there on are the cells.
pub proof fn lemma_cells_split(received: Map<int, u8>, lo: int, mid: int, hi: int)
    requires
        lo <= mid <= hi,
    ensures
        cells_of(received, lo, hi) == cells_of(received, lo, mid) + cells_of(received, mid, hi),
{
    assert(cells_of(received, lo, hi) =~= cells_of(received, lo, mid) + cells_of(
        received,
        mid,
        hi,
    ));
}

/// Nothing received, nothing handed on.
pub proof fn lemma_handed_on_start(r: Reception, total: int)
    requires
        r.start == 0,
        0 <= total,
    ensures
        handed_on(r, total, Seq::empty()),
{
    reveal(handed_on);
    cells::lemma_no_cells();
    assert(settled(r, total) =~= Seq::<Option<u8>>::empty());
}

/// What has left the window stays as it is.
pub proof fn lemma_arrived_keeps(r: Reception, bytes: int, at: int, data: Seq<u8>)
    requires
        0 < bytes,
    ensures
        r.start <= arrived(r, bytes, at, data).start,
        forall|lo: int, hi: int|
            hi <= r.start ==> #[trigger] cells_of(arrived(r, bytes, at, data).received, lo, hi)
                == cells_of(r.received, lo, hi),
{
    let n = arrived(r, bytes, at, data);
    if data.len() > 0 && at + data.len() > r.start {
        let q = (at + data.len() - 1 - r.start) / bytes;
        div_mod::lemma_div_pos_is_pos(at + data.len() - 1 - r.start, bytes);
        assert(q * bytes >= 0) by (nonlinear_arith)
            requires
                q >= 0,
                bytes > 0,
        ;
    }
    assert forall|lo: int, hi: int| hi <= r.start implies #[trigger] cells_of(n.received, lo, hi)
        == cells_of(r.received, lo, hi) by {
        assert(cells_of(n.received, lo, hi) =~= cells_of(r.received, lo, hi));
    }
}

/// Decoding one more window extends what has been handed on.
pub proof fn lemma_handed_on_next(r: Reception, bytes: int, total: int, fed: Seq<u8>, part: Seq<u8>)
    requires
        0 <= r.start,
        0 < bytes,
        0 <= total,
        r.start % RS_BLOCK_SIZE as int == 0,
        handed_on(r, total, fed),
        cells::decoded_cells(live(r, bytes, total)) == Ok::<Seq<u8>, ReedSolomonError>(part),
        cells::all_reach(live(r, bytes, total)),
        part.len() <= live(r, bytes, total).len(),
    ensures
        handed_on(
            (Reception { received: r.received, start: r.start + bytes }),
            total,
            fed + part,
        ),
{
    reveal(handed_on);
    let next = Reception { received: r.received, start: r.start + bytes };
    if r.start <= total {
        lemma_cells_split(r.received, 0, r.start, least(r.start + bytes, total));
        cells::theorem_decoded_cells_append(settled(r, total), live(r, bytes, total));
        cells::lemma_all_reach_append(settled(r, total), live(r, bytes, total));
    } else {
        cells::lemma_no_cells();
        assert(live(r, bytes, total) =~= Seq::<Option<u8>>::empty());
        assert(fed + part =~= fed);
    }
    if cells::starved(settled(next, total)) {
        cells::theorem_starved_fails(settled(next, total));
    }
}

/// Once a window fails, everything up to any later place fails the same way.
proof fn lemma_failure_carries(
    received: Map<int, u8>,
    bytes: int,
    total: int,
    offset: int,
    error: ReedSolomonError,
    start: int,
)
    requires
        0 < bytes,
        bytes % RS_BLOCK_SIZE as int == 0,
        offset % RS_BLOCK_SIZE as int == 0,
        fails_at(received, bytes, total, offset, error),
        cells::hopeless(cells_of(received, offset, least(offset + bytes, total))),
        offset + bytes <= start,
    ensures
        cells::decoded_cells(cells_of(received, 0, least(start, total))) == Err::<
            Seq<u8>,
            ReedSolomonError,
        >(error),
        cells::hopeless(cells_of(received, 0, least(start, total))),
{
    let mid = least(offset + bytes, total);
    let end = least(start, total);
    let a = cells_of(received, 0, offset);
    let b = cells_of(received, offset, mid);
    lemma_cells_split(received, 0, offset, mid);
    cells::theorem_decoded_cells_append(a, b);
    cells::lemma_hopeless_append(a, b);
    if mid < end {
        lemma_cells_split(received, 0, mid, end);
        cells::theorem_decoded_cells_append(a + b, cells_of(received, mid, end));
        cells::lemma_hopeless_append(a + b, cells_of(received, mid, end));
    }
}

/// The window begins between blocks, wherever it moves.
pub proof fn lemma_slid_aligned(start: int, bytes: int, at: int, len: int)
    requires
        0 < bytes,
        bytes % RS_BLOCK_SIZE as int == 0,
        start % RS_BLOCK_SIZE as int == 0,
    ensures
        slid(start, bytes, at, len) % RS_BLOCK_SIZE as int == 0,
{
    let q = (at + len - 1 - start) / bytes;
    let b = bytes / 255;
    let a = start / 255;
    assert(bytes == 255 * b && start == 255 * a);
    assert(start + q * bytes == 255 * (a + q * b)) by (nonlinear_arith)
        requires
            bytes == 255 * b,
            start == 255 * a,
    ;
}

/// A failure stays, whatever arrives later.
pub proof fn lemma_failed_stays(
    r: Reception,
    bytes: int,
    total: int,
    offset: int,
    error: ReedSolomonError,
    at: int,
    data: Seq<u8>,
)
    requires
        0 < bytes,
        0 <= r.start,
        r.start % RS_BLOCK_SIZE as int == 0,
        failed(r, bytes, total, offset, error),
    ensures
        failed(arrived(r, bytes, at, data), bytes, total, offset, error),
{
    let n = arrived(r, bytes, at, data);
    lemma_arrived_keeps(r, bytes, at, data);
    assert(cells_of(n.received, 0, offset) == cells_of(r.received, 0, offset));
    assert(cells_of(n.received, offset, least(offset + bytes, total)) == cells_of(
        r.received,
        offset,
        least(offset + bytes, total),
    ));
    let left = least(r.start, total);
    let end = least(n.start, total);
    assert(cells_of(n.received, 0, left) == settled(r, total));
    if left < end {
        lemma_cells_split(n.received, 0, left, end);
        cells::theorem_decoded_cells_append(settled(r, total), cells_of(n.received, left, end));
        cells::lemma_hopeless_append(settled(r, total), cells_of(n.received, left, end));
    }
}

/// Decodes the part of the window that lies inside a stream of `total_ecc_len`
/// bytes, what has not arrived being erased, and feeds the plaintext to
/// `payload`. Returns the file bytes in it. A window behind the end of the
/// stream yields nothing.
pub fn flush_window(window: &Window, payload: &mut PayloadSink, total_ecc_len: usize) -> (r: Result<
    Vec<u8>,
    WindowError,
>)
    requires
        window.wf(),
        old(payload).wf(),
    ensures
        final(payload).wf(),
        final(payload).expected_size() == old(payload).expected_size(),
        r is Ok ==> exists|part: Seq<u8>| #[trigger]
            cells::decoded_cells(live(window.reception(), window.bytes(), total_ecc_len as int))
                == Ok::<Seq<u8>, ReedSolomonError>(part) && final(payload).fed() == old(
                payload,
            ).fed() + part && part.len() <= live(
                window.reception(),
                window.bytes(),
                total_ecc_len as int,
            ).len(),
        r is Ok ==> cells::all_reach(
            live(window.reception(), window.bytes(), total_ecc_len as int),
        ),
        r is Ok ==> final(payload).written() == old(payload).written() + r->Ok_0@,
        r is Err ==> r->Err_0.offset == window.reception().start && window.reception().start
            < total_ecc_len,
        r is Err ==> cells::decoded_cells(
            live(window.reception(), window.bytes(), total_ecc_len as int),
        ) == Err::<Seq<u8>, ReedSolomonError>(r->Err_0.error),
        r is Err ==> cells::hopeless(
            live(window.reception(), window.bytes(), total_ecc_len as int),
        ),
        r is Err ==> *final(payload) == *old(payload),
        cells::starved(live(window.reception(), window.bytes(), total_ecc_len as int)) ==> r is Err,
{
    let ghost cells = live(window.reception(), window.bytes(), total_ecc_len as int);
    let mut out: Vec<u8> = Vec::new();
    if window.start >= total_ecc_len {
        proof {
            cells::lemma_no_cells();
        }
        assert(cells =~= Seq::<Option<u8>>::empty());
        assert(!cells::starved(cells));
        assert(cells::decoded_cells(cells) == Ok::<Seq<u8>, ReedSolomonError>(Seq::empty()));
        assert(payload.fed() + Seq::<u8>::empty() =~= payload.fed());
        assert(payload.written() + out@ =~= payload.written());
        return Ok(out);
    }
    let rest: usize = total_ecc_len - window.start;
    let len: usize = if window.bytes <= rest {
        window.bytes
    } else {
        rest
    };
    let buf: &[u8] = &window.buf[0..len];
    let seen: &[bool] = &window.seen[0..len];
    proof {
        let all = cells::marked(window.buf@, window.seen@);
        assert forall|i: int| 0 <= i < len implies cells::marked(buf@, seen@)[i] == cells[i] by {
            assert(all[i] == cells_of(
                window.received@,
                window.start as int,
                window.start + window.bytes,
            )[i]);
        }
        assert(cells::marked(buf@, seen@) =~= cells);
    }
    match cells::decode_cells(buf, seen) {
        Ok(part) => {
            out.extend_from_slice(payload.feed(&part));
            Ok(out)
        },
        Err(error) => Err(WindowError { offset: window.start, error }),
    }
}

/// Decodes the window and moves it forward.
fn roll(window: &mut Window, payload: &mut PayloadSink, total_ecc_len: usize) -> (r: Result<
    Vec<u8>,
    WindowError,
>)
    requires
        old(window).wf(),
        old(payload).wf(),
        handed_on(old(window).reception(), total_ecc_len as int, old(payload).fed()),
        old(window).start + old(window).bytes <= usize::MAX,
    ensures
        final(payload).wf(),
        final(payload).expected_size() == old(payload).expected_size(),
        r is Ok ==> final(window).wf(),
        r is Ok ==> final(window).bytes == old(window).bytes,
        r is Ok ==> final(window).start == old(window).start + old(window).bytes,
        r is Ok ==> final(window).received == old(window).received,
        r is Ok ==> handed_on(
            final(window).reception(),
            total_ecc_len as int,
            final(payload).fed(),
        ),
        r is Ok ==> final(payload).written() == old(payload).written() + r->Ok_0@,
        r is Err ==> fails_at(
            old(window).received@,
            old(window).bytes(),
            total_ecc_len as int,
            old(window).start as int,
            r->Err_0.error,
        ),
        r is Err ==> r->Err_0.offset == old(window).start,
        r is Err ==> cells::hopeless(
            live(old(window).reception(), old(window).bytes(), total_ecc_len as int),
        ),
{
    let ghost before = window.reception();
    let ghost bytes = window.bytes as int;
    let ghost total = total_ecc_len as int;
    let ghost fed = payload.fed();
    match flush_window(window, payload, total_ecc_len) {
        Ok(part) => {
            proof {
                let d = choose|d: Seq<u8>| #[trigger]
                    cells::decoded_cells(live(before, bytes, total)) == Ok::<
                        Seq<u8>,
                        ReedSolomonError,
                    >(d) && payload.fed() == fed + d && d.len() <= live(before, bytes, total).len();
                lemma_handed_on_next(before, bytes, total, fed, d);
            }
            window.advance();
            Ok(part)
        },
        Err(e) => {
            proof {
                reveal(handed_on);
            }
            Err(e)
        },
    }
}

/// Puts `data`, which belongs at position `abs_start` of the ECC stream, into the
/// window. Where it reaches behind the window, the window is decoded and moved
/// forward as often as needed. Returns the file bytes that came out.
#[verifier::spinoff_prover]
pub fn write_into_window(
    window: &mut Window,
    payload: &mut PayloadSink,
    total_ecc_len: usize,
    abs_start: usize,
    data: &[u8],
) -> (r: Result<Vec<u8>, WindowError>)
    requires
        old(window).wf(),
        old(payload).wf(),
        handed_on(old(window).reception(), total_ecc_len as int, old(payload).fed()),
        abs_start + data.len() <= usize::MAX,
    ensures
        final(payload).wf(),
        final(payload).expected_size() == old(payload).expected_size(),
        r is Ok ==> final(window).wf(),
        r is Ok ==> final(window).bytes() == old(window).bytes(),
        r is Ok ==> final(window).reception() == arrived(
            old(window).reception(),
            old(window).bytes(),
            abs_start as int,
            data@,
        ),
        r is Ok ==> handed_on(
            final(window).reception(),
            total_ecc_len as int,
            final(payload).fed(),
        ),
        r is Ok ==> final(payload).written() == old(payload).written() + r->Ok_0@,
        r is Err ==> failed(
            arrived(old(window).reception(), old(window).bytes(), abs_start as int, data@),
            old(window).bytes(),
            total_ecc_len as int,
            r->Err_0.offset as int,
            r->Err_0.error,
        ),
{
    let ghost r0 = window.reception();
    let ghost at = abs_start as int;
    let ghost bytes = window.bytes as int;
    let ghost total = total_ecc_len as int;
    let ghost written = payload.written();
    let mut out: Vec<u8> = Vec::new();
    let abs_end: usize = abs_start + data.len();
    if data.is_empty() || abs_end <= window.start {
        assert(accepted(r0, at, data@) =~= r0.received);
        assert(written + out@ =~= written);
        return Ok(out);
    }
    let mut pos: usize = if abs_start >= window.start {
        abs_start
    } else {
        window.start
    };
    let ghost mut k: int = 0;
    assert(accepted(r0, at, data@.take(pos - at)) =~= r0.received);
    assert(written + out@ =~= written);
    while pos < abs_end
        invariant
            window.wf(),
            payload.wf(),
            payload.expected_size() == old(payload).expected_size(),
            r0 == old(window).reception(),
            bytes == old(window).bytes(),
            window.bytes == bytes,
            total == total_ecc_len,
            at == abs_start,
            abs_end == abs_start + data@.len(),
            data@.len() > 0,
            abs_end > r0.start,
            0 <= r0.start,
            k >= 0,
            window.start == r0.start + k * bytes,
            abs_start <= pos <= abs_end,
            r0.start <= window.start <= pos,
            pos < abs_end || (window.start < pos && pos - window.start <= window.bytes),
            window.received@ == accepted(r0, at, data@.take(pos - at)),
            handed_on(window.reception(), total, payload.fed()),
            payload.written() == written + out@,
            written == old(payload).written(),
        decreases abs_end - pos, abs_end - window.start,
    {
        let ghost before = window.reception();
        let offset: usize = pos - window.start;
        if offset >= window.bytes {
            match roll(window, payload, total_ecc_len) {
                Ok(part) => {
                    proof {
                        assert((k + 1) * bytes == k * bytes + bytes) by (nonlinear_arith);
                        k = k + 1;
                    }
                    let ghost sofar = out@;
                    out.extend_from_slice(&part);
                    assert(written + out@ =~= (written + sofar) + part@);
                },
                Err(e) => {
                    proof {
                        lemma_write_fails(
                            r0,
                            before,
                            bytes,
                            total,
                            at,
                            data@,
                            pos as int,
                            k,
                            e.error,
                        );
                    }
                    return Err(e);
                },
            }
        } else {
            let room: usize = window.bytes - offset;
            let left: usize = abs_end - pos;
            let n: usize = if left <= room {
                left
            } else {
                room
            };
            let from: usize = pos - abs_start;
            window.place(pos, &data[from..from + n]);
            pos = pos + n;
            proof {
                lemma_write_goes_on(
                    r0,
                    before,
                    window.reception(),
                    total,
                    at,
                    data@,
                    from as int,
                    n as int,
                    payload.fed(),
                );
            }
        }
    }
    proof {
        assert(data@.take(pos - at) =~= data@);
        let last = at + data@.len() - 1 - r0.start;
        assert(last == k * bytes + (abs_end - 1 - window.start));
        div_mod::lemma_fundamental_div_mod_converse(last, bytes, k, abs_end - 1 - window.start);
    }
    Ok(out)
}

/// A window that does not decode, with more to come, fails for good.
proof fn lemma_write_fails(
    r0: Reception,
    before: Reception,
    bytes: int,
    total: int,
    at: int,
    data: Seq<u8>,
    pos: int,
    k: int,
    error: ReedSolomonError,
)
    requires
        0 < bytes,
        bytes % RS_BLOCK_SIZE as int == 0,
        0 <= before.start,
        before.start % RS_BLOCK_SIZE as int == 0,
        0 <= k,
        before.start == r0.start + k * bytes,
        at <= pos < at + data.len(),
        r0.start < at + data.len(),
        pos - before.start >= bytes,
        before.received == accepted(r0, at, data.take(pos - at)),
        fails_at(before.received, bytes, total, before.start, error),
        cells::hopeless(live(before, bytes, total)),
    ensures
        failed(arrived(r0, bytes, at, data), bytes, total, before.start, error),
{
    let fin = arrived(r0, bytes, at, data);
    lemma_slid_beyond(r0.start, bytes, at, data.len() as int, k, pos);
    assert(cells_of(fin.received, 0, before.start) =~= cells_of(
        before.received,
        0,
        before.start,
    ));
    assert(cells_of(fin.received, before.start, least(before.start + bytes, total)) =~= live(
        before,
        bytes,
        total,
    ));
    lemma_failure_carries(fin.received, bytes, total, before.start, error, fin.start);
}

/// A piece put down in the window is the next part of what arrives.
proof fn lemma_write_goes_on(
    r0: Reception,
    before: Reception,
    now: Reception,
    total: int,
    at: int,
    data: Seq<u8>,
    from: int,
    n: int,
    fed: Seq<u8>,
)
    requires
        0 <= from,
        0 <= n,
        from + n <= data.len(),
        r0.start <= before.start <= at + from,
        before.received == accepted(r0, at, data.take(from)),
        now.start == before.start,
        now.received == accepted(before, at + from, data.subrange(from, from + n)),
        handed_on(before, total, fed),
    ensures
        now.received == accepted(r0, at, data.take(from + n)),
        handed_on(now, total, fed),
{
    assert(now.received =~= accepted(r0, at, data.take(from + n)));
    assert(settled(now, total) =~= settled(before, total));
    reveal(handed_on);
}

/// Where a byte waits behind the window, the window moves on.
proof fn lemma_slid_beyond(start: int, bytes: int, at: int, len: int, k: int, pos: int)
    requires
        0 < bytes,
        0 <= k,
        len > 0,
        pos < at + len,
        pos - (start + k * bytes) >= bytes,
        start < at + len,
    ensures
        slid(start, bytes, at, len) >= start + k * bytes + bytes,
{
    let last = at + len - 1 - start;
    let q = last / bytes;
    div_mod::lemma_fundamental_div_mod(last, bytes);
    assert(q >= k + 1) by (nonlinear_arith)
        requires
            last == bytes * q + last % bytes,
            0 <= last % bytes < bytes,
            last >= k * bytes + bytes,
            0 < bytes,
    ;
    assert(q * bytes >= k * bytes + bytes) by (nonlinear_arith)
        requires
            q >= k + 1,
            0 < bytes,
    ;
}

} // verus!
