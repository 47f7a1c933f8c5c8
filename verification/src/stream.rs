//! Reed-Solomon coding of a payload that comes in pieces.
//!
//! Payload bytes are collected into batches of whole 223-byte blocks, and each
//! full batch is coded; only the last batch may be short. The coded bytes are
//! therefore those of [`crate::rs::ecc_encode`] over the whole payload, however
//! the payload is cut into pieces and whatever the size of a batch.

use vstd::arithmetic::div_mod;
use vstd::prelude::*;

use crate::constants::RS_DATA_BYTES;
use crate::rs;

verus! {

/// Of `len` payload bytes, those that have been coded: whole batches until the
/// payload has ended, and then all.
pub open spec fn coded_len(len: int, batch: int, ended: bool) -> int {
    if ended {
        len
    } else {
        len / batch * batch
    }
}

/// Turns a payload into its ECC stream, batch by batch.
pub struct StreamingEcc {
    batch: usize,
    in_buf: Vec<u8>,
    ecc: Vec<u8>,
    pos: usize,
    eof: bool,
    coded: Ghost<Seq<u8>>,
    emitted: Ghost<Seq<u8>>,
}

impl StreamingEcc {
    /// The payload bytes supplied so far.
    pub closed spec fn supplied(self) -> Seq<u8> {
        self.coded@ + self.in_buf@
    }

    /// The bytes of the ECC stream read so far.
    pub closed spec fn emitted(self) -> Seq<u8> {
        self.emitted@
    }

    /// The coded bytes that wait to be read.
    pub closed spec fn pending(self) -> Seq<u8> {
        self.ecc@.skip(self.pos as int)
    }

    /// The payload has ended.
    pub closed spec fn ended(self) -> bool {
        self.eof
    }

    /// Payload bytes per batch.
    pub closed spec fn batch(self) -> int {
        self.batch as int
    }

    /// How many bytes are held in memory: payload that waits to be coded, and coded
    /// bytes.
    pub closed spec fn held(self) -> nat {
        self.in_buf@.len() + self.ecc@.len()
    }

    /// Full batches are coded, and the bytes read and waiting are their code.
    pub closed spec fn wf(self) -> bool {
        &&& 0 < self.batch
        &&& self.batch % RS_DATA_BYTES == 0
        &&& self.pos <= self.ecc@.len()
        &&& self.in_buf@.len() < self.batch
        &&& self.ecc@.len() <= rs::ecc_len(self.batch as int)
        &&& self.eof ==> self.in_buf@.len() == 0
        &&& !self.eof ==> self.coded@.len() % RS_DATA_BYTES as nat == 0
        &&& self.coded@.len() == coded_len(
            self.supplied().len() as int,
            self.batch as int,
            self.eof,
        )
        &&& self.emitted@ + self.pending() == rs::ecc_stream(self.coded@)
    }

    /// A stream that codes `batch_blocks` blocks at a time, or one where that is
    /// zero.
    pub fn new(batch_blocks: usize) -> (s: StreamingEcc)
        requires
            batch_blocks * RS_DATA_BYTES <= usize::MAX,
        ensures
            s.wf(),
            s.supplied() == Seq::<u8>::empty(),
            s.emitted() == Seq::<u8>::empty(),
            s.pending() == Seq::<u8>::empty(),
            !s.ended(),
            s.batch() == (if batch_blocks == 0 {
                RS_DATA_BYTES as int
            } else {
                batch_blocks * RS_DATA_BYTES
            }),
    {
        let blocks: usize = if batch_blocks == 0 {
            1
        } else {
            batch_blocks
        };
        let s = StreamingEcc {
            batch: RS_DATA_BYTES * blocks,
            in_buf: Vec::new(),
            ecc: Vec::new(),
            pos: 0,
            eof: false,
            coded: Ghost(Seq::empty()),
            emitted: Ghost(Seq::empty()),
        };
        proof {
            assert(s.supplied() =~= Seq::<u8>::empty());
            assert(s.pending() =~= Seq::<u8>::empty());
            div_mod::lemma_small_mod(0, s.batch as nat);
            assert(0int / s.batch as int == 0);
            assert(rs::data_blocks(0) == 0);
            assert(s.emitted@ + s.pending() =~= rs::ecc_stream(s.coded@));
        }
        s
    }

    /// Whether payload is needed before more can be read.
    pub fn needs_input(&self) -> (b: bool)
        requires
            self.wf(),
        ensures
            b == (self.pending().len() == 0 && !self.ended()),
    {
        self.pos >= self.ecc.len() && !self.eof
    }

    /// The most payload bytes that [`StreamingEcc::supply`] takes now.
    pub fn room(&self) -> (n: usize)
        requires
            self.wf(),
        ensures
            n == self.batch() - self.supplied().len() as int % self.batch() || self.ended(),
            n > 0,
    {
        proof {
            if !self.eof {
                lemma_rest(self.supplied().len() as int, self.batch as int);
            }
        }
        self.batch - self.in_buf.len()
    }

    /// Takes in the next piece of the payload; an empty piece says that the
    /// payload has ended.
    pub fn supply(&mut self, piece: &[u8])
        requires
            old(self).wf(),
            takes(*old(self), piece@.len() as int),
        ensures
            final(self).wf(),
            took(*old(self), *final(self), piece@),
    {
        let ghost before = self.supplied();
        let ghost held = self.in_buf@;
        proof {
            lemma_rest(before.len() as int, self.batch as int);
        }
        self.in_buf.extend_from_slice(piece);
        assert(self.in_buf@ =~= held + piece@);
        assert(self.supplied() =~= before + piece@);
        if piece.len() == 0 {
            self.eof = true;
        }
        if self.eof || self.in_buf.len() == self.batch {
            proof {
                assert(self.emitted@ =~= rs::ecc_stream(self.coded@));
                rs::theorem_ecc_stream_append(self.coded@, self.in_buf@);
            }
            self.ecc = rs::ecc_encode(&self.in_buf);
            proof {
                rs::lemma_ecc_stream_len(self.in_buf@);
                lemma_shorter_code(self.in_buf@.len() as int, self.batch as int);
            }
            self.pos = 0;
            proof {
                self.coded@ = self.coded@ + self.in_buf@;
                assert(self.pending() =~= self.ecc@);
            }
            self.in_buf = Vec::new();
            proof {
                assert(self.supplied() =~= before + piece@);
                if !self.eof {
                    lemma_full(before.len() as int, piece@.len() as int, self.batch as int);
                }
            }
        } else {
            proof {
                lemma_partial(before.len() as int, piece@.len() as int, self.batch as int);
            }
        }
        assert(self.supplied().take(self.coded@.len() as int) =~= self.coded@);
    }

    /// Hands out at most `max` bytes of the ECC stream.
    pub fn read(&mut self, max: usize) -> (out: Vec<u8>)
        requires
            old(self).wf(),
        ensures
            final(self).wf(),
            final(self).batch() == old(self).batch(),
            final(self).supplied() == old(self).supplied(),
            final(self).ended() == old(self).ended(),
            final(self).emitted() == old(self).emitted() + out@,
            old(self).pending() == out@ + final(self).pending(),
            out@.len() == (if max <= old(self).pending().len() {
                max as int
            } else {
                old(self).pending().len() as int
            }),
    {
        let left: usize = self.ecc.len() - self.pos;
        let n: usize = if max <= left {
            max
        } else {
            left
        };
        let ghost before = self.pending();
        let ghost read = self.emitted@;
        let mut out: Vec<u8> = Vec::new();
        out.extend_from_slice(&self.ecc[self.pos..self.pos + n]);
        assert(out@ =~= before.take(n as int));
        self.pos = self.pos + n;
        proof {
            self.emitted@ = read + out@;
            assert(before =~= out@ + self.pending());
            assert((read + out@) + self.pending() =~= read + before);
        }
        out
    }
}

/// A stream can take a piece of `len` bytes: nothing waits to be read, the
/// payload has not ended, and the piece fits into the batch.
pub open spec fn takes(s: StreamingEcc, len: int) -> bool {
    &&& !s.ended()
    &&& s.pending().len() == 0
    &&& s.supplied().len() as int % s.batch() + len <= s.batch()
}

/// A stream has taken `piece`, an empty one being the end of the payload.
pub open spec fn took(before: StreamingEcc, now: StreamingEcc, piece: Seq<u8>) -> bool {
    &&& now.batch() == before.batch()
    &&& now.supplied() == before.supplied() + piece
    &&& now.emitted() == before.emitted()
    &&& now.ended() == (piece.len() == 0)
    &&& now.emitted() + now.pending() == rs::ecc_stream(
        now.supplied().take(coded_len(now.supplied().len() as int, now.batch(), now.ended())),
    )
}

/// A stream takes a piece exactly as long as nothing waits to be read, the payload goes
/// on, and the batch that is begun has room for it.
pub proof fn theorem_takes(s: StreamingEcc, len: int)
    ensures
        takes(s, len) <==> (!s.ended() && s.pending().len() == 0 && len <= s.batch()
            - s.supplied().len() as int % s.batch()),
{
}

/// Fewer bytes have no longer a code.
proof fn lemma_shorter_code(a: int, b: int)
    requires
        0 <= a <= b,
    ensures
        rs::ecc_len(a) <= rs::ecc_len(b),
{
    assert((a + 222) / 223 <= (b + 222) / 223);
}

/// A piece that was taken in stands behind what was supplied before, byte for byte;
/// an empty piece ends the payload, and only that; and what has been coded is the code
/// of the beginning of what was supplied, of all of it once the payload has ended.
pub proof fn theorem_taken(before: StreamingEcc, now: StreamingEcc, piece: Seq<u8>)
    requires
        took(before, now, piece),
        0 < now.batch(),
    ensures
        now.supplied() == before.supplied() + piece,
        now.ended() <==> piece.len() == 0,
        now.emitted() == before.emitted(),
        now.ended() ==> now.emitted() + now.pending() == rs::ecc_stream(now.supplied()),
        !now.ended() ==> exists|n: int|
            now.supplied().len() - now.batch() < n <= now.supplied().len() && n % now.batch() == 0
                && now.emitted() + now.pending() == rs::ecc_stream(#[trigger] now.supplied().take(n)),
{
    let all = now.supplied();
    let b = now.batch();
    assert(all.take(all.len() as int) =~= all);
    let n = all.len() as int / b * b;
    lemma_rest(all.len() as int, b);
    div_mod::lemma_mod_multiples_basic(all.len() as int / b, b);
    assert(0 <= all.len() as int % b < b) by {
        div_mod::lemma_fundamental_div_mod(all.len() as int, b);
    }
    assert(coded_len(all.len() as int, b, false) == n);
    if !now.ended() {
        assert(now.emitted() + now.pending() == rs::ecc_stream(all.take(n)));
    }
}

/// However long the payload is, no more is held in memory than one batch and the
/// code of one batch.
pub proof fn theorem_coding_memory(s: StreamingEcc)
    requires
        s.wf(),
    ensures
        s.held() <= s.batch() + rs::ecc_len(s.batch()),
{
}

/// What has been coded and what has not add up.
proof fn lemma_rest(len: int, batch: int)
    requires
        0 <= len,
        0 < batch,
    ensures
        len - len / batch * batch == len % batch,
{
    div_mod::lemma_fundamental_div_mod(len, batch);
    assert(batch * (len / batch) == len / batch * batch) by (nonlinear_arith);
}

/// A batch that is filled up makes one more batch.
proof fn lemma_full(len: int, more: int, batch: int)
    requires
        0 <= len,
        0 < batch,
        len % batch + more == batch,
        batch % RS_DATA_BYTES as int == 0,
    ensures
        (len + more) / batch * batch == len + more,
        (len + more) % RS_DATA_BYTES as int == 0,
{
    lemma_rest(len, batch);
    let q = len / batch;
    assert(len + more == (q + 1) * batch) by (nonlinear_arith)
        requires
            len - q * batch + more == batch,
    ;
    div_mod::lemma_fundamental_div_mod_converse(len + more, batch, q + 1, 0);
    let b = batch / 223;
    assert(batch == 223 * b);
    assert((q + 1) * batch == 223 * ((q + 1) * b)) by (nonlinear_arith)
        requires
            batch == 223 * b,
    ;
}

/// A batch that is not filled up stays.
proof fn lemma_partial(len: int, more: int, batch: int)
    requires
        0 <= len,
        0 <= more,
        0 < batch,
        len % batch + more < batch,
    ensures
        (len + more) / batch * batch == len / batch * batch,
{
    lemma_rest(len, batch);
    let q = len / batch;
    div_mod::lemma_fundamental_div_mod_converse(len + more, batch, q, len % batch + more);
}

/// Once the payload has ended and everything has been read, what was read is
/// the ECC stream of the whole payload.
pub proof fn theorem_streamed_is_one_shot(s: StreamingEcc)
    requires
        s.wf(),
        s.ended(),
        s.pending().len() == 0,
    ensures
        s.emitted() == rs::ecc_stream(s.supplied()),
{
    assert(s.supplied() =~= s.coded@);
    assert(s.emitted@ =~= s.emitted@ + s.pending());
}

} // verus!
