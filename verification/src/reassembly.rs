//! A payload from collected frames alone.
//!
//! Without QR metadata nothing outside the payload tells how long the ECC stream
//! is that the frames hold: behind it the last frame is filled up. The header of
//! the payload tells it. Reed-Solomon blocks carry their data in clear, so the
//! metadata can be read off the stream as it arrived; where it is damaged, the
//! blocks that hold it are repaired first. The size in the metadata then says
//! where the stream ends.

use vstd::prelude::*;

use crate::cells;
use crate::chunks;
use crate::constants::{RS_BLOCK_SIZE, RS_DATA_BYTES, RS_ECC_SYMBOLS};
use crate::decode;
use crate::decode::DecodeError;
use crate::metadata;
use crate::metadata::PayloadError;
use crate::rs;
use crate::rs::ReedSolomonError;
use crate::window;

verus! {

// ---------------------------------------------------------------------------
// The data in clear
// ---------------------------------------------------------------------------

/// Where byte `j` of a payload stands in its ECC stream.
pub open spec fn clear_position(j: int) -> int {
    j / RS_DATA_BYTES as int * RS_BLOCK_SIZE + j % RS_DATA_BYTES as int
}

/// How many bytes of an ECC stream of `len` bytes stand where data does.
pub open spec fn clear_len(len: int) -> int {
    let last = len % RS_BLOCK_SIZE as int;
    len / RS_BLOCK_SIZE as int * RS_DATA_BYTES + if last < RS_DATA_BYTES {
        last
    } else {
        RS_DATA_BYTES as int
    }
}

/// The bytes of an ECC stream that stand where data does.
pub open spec fn clear_text(stream: Seq<u8>) -> Seq<u8> {
    Seq::new(clear_len(stream.len() as int) as nat, |j: int| stream[clear_position(j)])
}

/// One more byte of the stream is data or it is not.
proof fn lemma_clear_text_step(stream: Seq<u8>, n: int)
    requires
        0 <= n < stream.len(),
    ensures
        clear_text(stream.take(n + 1)) == (if (n % RS_BLOCK_SIZE as int) < RS_DATA_BYTES {
            clear_text(stream.take(n)).push(stream[n])
        } else {
            clear_text(stream.take(n))
        }),
{
    let before = clear_text(stream.take(n));
    let now = clear_text(stream.take(n + 1));
    let q = n / 255;
    let r = n % 255;
    assert(n == 255 * q + r && 0 <= r < 255 && 0 <= q);
    assert forall|j: int| 0 <= j < before.len() implies 0 <= #[trigger] clear_position(j)
        < n by {
        assert(j == 223 * (j / 223) + j % 223);
        assert(j < 223 * q + 223);
        assert(j / 223 <= q);
    }
    if r < 223 {
        assert(clear_len(n) == 223 * q + r);
        assert(clear_len(n + 1) == 223 * q + r + 1);
        assert(clear_position(223 * q + r) == n) by {
            assert((223 * q + r) / 223 == q && (223 * q + r) % 223 == r);
        }
        assert(now =~= before.push(stream[n]));
    } else {
        assert(clear_len(n + 1) == clear_len(n));
        assert(now =~= before);
    }
}

/// The ECC stream of a payload holds the payload in clear, whatever stands behind
/// it.
pub proof fn theorem_payload_in_clear(payload: Seq<u8>, stream: Seq<u8>)
    requires
        stream.len() >= rs::ecc_stream(payload).len(),
        stream.take(rs::ecc_stream(payload).len() as int) == rs::ecc_stream(payload),
    ensures
        clear_text(stream).len() >= payload.len(),
        clear_text(stream).take(payload.len() as int) == payload,
{
    let ecc = rs::ecc_stream(payload);
    let text = clear_text(stream);
    rs::lemma_ecc_stream_len(payload);
    assert forall|j: int| 0 <= j < payload.len() implies 0 <= clear_position(j)
        < ecc.len() && ecc[#[trigger] clear_position(j)] == payload[j] by {
        let k = j / 223;
        assert(j == 223 * k + j % 223);
        assert(0 <= k < rs::data_blocks(payload.len() as int)) by {
            vstd::arithmetic::div_mod::lemma_fundamental_div_mod(
                payload.len() as int + 222,
                223,
            );
        }
        rs::lemma_ecc_stream_block(payload, k);
        let part = chunks::chunk(payload, RS_DATA_BYTES as int, k);
        let block = chunks::chunk(ecc, RS_BLOCK_SIZE as int, k);
        chunks::lemma_chunk_bounds(payload.len() as int, RS_DATA_BYTES as int, k);
        chunks::lemma_chunk_bounds(ecc.len() as int, RS_BLOCK_SIZE as int, k);
        assert(block == rs::codeword(part, RS_ECC_SYMBOLS as nat));
        assert(block[j % 223] == part[j % 223]);
    }
    if payload.len() > 0 {
        let j = payload.len() - 1;
        let p = clear_position(j);
        assert(p < stream.len());
        assert(j == 223 * (j / 223) + j % 223);
        assert(p / 255 == j / 223 && p % 255 == j % 223);
        let n = stream.len() as int;
        assert(n == 255 * (n / 255) + n % 255);
        assert(p == 255 * (p / 255) + p % 255);
        assert(clear_len(n) > j) by {
            if n / 255 == p / 255 {
                assert(n % 255 > p % 255);
            } else {
                assert(n / 255 >= p / 255 + 1);
            }
        }
    }
    assert(text.take(payload.len() as int) =~= payload) by {
        assert forall|j: int| 0 <= j < payload.len() implies #[trigger] text[j]
            == payload[j] by {
            assert(stream.take(ecc.len() as int)[clear_position(j)] == ecc[clear_position(j)]);
        }
    }
}

/// What stands in clear in a stream, whatever it is the stream of: of each 255 bytes the
/// first 223, in order, and of what is left over as many as there are of them.
pub proof fn theorem_clear_text(stream: Seq<u8>, p: int)
    ensures
        clear_text(stream).len() == stream.len() / 255 * 223 + (if stream.len() % 255 < 223 {
            stream.len() % 255
        } else {
            223
        }),
        0 <= p < stream.len() && p % 255 < 223 ==> {
            let j = p / 255 * 223 + p % 255;
            0 <= j < clear_text(stream).len() && clear_text(stream)[j] == stream[p]
        },
{
    let n = stream.len() as int;
    if 0 <= p < n && p % 255 < 223 {
        let j = p / 255 * 223 + p % 255;
        assert(p == 255 * (p / 255) + p % 255);
        assert(n == 255 * (n / 255) + n % 255);
        assert(j / 223 == p / 255 && j % 223 == p % 255);
        assert(clear_position(j) == p);
        assert(0 <= j < clear_len(n)) by {
            if p / 255 == n / 255 {
                assert(p % 255 < n % 255);
            } else {
                assert(p / 255 + 1 <= n / 255);
            }
        }
    }
}

/// The bytes of the metadata as the collected stream shows them, unrepaired.
pub fn clear_metadata(raw: &[u8]) -> (r: Result<Vec<u8>, PayloadError>)
    ensures
        r is Ok ==> metadata::meta_part(clear_text(raw@)) == Ok::<Seq<u8>, PayloadError>(
            r->Ok_0@,
        ),
        r is Err ==> metadata::meta_part(clear_text(raw@)) == Err::<Seq<u8>, PayloadError>(
            r->Err_0,
        ),
{
    let mut text: Vec<u8> = Vec::new();
    let mut i: usize = 0;
    assert(raw@.take(0) =~= Seq::<u8>::empty());
    assert(clear_text(raw@.take(0)) =~= Seq::<u8>::empty());
    while i < raw.len()
        invariant
            0 <= i <= raw@.len(),
            text@ == clear_text(raw@.take(i as int)),
        decreases raw@.len() - i,
    {
        proof {
            lemma_clear_text_step(raw@, i as int);
        }
        if i % RS_BLOCK_SIZE < RS_DATA_BYTES {
            text.push(raw[i]);
        }
        i = i + 1;
    }
    assert(raw@.take(i as int) =~= raw@);
    metadata::payload_metadata(&text)
}

// ---------------------------------------------------------------------------
// Repaired blocks
// ---------------------------------------------------------------------------

/// Length of the first `n` blocks of `len` bytes, the last of which may be short.
pub open spec fn head_len(len: int, n: int) -> int {
    if n * RS_BLOCK_SIZE <= len {
        n * RS_BLOCK_SIZE
    } else {
        len
    }
}

/// What the first `n` blocks of the cells decode to; the last block there is may
/// be short.
pub open spec fn first_blocks(cells: Seq<Option<u8>>, n: int) -> Option<Seq<u8>> {
    match cells::decoded_cells(cells.take(head_len(cells.len() as int, n))) {
        Ok(p) => Some(p),
        Err(_) => None,
    }
}

/// The metadata once the blocks that hold it have been repaired: the first block
/// tells its length, and with it how many blocks are needed.
pub open spec fn repaired(cells: Seq<Option<u8>>) -> Option<Seq<u8>> {
    match first_blocks(cells, 1) {
        Some(first) => if first.len() < 4 {
            None
        } else {
            match first_blocks(
                cells,
                chunks::chunk_count(metadata::file_start(first), RS_DATA_BYTES as int),
            ) {
                Some(p) => match metadata::meta_part(p) {
                    Ok(meta) => Some(meta),
                    Err(_) => None,
                },
                None => None,
            }
        },
        None => None,
    }
}

/// How the metadata are repaired: the first block tells how long they are, the blocks
/// that hold as much are decoded, and what stands behind the length is the metadata. There
/// are none where one of the two steps fails.
pub proof fn theorem_repaired(cells: Seq<Option<u8>>)
    ensures
        ({
            let n = cells.len() as int;
            let one = cells.take(
                if n < 255 {
                    n
                } else {
                    255
                },
            );
            match cells::decoded_cells(one) {
                Err(_) => repaired(cells) is None,
                Ok(first) => if first.len() < 4 {
                    repaired(cells) is None
                } else {
                    let end = 4 + first[0] * 16777216 + first[1] * 65536 + first[2] * 256 + first[3];
                    let need = (end + 222) / 223 * 255;
                    let head = cells.take(
                        if n < need {
                            n
                        } else {
                            need
                        },
                    );
                    match cells::decoded_cells(head) {
                        Err(_) => repaired(cells) is None,
                        Ok(p) => {
                            &&& repaired(cells) is Some <==> metadata::meta_part(p) is Ok
                            &&& metadata::meta_part(p) is Ok ==> repaired(cells) == Some(
                                metadata::meta_part(p)->Ok_0,
                            )
                        },
                    }
                },
            }
        }),
{
}

/// Decodes the first `n` blocks.
fn decode_first_blocks(raw: &[u8], seen: &[bool], n: usize) -> (r: Option<Vec<u8>>)
    requires
        seen@.len() == raw@.len(),
        forall|i: int| 0 <= i < raw@.len() && !seen@[i] ==> #[trigger] raw@[i] == 0,
    ensures
        r is Some ==> first_blocks(cells::marked(raw@, seen@), n as int) == Some(r->0@),
        r is None ==> first_blocks(cells::marked(raw@, seen@), n as int) is None,
        r is Some ==> cells::all_reach(
            cells::marked(raw@, seen@).take(head_len(raw@.len() as int, n as int)),
        ),
        r is None ==> cells::hopeless(
            cells::marked(raw@, seen@).take(head_len(raw@.len() as int, n as int)),
        ),
{
    let len: usize = if n <= raw.len() / RS_BLOCK_SIZE {
        n * RS_BLOCK_SIZE
    } else {
        raw.len()
    };
    assert(len == head_len(raw@.len() as int, n as int));
    let kept: &[u8] = &raw[0..len];
    let kept_seen: &[bool] = &seen[0..len];
    assert(cells::marked(kept@, kept_seen@) =~= cells::marked(raw@, seen@).take(len as int));
    match cells::decode_cells(kept, kept_seen) {
        Ok(p) => Some(p),
        Err(_) => None,
    }
}

/// The first `m` blocks of the cells are within reach of those of `payload`. The
/// last block of a payload may have zeros behind it.
pub open spec fn head_recoverable(payload: Seq<u8>, cells: Seq<Option<u8>>, m: int) -> bool {
    &&& 0 < m <= rs::data_blocks(payload.len() as int)
    &&& m <= rs::ecc_blocks(cells.len() as int)
    &&& forall|k: int|
        0 <= k < m ==> rs::within_reach_filled(
            chunks::chunk(payload, RS_DATA_BYTES as int, k),
            cells::filled(#[trigger] cells::cell_block(cells, k)),
            cells::block_gaps(cells::cell_block(cells, k)),
            RS_ECC_SYMBOLS as nat,
        )
}

/// How many blocks hold the header of a payload.
pub open spec fn header_blocks(payload: Seq<u8>) -> int {
    chunks::chunk_count(metadata::file_start(payload), RS_DATA_BYTES as int)
}

/// The blocks of the cells that hold the metadata of `payload` are within reach
/// of it.
pub open spec fn repairable(payload: Seq<u8>, cells: Seq<Option<u8>>) -> bool {
    metadata::meta_part(payload) is Ok && head_recoverable(payload, cells, header_blocks(payload))
}

/// The first `m` blocks, taken alone.
proof fn lemma_head_blocks(cells: Seq<Option<u8>>, m: int, k: int)
    requires
        0 < m <= rs::ecc_blocks(cells.len() as int),
        0 <= k < m,
    ensures
        ({
            let part = cells.take(head_len(cells.len() as int, m));
            &&& rs::ecc_blocks(part.len() as int) == m
            &&& cells::cell_block(part, k) == cells::cell_block(cells, k)
            &&& k < m - 1 ==> cells::cell_block(cells, k).len() == RS_BLOCK_SIZE
        }),
{
    let len = cells.len() as int;
    let h = head_len(len, m);
    let part = cells.take(h);
    chunks::lemma_chunk_bounds(len, RS_BLOCK_SIZE as int, m - 1);
    chunks::lemma_chunk_bounds(len, RS_BLOCK_SIZE as int, k);
    assert((m - 1) * 255 < h <= m * 255);
    chunks::lemma_chunk_count(h, RS_BLOCK_SIZE as int, m);
    chunks::lemma_chunk_bounds(h, RS_BLOCK_SIZE as int, k);
    assert((k + 1) * 255 <= m * 255);
    assert(cells::cell_block(part, k) =~= cells::cell_block(cells, k));
}

/// The blocks before the last of the first `m` decode to the payload's.
proof fn lemma_head_decodes(payload: Seq<u8>, cells: Seq<Option<u8>>, m: int, j: nat)
    requires
        head_recoverable(payload, cells, m),
        cells::all_reach(cells.take(head_len(cells.len() as int, m))),
        j < m,
    ensures
        j * RS_DATA_BYTES <= payload.len(),
        cells::decoded_cell_blocks(cells.take(head_len(cells.len() as int, m)), j) == Ok::<
            Seq<u8>,
            ReedSolomonError,
        >(payload.take(j * RS_DATA_BYTES)),
    decreases j,
{
    if j == 0 {
        assert(payload.take(0) =~= Seq::<u8>::empty());
    } else {
        let k = j - 1;
        lemma_head_decodes(payload, cells, m, k as nat);
        lemma_head_block(payload, cells, m, k);
        chunks::lemma_chunk_bounds(payload.len() as int, RS_DATA_BYTES as int, k);
        let part = chunks::chunk(payload, RS_DATA_BYTES as int, k);
        let word = rs::codeword(part, RS_ECC_SYMBOLS as nat);
        lemma_head_blocks(cells, m, k);
        assert(part.len() == 223);
        assert(rs::filled_data(part, 255, RS_ECC_SYMBOLS as nat) =~= part);
        assert(payload.take(k * 223) + part =~= payload.take((j * 223) as int));
    }
}

/// What one of the first `m` blocks decodes to.
proof fn lemma_head_block(payload: Seq<u8>, cells: Seq<Option<u8>>, m: int, k: int)
    requires
        head_recoverable(payload, cells, m),
        cells::all_reach(cells.take(head_len(cells.len() as int, m))),
        0 <= k < m,
    ensures
        ({
            let part = cells.take(head_len(cells.len() as int, m));
            let block = cells::cell_block(part, k);
            rs::block_data(cells::filled(block), cells::block_gaps(block)) == Ok::<
                Seq<u8>,
                ReedSolomonError,
            >(
                rs::filled_data(
                    chunks::chunk(payload, RS_DATA_BYTES as int, k),
                    block.len(),
                    RS_ECC_SYMBOLS as nat,
                ),
            )
        }),
{
    reveal(cells::all_reach);
    let part = cells.take(head_len(cells.len() as int, m));
    lemma_head_blocks(cells, m, k);
    let block = cells::cell_block(part, k);
    assert(block == cells::cell_block(cells, k));
    assert(rs::reach_holds(cells::filled(block), cells::block_gaps(block)));
}

/// Blocks within reach of the head of a payload decode to it, and to more only
/// where the payload ends.
proof fn lemma_head(payload: Seq<u8>, cells: Seq<Option<u8>>, m: int, p: Seq<u8>)
    requires
        head_recoverable(payload, cells, m),
        cells::all_reach(cells.take(head_len(cells.len() as int, m))),
        first_blocks(cells, m) == Some(p),
    ensures
        ({
            let q = window::least(m * RS_DATA_BYTES, payload.len() as int);
            q <= p.len() && p.take(q) == payload.take(q)
        }),
{
    reveal(cells::decoded_cells);
    let part = cells.take(head_len(cells.len() as int, m));
    let k = m - 1;
    lemma_head_blocks(cells, m, k);
    lemma_head_decodes(payload, cells, m, k as nat);
    lemma_head_block(payload, cells, m, k);
    chunks::lemma_chunk_bounds(payload.len() as int, RS_DATA_BYTES as int, k);
    let block = cells::cell_block(part, k);
    assert(block == cells::cell_block(cells, k));
    let last = chunks::chunk(payload, RS_DATA_BYTES as int, k);
    let data = rs::filled_data(last, block.len(), RS_ECC_SYMBOLS as nat);
    assert(p == payload.take(k * 223) + data);
    assert(block.len() >= last.len() + 32);
    assert(data.take(last.len() as int) =~= last);
    let q = window::least(m * 223, payload.len() as int);
    assert(q == k * 223 + last.len());
    assert(p.take(q) =~= payload.take(q)) by {
        assert forall|i: int| 0 <= i < q implies p[i] == payload[i] by {
            if i >= k * 223 {
                assert(data.take(last.len() as int)[i - k * 223] == last[i - k * 223]);
            }
        }
    }
}

/// No payload has its head in hopeless blocks.
proof fn lemma_hopeless_head(payload: Seq<u8>, cells: Seq<Option<u8>>, m: int)
    requires
        head_recoverable(payload, cells, m),
    ensures
        !cells::hopeless(cells.take(head_len(cells.len() as int, m))),
{
    reveal(cells::hopeless);
    let part = cells.take(head_len(cells.len() as int, m));
    lemma_head_blocks(cells, m, 0);
    if cells::hopeless(part) {
        let k = choose|k: int|
            0 <= k < rs::ecc_blocks(part.len() as int) && rs::beyond_reach(
                cells::filled(#[trigger] cells::cell_block(part, k)),
                cells::block_gaps(cells::cell_block(part, k)),
            );
        lemma_head_blocks(cells, m, k);
        assert(cells::cell_block(part, k) == cells::cell_block(cells, k));
    }
}

/// The head of one block is the beginning of the head of all.
proof fn lemma_first_head(payload: Seq<u8>, cells: Seq<Option<u8>>)
    requires
        repairable(payload, cells),
    ensures
        head_recoverable(payload, cells, 1),
        payload.len() >= 4,
        metadata::file_start(payload) <= payload.len(),
        window::least(header_blocks(payload) * 223, payload.len() as int) >= metadata::file_start(
            payload,
        ),
{
    let end = metadata::file_start(payload);
    assert(end >= 4);
    vstd::arithmetic::div_mod::lemma_fundamental_div_mod(end + 222, 223);
}

/// The bytes of the metadata of a collected stream, its blocks repaired.
pub fn repaired_metadata(raw: &[u8], seen: &[bool]) -> (r: Option<Vec<u8>>)
    requires
        seen@.len() == raw@.len(),
        forall|i: int| 0 <= i < raw@.len() && !seen@[i] ==> #[trigger] raw@[i] == 0,
    ensures
        r is Some ==> repaired(cells::marked(raw@, seen@)) == Some(r->0@),
        r is None ==> repaired(cells::marked(raw@, seen@)) is None,
        forall|payload: Seq<u8>| #[trigger]
            repairable(payload, cells::marked(raw@, seen@)) ==> r is Some && metadata::meta_part(
                payload,
            ) == Ok::<Seq<u8>, PayloadError>(r->0@),
{
    let ghost cells = cells::marked(raw@, seen@);
    assert(raw.len() <= usize::MAX);
    let first: Vec<u8> = match decode_first_blocks(raw, seen, 1) {
        Some(p) => p,
        None => {
            proof {
                assert forall|payload: Seq<u8>| #[trigger]
                    repairable(payload, cells) implies false by {
                    lemma_first_head(payload, cells);
                    lemma_hopeless_head(payload, cells, 1);
                }
            }
            return None;
        },
    };
    proof {
        assert forall|payload: Seq<u8>| #[trigger] repairable(payload, cells) implies first@.len()
            >= 4 && metadata::file_start(first@) == metadata::file_start(payload) by {
            lemma_first_head(payload, cells);
            lemma_head(payload, cells, 1, first@);
            let q = window::least(223, payload.len() as int);
            assert forall|i: int| 0 <= i < 4 implies first@[i] == payload[i] by {
                assert(first@.take(q)[i] == payload.take(q)[i]);
            }
        }
    }
    if first.len() < 4 {
        return None;
    }
    let meta_len: usize = metadata::read_be(&first) as usize;
    let n: usize = if meta_len <= usize::MAX - 4 {
        chunks::count_chunks(4 + meta_len, RS_DATA_BYTES)
    } else {
        chunks::count_chunks(usize::MAX, RS_DATA_BYTES)
    };
    proof {
        let want = chunks::chunk_count(metadata::file_start(first@), 223);
        assert(first_blocks(cells, want) == first_blocks(cells, n as int)) by {
            if meta_len > usize::MAX - 4 {
                assert(want * 255 > raw@.len() && n * 255 >= usize::MAX);
            }
        }
    }
    match decode_first_blocks(raw, seen, n) {
        Some(p) => {
            proof {
                assert forall|payload: Seq<u8>| #[trigger]
                    repairable(payload, cells) implies metadata::meta_part(payload)
                    == metadata::meta_part(p@) by {
                    lemma_first_head(payload, cells);
                    lemma_head(payload, cells, n as int, p@);
                    let q = window::least(n * 223, payload.len() as int);
                    metadata::lemma_same_metadata(p@, payload, q);
                }
            }
            match metadata::payload_metadata(&p) {
                Ok(meta) => Some(meta),
                Err(_) => None,
            }
        },
        None => {
            proof {
                assert forall|payload: Seq<u8>| #[trigger]
                    repairable(payload, cells) implies false by {
                    lemma_hopeless_head(payload, cells, n as int);
                }
            }
            None
        },
    }
}

/// The byte at `p` of an ECC stream, with zeros behind its end.
pub open spec fn padded(stream: Seq<u8>, p: int) -> u8 {
    if p < stream.len() {
        stream[p]
    } else {
        0u8
    }
}

/// Losses in the header do not matter as long as no block that holds the metadata
/// lacks more than 32 bytes. The payload may end in the last of these blocks, with
/// zeros behind it.
pub proof fn theorem_header_losses_repairable(payload: Seq<u8>, cells: Seq<Option<u8>>)
    requires
        metadata::meta_part(payload) is Ok,
        ({
            let h = head_len(cells.len() as int, header_blocks(payload));
            &&& cells.len() >= head_len(
                rs::ecc_stream(payload).len() as int,
                header_blocks(payload),
            )
            &&& forall|p: int|
                0 <= p < h && cells[p] is Some ==> #[trigger] cells[p] == Some(
                    padded(rs::ecc_stream(payload), p),
                )
        }),
        forall|k: int|
            0 <= k < header_blocks(payload) ==> cells::block_gaps(
                #[trigger] cells::cell_block(cells, k),
            ).len() <= RS_ECC_SYMBOLS,
    ensures
        repairable(payload, cells),
{
    let n = header_blocks(payload);
    let stream = rs::ecc_stream(payload);
    let end = metadata::file_start(payload);
    let len = cells.len() as int;
    assert(end >= 4);
    vstd::arithmetic::div_mod::lemma_fundamental_div_mod(end + 222, 223);
    vstd::arithmetic::div_mod::lemma_fundamental_div_mod(payload.len() as int + 222, 223);
    assert(0 < n <= rs::data_blocks(payload.len() as int));
    rs::lemma_ecc_stream_len(payload);
    rs::lemma_ecc_stream_block(payload, n - 1);
    chunks::lemma_chunk_bounds(stream.len() as int, RS_BLOCK_SIZE as int, n - 1);
    assert(len > (n - 1) * 255);
    assert(n <= rs::ecc_blocks(len)) by {
        vstd::arithmetic::div_mod::lemma_fundamental_div_mod(len + 254, 255);
    }
    assert forall|k: int| 0 <= k < n implies rs::within_reach_filled(
        chunks::chunk(payload, RS_DATA_BYTES as int, k),
        cells::filled(#[trigger] cells::cell_block(cells, k)),
        cells::block_gaps(cells::cell_block(cells, k)),
        RS_ECC_SYMBOLS as nat,
    ) by {
        let block = cells::cell_block(cells, k);
        let part = chunks::chunk(payload, RS_DATA_BYTES as int, k);
        rs::lemma_ecc_stream_block(payload, k);
        chunks::lemma_chunk_bounds(payload.len() as int, RS_DATA_BYTES as int, k);
        chunks::lemma_chunk_bounds(stream.len() as int, RS_BLOCK_SIZE as int, k);
        chunks::lemma_chunk_bounds(len, RS_BLOCK_SIZE as int, k);
        let word = chunks::chunk(stream, RS_BLOCK_SIZE as int, k);
        assert(word == rs::codeword(part, RS_ECC_SYMBOLS as nat));
        assert((k + 1) * 255 <= n * 255);
        assert(block.len() >= word.len());
        let whole = rs::zero_filled(word, block.len());
        assert forall|i: int| 0 <= i < block.len() && block[i] is Some implies #[trigger] block[i]
            == Some(whole[i]) by {
            let p = k * 255 + i;
            assert(cells[p] == block[i]);
            assert(p < head_len(len, n));
            assert(cells[p] == Some(padded(stream, p)));
        }
        cells::lemma_only_gaps(whole, block, block.len());
    }
}

// ---------------------------------------------------------------------------
// The payload
// ---------------------------------------------------------------------------

/// Decodes the ECC stream of a payload of `payload_len` bytes that a collected
/// stream begins with.
pub fn complete_payload(raw: &[u8], seen: &[bool], payload_len: usize) -> (r: Result<
    Vec<u8>,
    ReedSolomonError,
>)
    requires
        seen@.len() == raw@.len(),
        rs::ecc_len(payload_len as int) <= raw@.len(),
        forall|i: int| 0 <= i < raw@.len() && !seen@[i] ==> #[trigger] raw@[i] == 0,
    ensures
        rs::outcome(r) == cells::decoded_cells(
            cells::marked(raw@, seen@).take(rs::ecc_len(payload_len as int)),
        ),
        forall|payload: Seq<u8>| #[trigger]
            cells::recoverable_cells(
                payload,
                cells::marked(raw@, seen@).take(rs::ecc_len(payload_len as int)),
            ) ==> rs::outcome(r) == Ok::<Seq<u8>, ReedSolomonError>(payload),
        cells::starved(cells::marked(raw@, seen@).take(rs::ecc_len(payload_len as int))) ==> r
            is Err,
        r is Ok ==> r->Ok_0@.len() == payload_len,
{
    assert(raw.len() <= usize::MAX);
    let len: usize = rs::ecc_len_for(payload_len);
    let kept: &[u8] = &raw[0..len];
    let kept_seen: &[bool] = &seen[0..len];
    let ghost all = cells::marked(raw@, seen@).take(len as int);
    assert(cells::marked(kept@, kept_seen@) =~= all);
    let r: Result<Vec<u8>, ReedSolomonError> = cells::decode_cells(kept, kept_seen);
    proof {
        rs::lemma_block_counts(payload_len as int);
        assert forall|p: Seq<u8>| #[trigger] cells::recoverable_cells(p, all) implies rs::outcome(r)
            == Ok::<Seq<u8>, ReedSolomonError>(p) by {
            if r is Ok {
                cells::lemma_recoverable_cells(p, all);
            } else {
                cells::lemma_hopeless(p, all);
            }
        }
    }
    r
}

/// Length of a payload with `meta_len` bytes of metadata and `size` of a file.
pub open spec fn payload_len(meta_len: int, size: int) -> int {
    4 + meta_len + size
}

/// The payload of `len` bytes that a stream begins with, or why there is none.
pub open spec fn exact_payload(cells: Seq<Option<u8>>, len: int) -> Result<
    Seq<u8>,
    DecodeError,
> {
    if len > usize::MAX {
        Err(DecodeError::BadPayload(PayloadError::SizeOverflow))
    } else if rs::ecc_len(len) > cells.len() {
        Err(DecodeError::BadPayload(PayloadError::EndedEarly))
    } else {
        match cells::decoded_cells(cells.take(rs::ecc_len(len))) {
            Ok(p) => Ok(p),
            Err(e) => Err(DecodeError::StreamFailed(e)),
        }
    }
}

/// The payload that a collected stream begins with. `meta_len` is the length of
/// its metadata and `size` the size of its file.
pub fn reassembled_payload(raw: &[u8], seen: &[bool], meta_len: usize, size: u64) -> (r: Result<
    Vec<u8>,
    DecodeError,
>)
    requires
        seen@.len() == raw@.len(),
        forall|i: int| 0 <= i < raw@.len() && !seen@[i] ==> #[trigger] raw@[i] == 0,
    ensures
        rs::outcome(r) == exact_payload(
            cells::marked(raw@, seen@),
            payload_len(meta_len as int, size as int),
        ),
        ({
            let len = payload_len(meta_len as int, size as int);
            let cells = cells::marked(raw@, seen@).take(rs::ecc_len(len));
            rs::ecc_len(len) <= raw@.len() ==> {
                &&& forall|payload: Seq<u8>| #[trigger]
                    cells::recoverable_cells(payload, cells) ==> (r matches Ok(p) && p@ == payload)
                &&& cells::starved(cells) ==> r is Err
            }
        }),
{
    assert(raw.len() <= usize::MAX);
    if meta_len > usize::MAX - 4 || size > (usize::MAX - 4 - meta_len) as u64 {
        assert(rs::ecc_len(payload_len(meta_len as int, size as int)) > usize::MAX);
        return Err(DecodeError::BadPayload(PayloadError::SizeOverflow));
    }
    let len: usize = 4 + meta_len + size as usize;
    if len > raw.len() {
        return Err(DecodeError::BadPayload(PayloadError::EndedEarly));
    }
    let blocks: usize = chunks::count_chunks(len, RS_DATA_BYTES);
    if blocks > (raw.len() - len) / RS_ECC_SYMBOLS {
        return Err(DecodeError::BadPayload(PayloadError::EndedEarly));
    }
    match complete_payload(raw, seen, len) {
        Ok(payload) => Ok(payload),
        Err(e) => Err(DecodeError::StreamFailed(e)),
    }
}

/// The size up to which a file is read: the one in the payload's metadata, or a
/// greater one that is known from elsewhere.
pub open spec fn wanted_size(size: u64, known: Option<u64>) -> u64 {
    match known {
        Some(k) => if k > size {
            k
        } else {
            size
        },
        None => size,
    }
}

/// The payload as far as the file is wanted. Where the stream does not end there,
/// the whole blocks that were collected are the payload and more, or all bytes
/// where they do not fill a block.
pub open spec fn wanted_payload(cells: Seq<Option<u8>>, len: int) -> Result<
    Seq<u8>,
    DecodeError,
> {
    match exact_payload(cells, len) {
        Ok(p) => Ok(p),
        Err(e) => match cells::decoded_cells(
            cells.take(decode::stream_len(cells.len() as int, None)),
        ) {
            Ok(p) => Ok(p),
            Err(_) => Err(e),
        },
    }
}

/// How far a collected payload reaches: to the end of the file, whose size is the one in
/// the payload or a greater one known from elsewhere. A stream that is not as long is
/// refused, one that is gives what its cells decode to, and where that fails, what the
/// whole blocks of all that was collected decode to.
pub proof fn theorem_wanted(
    cells: Seq<Option<u8>>,
    meta_len: int,
    size: u64,
    known: Option<u64>,
)
    requires
        0 <= meta_len,
        cells.len() <= usize::MAX,
    ensures
        wanted_size(size, known) >= size,
        known is Some ==> wanted_size(size, known) >= known->0,
        wanted_size(size, known) == size || (known is Some && wanted_size(size, known)
            == known->0),
        ({
            let len = payload_len(meta_len, wanted_size(size, known) as int);
            let stream = len + 32 * ((len + 222) / 223);
            let exact = exact_payload(cells, len);
            let all = cells.take(
                if cells.len() < 255 {
                    cells.len() as int
                } else {
                    cells.len() - cells.len() % 255
                },
            );
            &&& len == 4 + meta_len + wanted_size(size, known)
            &&& stream > cells.len() ==> exact == Err::<Seq<u8>, DecodeError>(
                DecodeError::BadPayload(
                    if len > usize::MAX {
                        PayloadError::SizeOverflow
                    } else {
                        PayloadError::EndedEarly
                    },
                ),
            )
            &&& stream <= cells.len() ==> (match cells::decoded_cells(cells.take(stream)) {
                Ok(p) => exact == Ok::<Seq<u8>, DecodeError>(p),
                Err(e) => exact == Err::<Seq<u8>, DecodeError>(DecodeError::StreamFailed(e)),
            })
            &&& exact is Ok ==> wanted_payload(cells, len) == exact
            &&& exact is Err && cells::decoded_cells(all) is Err ==> wanted_payload(cells, len)
                == exact
            &&& exact is Err && cells::decoded_cells(all) is Ok ==> wanted_payload(cells, len)
                == Ok::<Seq<u8>, DecodeError>(cells::decoded_cells(all)->Ok_0)
        }),
{
    let len = payload_len(meta_len, wanted_size(size, known) as int);
    assert(rs::ecc_len(len) == len + 32 * ((len + 222) / 223));
    let n = cells.len() as int;
    assert(n / 255 * 255 == n - n % 255);
}

/// The payload in a collected stream. `meta_len` is the length of its metadata,
/// `size` the size of the file that the metadata tells, and `known` the size that
/// is known from elsewhere, if any.
pub fn collected_payload(
    raw: &[u8],
    seen: &[bool],
    meta_len: usize,
    size: u64,
    known: Option<u64>,
) -> (r: Result<Vec<u8>, DecodeError>)
    requires
        seen@.len() == raw@.len(),
        forall|i: int| 0 <= i < raw@.len() && !seen@[i] ==> #[trigger] raw@[i] == 0,
    ensures
        rs::outcome(r) == wanted_payload(
            cells::marked(raw@, seen@),
            payload_len(meta_len as int, wanted_size(size, known) as int),
        ),
        ({
            let len = payload_len(meta_len as int, wanted_size(size, known) as int);
            rs::ecc_len(len) <= raw@.len() ==> (forall|payload: Seq<u8>| #[trigger]
                cells::recoverable_cells(
                    payload,
                    cells::marked(raw@, seen@).take(rs::ecc_len(len)),
                ) ==> (r matches Ok(p) && p@ == payload))
        }),
{
    let wanted: u64 = match known {
        Some(k) => if k > size {
            k
        } else {
            size
        },
        None => size,
    };
    match reassembled_payload(raw, seen, meta_len, wanted) {
        Ok(payload) => Ok(payload),
        Err(e) => {
            let len: usize = if raw.len() >= RS_BLOCK_SIZE {
                raw.len() / RS_BLOCK_SIZE * RS_BLOCK_SIZE
            } else {
                raw.len()
            };
            let kept: &[u8] = &raw[0..len];
            let kept_seen: &[bool] = &seen[0..len];
            assert(cells::marked(kept@, kept_seen@) =~= cells::marked(raw@, seen@).take(
                len as int,
            ));
            match cells::decode_cells(kept, kept_seen) {
                Ok(payload) => Ok(payload),
                Err(_) => Err(e),
            }
        },
    }
}

} // verus!
