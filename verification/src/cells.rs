//! ECC streams of which some bytes never arrived: each cell holds a byte or
//! nothing, and what is missing is handed to the Reed-Solomon decoder as an
//! erasure.

use vstd::prelude::*;

use crate::chunks;
use crate::constants::{RS_BLOCK_SIZE, RS_DATA_BYTES, RS_ECC_SYMBOLS};
use crate::rs;
use crate::rs::ReedSolomonError;

verus! {

/// The bytes of the cells, zero where nothing arrived.
pub open spec fn filled(cells: Seq<Option<u8>>) -> Seq<u8> {
    Seq::new(
        cells.len(),
        |i: int|
            match cells[i] {
                Some(b) => b,
                None => 0u8,
            },
    )
}

/// The empty ones among the first `n` cells, in order.
pub open spec fn gaps_upto(cells: Seq<Option<u8>>, n: nat) -> Seq<usize>
    decreases n,
{
    if n == 0 {
        Seq::empty()
    } else if cells[n - 1] is None {
        gaps_upto(cells, (n - 1) as nat).push((n - 1) as usize)
    } else {
        gaps_upto(cells, (n - 1) as nat)
    }
}

/// The empty cells, in order.
pub open spec fn gaps(cells: Seq<Option<u8>>) -> Seq<usize> {
    gaps_upto(cells, cells.len())
}

/// The empty ones among the first `n` cells of a block, in order.
pub open spec fn block_gaps_upto(cells: Seq<Option<u8>>, n: nat) -> Seq<u8>
    decreases n,
{
    if n == 0 {
        Seq::empty()
    } else if cells[n - 1] is None {
        block_gaps_upto(cells, (n - 1) as nat).push((n - 1) as u8)
    } else {
        block_gaps_upto(cells, (n - 1) as nat)
    }
}

/// The empty cells of a block, in order.
pub open spec fn block_gaps(cells: Seq<Option<u8>>) -> Seq<u8> {
    block_gaps_upto(cells, cells.len())
}

/// Block `k` of the cells.
pub open spec fn cell_block(cells: Seq<Option<u8>>, k: int) -> Seq<Option<u8>> {
    chunks::chunk(cells, RS_BLOCK_SIZE as int, k)
}

/// The first payload and then the second, or the first failure.
pub open spec fn joined(
    a: Result<Seq<u8>, ReedSolomonError>,
    b: Result<Seq<u8>, ReedSolomonError>,
) -> Result<Seq<u8>, ReedSolomonError> {
    match a {
        Ok(x) => match b {
            Ok(y) => Ok(x + y),
            Err(e) => Err(e),
        },
        Err(e) => Err(e),
    }
}

/// What the first `n` blocks of the cells decode to.
pub open spec fn decoded_cell_blocks(cells: Seq<Option<u8>>, n: nat) -> Result<
    Seq<u8>,
    ReedSolomonError,
>
    decreases n,
{
    if n == 0 {
        Ok(Seq::empty())
    } else {
        joined(
            decoded_cell_blocks(cells, (n - 1) as nat),
            rs::block_data(filled(cell_block(cells, n - 1)), block_gaps(cell_block(cells, n - 1))),
        )
    }
}

/// What the cells decode to: the payload, or the failure of the first block
/// that cannot be recovered.
#[verifier::opaque]
pub open spec fn decoded_cells(cells: Seq<Option<u8>>) -> Result<Seq<u8>, ReedSolomonError> {
    decoded_cell_blocks(cells, rs::ecc_blocks(cells.len() as int))
}

/// Every block of the cells is within reach of the corresponding block of
/// `payload`.
#[verifier::opaque]
pub open spec fn recoverable_cells(payload: Seq<u8>, cells: Seq<Option<u8>>) -> bool {
    rs::recoverable(payload, filled(cells), gaps(cells))
}

/// Each block decodes to the data of a codeword that it is within reach of.
#[verifier::opaque]
pub open spec fn all_reach(cells: Seq<Option<u8>>) -> bool {
    forall|k: int|
        0 <= k < rs::ecc_blocks(cells.len() as int) ==> rs::reach_holds(
            filled(#[trigger] cell_block(cells, k)),
            block_gaps(cell_block(cells, k)),
        )
}

/// Some block is within reach of no codeword.
#[verifier::opaque]
pub open spec fn hopeless(cells: Seq<Option<u8>>) -> bool {
    exists|k: int|
        0 <= k < rs::ecc_blocks(cells.len() as int) && rs::beyond_reach(
            filled(#[trigger] cell_block(cells, k)),
            block_gaps(cell_block(cells, k)),
        )
}

/// Some block has lost more bytes than its parity bytes repair.
pub open spec fn starved(cells: Seq<Option<u8>>) -> bool {
    exists|k: int|
        0 <= k < rs::ecc_blocks(cells.len() as int) && block_gaps(
            #[trigger] cell_block(cells, k),
        ).len() > RS_ECC_SYMBOLS
}

/// The cells that a buffer and its marks of what has arrived stand for.
pub open spec fn marked(buf: Seq<u8>, seen: Seq<bool>) -> Seq<Option<u8>> {
    Seq::new(
        buf.len(),
        |i: int|
            if seen[i] {
                Some(buf[i])
            } else {
                None
            },
    )
}

/// Cells that all hold a byte.
pub open spec fn known(bytes: Seq<u8>) -> Seq<Option<u8>> {
    Seq::new(bytes.len(), |i: int| Some(bytes[i]))
}

/// The gaps are all the empty cells and nothing else, from the first to the last.
pub proof fn theorem_gaps(cells: Seq<Option<u8>>)
    requires
        cells.len() <= usize::MAX,
    ensures
        forall|i: int, j: int|
            0 <= i < j < gaps(cells).len() ==> #[trigger] gaps(cells)[i] < #[trigger] gaps(cells)[j],
        forall|j: int|
            0 <= j < gaps(cells).len() ==> #[trigger] gaps(cells)[j] < cells.len()
                && cells[gaps(cells)[j] as int] is None,
        forall|i: int|
            0 <= i < cells.len() && (#[trigger] cells[i]) is None ==> gaps(cells).contains(
                i as usize,
            ),
        cells.len() <= 255 ==> block_gaps(cells).len() == gaps(cells).len() && forall|j: int|
            0 <= j < gaps(cells).len() ==> #[trigger] block_gaps(cells)[j] == gaps(cells)[j],
{
    lemma_gaps_upto(cells, cells.len());
}

/// The gaps among the first cells.
proof fn lemma_gaps_upto(cells: Seq<Option<u8>>, n: nat)
    requires
        n <= cells.len() <= usize::MAX,
    ensures
        ({
            let all = gaps_upto(cells, n);
            &&& forall|i: int, j: int| 0 <= i < j < all.len() ==> #[trigger] all[i] < #[trigger] all[j]
            &&& forall|j: int|
                0 <= j < all.len() ==> #[trigger] all[j] < n && cells[all[j] as int] is None
            &&& forall|i: int|
                0 <= i < n && (#[trigger] cells[i]) is None ==> all.contains(i as usize)
            &&& cells.len() <= 255 ==> block_gaps_upto(cells, n).len() == all.len() && forall|j: int|
                0 <= j < all.len() ==> #[trigger] block_gaps_upto(cells, n)[j] == all[j]
        }),
    decreases n,
{
    if n > 0 {
        lemma_gaps_upto(cells, (n - 1) as nat);
        let rest = gaps_upto(cells, (n - 1) as nat);
        let all = gaps_upto(cells, n);
        assert forall|i: int| 0 <= i < n && (#[trigger] cells[i]) is None implies all.contains(
            i as usize,
        ) by {
            if i == n - 1 {
                assert(all[all.len() - 1] == i as usize);
            } else {
                let w = choose|w: int| 0 <= w < rest.len() && rest[w] == i as usize;
                assert(rest.contains(i as usize));
                assert(all[w] == i as usize);
            }
        }
    }
}

/// Cells that fill no more than a block are decoded as one block, with its gaps for
/// erasures.
pub proof fn theorem_one_block(cells: Seq<Option<u8>>)
    requires
        0 < cells.len() <= 255,
    ensures
        decoded_cells(cells) == rs::block_data(filled(cells), block_gaps(cells)),
        decoded_cells(Seq::empty()) == Ok::<Seq<u8>, ReedSolomonError>(Seq::empty()),
{
    reveal(decoded_cells);
    lemma_no_cells();
    let len = cells.len() as int;
    assert(rs::ecc_blocks(len) == 1);
    chunks::lemma_chunk_bounds(len, RS_BLOCK_SIZE as int, 0);
    assert(cell_block(cells, 0) =~= cells);
    reveal_with_fuel(decoded_cell_blocks, 2);
    let none = Seq::<u8>::empty();
    let d = rs::block_data(filled(cells), block_gaps(cells));
    if d is Ok {
        assert(none + d->Ok_0 =~= d->Ok_0);
    }
}

/// What a buffer and its marks stand for, and what cells look like with their gaps
/// filled: place by place.
pub proof fn theorem_cells(buf: Seq<u8>, seen: Seq<bool>, cells: Seq<Option<u8>>, i: int)
    ensures
        marked(buf, seen).len() == buf.len(),
        0 <= i < buf.len() ==> marked(buf, seen)[i] == (if seen[i] {
            Some(buf[i])
        } else {
            None
        }),
        filled(cells).len() == cells.len(),
        0 <= i < cells.len() ==> filled(cells)[i] == (if cells[i] is Some {
            cells[i]->0
        } else {
            0
        }),
        known(buf).len() == buf.len(),
        0 <= i < buf.len() ==> known(buf)[i] == Some(buf[i]),
{
}

/// The gaps inside a block are the gaps of that block.
proof fn lemma_gaps_in_block(cells: Seq<Option<u8>>, start: int, end: int, n: nat)
    requires
        0 <= start <= end <= cells.len(),
        end - start <= RS_BLOCK_SIZE,
        n <= cells.len() <= usize::MAX,
    ensures
        rs::positions_in(gaps_upto(cells, n), start, end) == block_gaps_upto(
            cells.subrange(start, end),
            (if n <= start {
                0
            } else if n <= end {
                n - start
            } else {
                end - start
            }) as nat,
        ),
    decreases n,
{
    if n > 0 {
        lemma_gaps_in_block(cells, start, end, (n - 1) as nat);
        let all = gaps_upto(cells, n);
        let rest = gaps_upto(cells, (n - 1) as nat);
        if cells[n - 1] is None {
            assert(all.drop_last() =~= rest);
        }
        if start < n <= end {
            assert(cells.subrange(start, end)[n - 1 - start] == cells[n - 1]);
        }
    }
}

/// Handing the gaps to the decoder as erasures decodes the cells block by block.
pub proof fn lemma_decoded_cells(cells: Seq<Option<u8>>, n: nat)
    requires
        cells.len() <= usize::MAX,
        n <= rs::ecc_blocks(cells.len() as int),
    ensures
        rs::decoded_blocks(filled(cells), gaps(cells), n) == decoded_cell_blocks(cells, n),
        forall|k: int|
            0 <= k < n ==> chunks::chunk(filled(cells), RS_BLOCK_SIZE as int, k) == filled(
                #[trigger] cell_block(cells, k),
            ) && rs::block_erasures(filled(cells), gaps(cells), k) == block_gaps(
                cell_block(cells, k),
            ),
    decreases n,
{
    if n > 0 {
        lemma_decoded_cells(cells, (n - 1) as nat);
        let k = n - 1;
        chunks::lemma_chunk_bounds(cells.len() as int, RS_BLOCK_SIZE as int, k);
        let start = k * RS_BLOCK_SIZE;
        let end = chunks::chunk_end(cells.len() as int, RS_BLOCK_SIZE as int, k);
        lemma_gaps_in_block(cells, start, end, cells.len());
        assert(chunks::chunk(filled(cells), RS_BLOCK_SIZE as int, k) =~= filled(
            cell_block(cells, k),
        ));
    }
}

/// The blocks of `a + b`, with `a` made of whole blocks, are those of `a` and
/// then those of `b`.
pub proof fn lemma_cell_block_append(a: Seq<Option<u8>>, b: Seq<Option<u8>>, k: int)
    requires
        a.len() % RS_BLOCK_SIZE as nat == 0,
    ensures
        ({
            let m = (a.len() / RS_BLOCK_SIZE as nat) as int;
            &&& rs::ecc_blocks(a.len() as int) == m
            &&& rs::ecc_blocks((a + b).len() as int) == m + rs::ecc_blocks(b.len() as int)
            &&& 0 <= k < m ==> cell_block(a + b, k) == cell_block(a, k)
            &&& m <= k < m + rs::ecc_blocks(b.len() as int) ==> cell_block(a + b, k) == cell_block(
                b,
                k - m,
            )
        }),
{
    let m = (a.len() / RS_BLOCK_SIZE as nat) as int;
    let s = a + b;
    chunks::lemma_chunk_count_add(m, 0, RS_BLOCK_SIZE as int);
    chunks::lemma_chunk_count_add(m, b.len() as int, RS_BLOCK_SIZE as int);
    assert(a.len() == m * RS_BLOCK_SIZE);
    if 0 <= k < m {
        chunks::lemma_chunk_bounds(s.len() as int, RS_BLOCK_SIZE as int, k);
        assert(cell_block(s, k) =~= cell_block(a, k));
    } else if m <= k < m + rs::ecc_blocks(b.len() as int) {
        chunks::lemma_chunk_bounds(s.len() as int, RS_BLOCK_SIZE as int, k);
        chunks::lemma_chunk_bounds(b.len() as int, RS_BLOCK_SIZE as int, k - m);
        assert(cell_block(s, k) =~= cell_block(b, k - m));
    }
}

/// The first blocks of `a + b`, with `a` made of whole blocks, decode to what
/// those of `a` and then those of `b` decode to.
proof fn lemma_decoded_cell_blocks_append(a: Seq<Option<u8>>, b: Seq<Option<u8>>, n: nat)
    requires
        a.len() % RS_BLOCK_SIZE as nat == 0,
        n <= rs::ecc_blocks((a + b).len() as int),
    ensures
        ({
            let m = a.len() / RS_BLOCK_SIZE as nat;
            &&& n <= m ==> decoded_cell_blocks(a + b, n) == decoded_cell_blocks(a, n)
            &&& n >= m ==> decoded_cell_blocks(a + b, n) == joined(
                decoded_cell_blocks(a, m),
                decoded_cell_blocks(b, (n - m) as nat),
            )
        }),
    decreases n,
{
    let m = a.len() / RS_BLOCK_SIZE as nat;
    lemma_cell_block_append(a, b, n - 1);
    if n == 0 {
        if m == 0 {
            assert(Seq::<u8>::empty() + Seq::<u8>::empty() =~= Seq::<u8>::empty());
        }
    } else {
        lemma_decoded_cell_blocks_append(a, b, (n - 1) as nat);
        if n == m {
            match decoded_cell_blocks(a, m) {
                Ok(x) => {
                    assert(x + Seq::<u8>::empty() =~= x);
                },
                Err(_) => {},
            }
        } else if n > m {
            match (
                decoded_cell_blocks(a, m),
                decoded_cell_blocks(b, (n - 1 - m) as nat),
                rs::block_data(
                    filled(cell_block(b, n - 1 - m)),
                    block_gaps(cell_block(b, n - 1 - m)),
                ),
            ) {
                (Ok(x), Ok(y), Ok(z)) => {
                    assert((x + y) + z =~= x + (y + z));
                },
                _ => {},
            }
        }
    }
}

/// Decoding is block by block: cut anywhere between whole blocks, cells decode
/// to what the two parts decode to, one after the other.
pub proof fn theorem_decoded_cells_append(a: Seq<Option<u8>>, b: Seq<Option<u8>>)
    requires
        a.len() % RS_BLOCK_SIZE as nat == 0,
    ensures
        decoded_cells(a + b) == joined(decoded_cells(a), decoded_cells(b)),
{
    reveal(decoded_cells);
    lemma_cell_block_append(a, b, 0);
    lemma_decoded_cell_blocks_append(a, b, rs::ecc_blocks((a + b).len() as int));
}

/// No cells decode to no bytes.
pub proof fn lemma_no_cells()
    ensures
        decoded_cells(Seq::empty()) == Ok::<Seq<u8>, ReedSolomonError>(Seq::empty()),
        all_reach(Seq::empty()),
{
    reveal(decoded_cells);
    reveal(all_reach);
}

/// What holds of the blocks of two parts holds of the blocks of the whole.
pub proof fn lemma_all_reach_append(a: Seq<Option<u8>>, b: Seq<Option<u8>>)
    requires
        a.len() % RS_BLOCK_SIZE as nat == 0,
        all_reach(a),
        all_reach(b),
    ensures
        all_reach(a + b),
{
    reveal(all_reach);
    let m = (a.len() / RS_BLOCK_SIZE as nat) as int;
    assert forall|k: int| 0 <= k < rs::ecc_blocks((a + b).len() as int) implies rs::reach_holds(
        filled(#[trigger] cell_block(a + b, k)),
        block_gaps(cell_block(a + b, k)),
    ) by {
        lemma_cell_block_append(a, b, k);
        if k < m {
            assert(cell_block(a + b, k) == cell_block(a, k));
        } else {
            assert(cell_block(a + b, k) == cell_block(b, k - m));
        }
    }
}

/// Cells within reach of a payload decode to that payload.
pub proof fn lemma_recoverable_cells(payload: Seq<u8>, cells: Seq<Option<u8>>)
    requires
        cells.len() <= usize::MAX,
        all_reach(cells),
        recoverable_cells(payload, cells),
    ensures
        decoded_cells(cells) == Ok::<Seq<u8>, ReedSolomonError>(payload),
{
    reveal(decoded_cells);
    reveal(all_reach);
    reveal(recoverable_cells);
    let n = rs::ecc_blocks(cells.len() as int);
    lemma_decoded_cells(cells, n);
    assert forall|k: int| 0 <= k < n implies rs::reach_holds(
        #[trigger] chunks::chunk(filled(cells), RS_BLOCK_SIZE as int, k),
        rs::block_erasures(filled(cells), gaps(cells), k),
    ) by {
        assert(rs::reach_holds(filled(cell_block(cells, k)), block_gaps(cell_block(cells, k))));
    }
    rs::lemma_recoverable_prefix(payload, filled(cells), gaps(cells), n);
}

/// Position `i` of a block is among its gaps exactly where its cell is empty.
proof fn lemma_block_gap(cells: Seq<Option<u8>>, n: nat, i: int)
    requires
        0 <= i < n <= cells.len() <= RS_BLOCK_SIZE,
    ensures
        cells[i] is None ==> block_gaps_upto(cells, n).contains(i as u8),
    decreases n,
{
    let all = block_gaps_upto(cells, n);
    let rest = block_gaps_upto(cells, (n - 1) as nat);
    if cells[i] is None {
        if i == n - 1 {
            assert(all[all.len() - 1] == i as u8);
        } else {
            lemma_block_gap(cells, (n - 1) as nat, i);
            let w = choose|w: int| 0 <= w < rest.len() && rest[w] == i as u8;
            assert(all[w] == rest[w]);
        }
    }
}

/// Where every cell of a block that arrived is right, no byte counts as wrong.
pub proof fn lemma_only_gaps(word: Seq<u8>, cells: Seq<Option<u8>>, n: nat)
    requires
        n <= cells.len() <= RS_BLOCK_SIZE,
        word.len() == cells.len(),
        forall|i: int| 0 <= i < cells.len() && cells[i] is Some ==> #[trigger] cells[i] == Some(word[i]),
    ensures
        rs::wrong_bytes(word, filled(cells), block_gaps(cells), n) == 0,
    decreases n,
{
    if n > 0 {
        lemma_only_gaps(word, cells, (n - 1) as nat);
        if cells[n - 1] is None {
            lemma_block_gap(cells, cells.len(), n - 1);
        } else {
            assert(cells[n - 1] == Some(word[n - 1]));
        }
    }
}

/// Losses alone, up to 32 bytes in each block, are within reach: whatever part
/// of a payload's ECC stream did not arrive, the payload can be recovered.
pub proof fn theorem_losses_recoverable(payload: Seq<u8>, cells: Seq<Option<u8>>)
    requires
        cells.len() <= usize::MAX,
        cells.len() == rs::ecc_stream(payload).len(),
        forall|p: int|
            0 <= p < cells.len() && cells[p] is Some ==> #[trigger] cells[p] == Some(
                rs::ecc_stream(payload)[p],
            ),
        forall|k: int|
            0 <= k < rs::ecc_blocks(cells.len() as int) ==> block_gaps(
                #[trigger] cell_block(cells, k),
            ).len() <= RS_ECC_SYMBOLS,
    ensures
        recoverable_cells(payload, cells),
{
    reveal(recoverable_cells);
    let stream = rs::ecc_stream(payload);
    rs::lemma_ecc_stream_len(payload);
    rs::lemma_block_counts(payload.len() as int);
    lemma_decoded_cells(cells, rs::ecc_blocks(cells.len() as int));
    assert forall|k: int| 0 <= k < rs::data_blocks(payload.len() as int) implies rs::within_reach(
        #[trigger] chunks::chunk(payload, RS_DATA_BYTES as int, k),
        chunks::chunk(filled(cells), RS_BLOCK_SIZE as int, k),
        rs::block_erasures(filled(cells), gaps(cells), k),
        RS_ECC_SYMBOLS as nat,
    ) by {
        let block = cell_block(cells, k);
        rs::lemma_ecc_stream_block(payload, k);
        chunks::lemma_chunk_bounds(cells.len() as int, RS_BLOCK_SIZE as int, k);
        let word = chunks::chunk(stream, RS_BLOCK_SIZE as int, k);
        assert forall|i: int| 0 <= i < block.len() && block[i] is Some implies #[trigger] block[i]
            == Some(word[i]) by {
            assert(cells[k * RS_BLOCK_SIZE + i] == block[i]);
        }
        lemma_only_gaps(word, block, block.len());
    }
}

/// The complete ECC stream of a payload is within reach of it.
pub proof fn theorem_complete_stream_recoverable(payload: Seq<u8>)
    ensures
        recoverable_cells(payload, known(rs::ecc_stream(payload))),
{
    reveal(recoverable_cells);
    let cells = known(rs::ecc_stream(payload));
    assert(filled(cells) =~= rs::ecc_stream(payload));
    lemma_no_gaps(cells, cells.len());
    rs::theorem_clean_stream_recoverable(payload);
}

/// Where every cell holds a byte there are no gaps.
proof fn lemma_no_gaps(cells: Seq<Option<u8>>, n: nat)
    requires
        n <= cells.len(),
        forall|i: int| 0 <= i < cells.len() ==> (#[trigger] cells[i]) is Some,
    ensures
        gaps_upto(cells, n) == Seq::<usize>::empty(),
    decreases n,
{
    if n > 0 {
        lemma_no_gaps(cells, (n - 1) as nat);
    }
}

/// A block has as many gaps as places where nothing arrived.
proof fn lemma_gaps_within(cells: Seq<Option<u8>>, n: nat, base: int, lost: Set<int>)
    requires
        n <= cells.len(),
        lost.finite(),
    ensures
        (forall|i: int| 0 <= i < n && (#[trigger] cells[i]) is None ==> lost.contains(base + i))
            ==> block_gaps_upto(cells, n).len() <= lost.len(),
        (forall|p: int| #[trigger]
            lost.contains(p) ==> base <= p < base + n && cells[p - base] is None)
            ==> block_gaps_upto(cells, n).len() >= lost.len(),
    decreases n,
{
    if n > 0 {
        let i = n - 1;
        let rest = lost.remove(base + i);
        if cells[i] is None {
            lemma_gaps_within(cells, i as nat, base, rest);
            assert(lost.len() <= rest.len() + 1);
        } else {
            lemma_gaps_within(cells, i as nat, base, lost);
        }
    } else {
        if forall|p: int| #[trigger] lost.contains(p) ==> base <= p < base + n && cells[p - base]
            is None {
            assert(lost =~= Set::empty());
        }
    }
}

/// Losses and errors together: cells in which, in every block of 255, `s` places are
/// empty and `e` bytes are wrong, with `2 * e + s` no more than 32, can be recovered,
/// whichever they are.
pub proof fn theorem_damaged_cells_recoverable(
    payload: Seq<u8>,
    cells: Seq<Option<u8>>,
    wrong: spec_fn(int) -> Set<int>,
    lost: spec_fn(int) -> Set<int>,
)
    requires
        cells.len() == rs::ecc_stream(payload).len(),
        cells.len() <= usize::MAX,
        forall|k: int|
            #![trigger wrong(k)]
            #![trigger lost(k)]
            wrong(k).finite() && lost(k).finite() && 2 * wrong(k).len() + lost(k).len() <= 32,
        forall|p: int|
            0 <= p < cells.len() ==> match #[trigger] cells[p] {
                Some(v) => v == rs::ecc_stream(payload)[p] || wrong(p / 255).contains(p),
                None => lost(p / 255).contains(p),
            },
    ensures
        recoverable_cells(payload, cells),
{
    reveal(recoverable_cells);
    let stream = rs::ecc_stream(payload);
    rs::lemma_ecc_stream_len(payload);
    rs::lemma_block_counts(payload.len() as int);
    lemma_decoded_cells(cells, rs::ecc_blocks(cells.len() as int));
    assert forall|k: int| 0 <= k < rs::data_blocks(payload.len() as int) implies rs::within_reach(
        #[trigger] chunks::chunk(payload, RS_DATA_BYTES as int, k),
        chunks::chunk(filled(cells), RS_BLOCK_SIZE as int, k),
        rs::block_erasures(filled(cells), gaps(cells), k),
        RS_ECC_SYMBOLS as nat,
    ) by {
        let block = cell_block(cells, k);
        rs::lemma_ecc_stream_block(payload, k);
        chunks::lemma_chunk_bounds(cells.len() as int, RS_BLOCK_SIZE as int, k);
        let word = chunks::chunk(stream, RS_BLOCK_SIZE as int, k);
        let start = 255 * k;
        assert forall|i: int| 0 <= i < block.len() && (#[trigger] block[i]) is None implies lost(
            k,
        ).contains(start + i) by {
            assert(cells[start + i] == block[i]);
            assert((start + i) / 255 == k);
        }
        lemma_gaps_within(block, block.len(), start, lost(k));
        assert forall|i: int|
            0 <= i < block.len() && #[trigger] word[i] != filled(block)[i] && !block_gaps(
                block,
            ).contains(i as u8) implies wrong(k).contains(start + i) by {
            lemma_block_gap(block, block.len(), i);
            assert(cells[start + i] == block[i]);
            assert(stream[start + i] == word[i]);
            assert((start + i) / 255 == k);
        }
        rs::lemma_wrong_within(word, filled(block), block_gaps(block), block.len(), start, wrong(k));
        assert(wrong(k).finite());
    }
}

/// A block of 255 in which more than 32 places are empty is never guessed at.
pub proof fn theorem_lost_block_fails(cells: Seq<Option<u8>>, k: int, lost: Set<int>)
    requires
        0 <= k,
        lost.finite(),
        lost.len() > 32,
        forall|p: int| #[trigger]
            lost.contains(p) ==> 255 * k <= p < 255 * k + 255 && p < cells.len() && cells[p] is None,
    ensures
        decoded_cells(cells) is Err,
{
    let len = cells.len() as int;
    assert(exists|p: int| lost.contains(p)) by {
        if forall|p: int| !lost.contains(p) {
            assert(lost =~= Set::empty());
        }
    }
    let p = choose|p: int| lost.contains(p);
    assert(k < rs::ecc_blocks(len)) by {
        vstd::arithmetic::div_mod::lemma_fundamental_div_mod(len + 254, 255);
    }
    chunks::lemma_chunk_bounds(len, RS_BLOCK_SIZE as int, k);
    let block = cell_block(cells, k);
    assert forall|p: int| #[trigger] lost.contains(p) implies 255 * k <= p < 255 * k + block.len()
        && block[p - 255 * k] is None by {
        assert(block[p - 255 * k] == cells[p]);
    }
    lemma_gaps_within(block, block.len(), 255 * k, lost);
    theorem_starved_fails(cells);
}

/// Where every cell of a block holds a byte it has no gaps.
pub proof fn lemma_no_block_gaps(cells: Seq<Option<u8>>, n: nat)
    requires
        n <= cells.len(),
        forall|i: int| 0 <= i < cells.len() ==> (#[trigger] cells[i]) is Some,
    ensures
        block_gaps_upto(cells, n).len() == 0,
    decreases n,
{
    if n > 0 {
        lemma_no_block_gaps(cells, (n - 1) as nat);
    }
}

/// More than 32 missing bytes in one of the first blocks are a failure.
proof fn lemma_starved_block(cells: Seq<Option<u8>>, k: int, n: nat)
    requires
        0 <= k < n,
        block_gaps(cell_block(cells, k)).len() > RS_ECC_SYMBOLS,
    ensures
        decoded_cell_blocks(cells, n) is Err,
    decreases n,
{
    if k < n - 1 {
        lemma_starved_block(cells, k, (n - 1) as nat);
    }
}

/// A block that has lost more than 32 bytes is never guessed at: the cells do
/// not decode.
pub proof fn theorem_starved_fails(cells: Seq<Option<u8>>)
    requires
        starved(cells),
    ensures
        decoded_cells(cells) is Err,
{
    reveal(decoded_cells);
    let n = rs::ecc_blocks(cells.len() as int);
    let k = choose|k: int|
        0 <= k < n && block_gaps(#[trigger] cell_block(cells, k)).len() > RS_ECC_SYMBOLS;
    lemma_starved_block(cells, k, n);
}

/// A hopeless part makes the whole hopeless.
pub proof fn lemma_hopeless_append(a: Seq<Option<u8>>, b: Seq<Option<u8>>)
    requires
        a.len() % RS_BLOCK_SIZE as nat == 0,
        hopeless(a) || hopeless(b),
    ensures
        hopeless(a + b),
{
    reveal(hopeless);
    let m = (a.len() / RS_BLOCK_SIZE as nat) as int;
    if hopeless(a) {
        let k = choose|k: int|
            0 <= k < rs::ecc_blocks(a.len() as int) && rs::beyond_reach(
                filled(#[trigger] cell_block(a, k)),
                block_gaps(cell_block(a, k)),
            );
        lemma_cell_block_append(a, b, k);
        assert(cell_block(a + b, k) == cell_block(a, k));
    } else {
        let k = choose|k: int|
            0 <= k < rs::ecc_blocks(b.len() as int) && rs::beyond_reach(
                filled(#[trigger] cell_block(b, k)),
                block_gaps(cell_block(b, k)),
            );
        lemma_cell_block_append(a, b, m + k);
        assert(cell_block(a + b, m + k) == cell_block(b, k));
    }
}

/// No payload is within reach of hopeless cells.
pub proof fn lemma_hopeless(payload: Seq<u8>, cells: Seq<Option<u8>>)
    requires
        cells.len() <= usize::MAX,
        hopeless(cells),
    ensures
        !recoverable_cells(payload, cells),
{
    reveal(hopeless);
    reveal(recoverable_cells);
    if recoverable_cells(payload, cells) {
        let k = choose|k: int|
            0 <= k < rs::ecc_blocks(cells.len() as int) && rs::beyond_reach(
                filled(#[trigger] cell_block(cells, k)),
                block_gaps(cell_block(cells, k)),
            );
        lemma_decoded_cells(cells, rs::ecc_blocks(cells.len() as int));
        rs::lemma_block_counts(payload.len() as int);
        chunks::lemma_chunk_bounds(payload.len() as int, RS_DATA_BYTES as int, k);
        let part = chunks::chunk(payload, RS_DATA_BYTES as int, k);
        rs::lemma_reach_unfilled(
            part,
            filled(cell_block(cells, k)),
            block_gaps(cell_block(cells, k)),
        );
    }
}

/// Puts `piece` down at `at` and marks it as arrived.
pub fn put(buf: &mut Vec<u8>, seen: &mut Vec<bool>, at: usize, piece: &[u8])
    requires
        old(buf)@.len() == old(seen)@.len(),
        at + piece.len() <= old(buf).len(),
    ensures
        final(buf)@.len() == old(buf)@.len(),
        final(seen)@.len() == old(seen)@.len(),
        forall|j: int|
            0 <= j < old(buf)@.len() ==> #[trigger] final(buf)@[j] == (if at <= j < at
                + piece@.len() {
                piece@[j - at]
            } else {
                old(buf)@[j]
            }),
        forall|j: int|
            0 <= j < old(buf)@.len() ==> #[trigger] final(seen)@[j] == (at <= j < at + piece@.len()
                || old(seen)@[j]),
{
    let mut i: usize = 0;
    while i < piece.len()
        invariant
            0 <= i <= piece@.len(),
            at + piece.len() <= buf.len(),
            buf@.len() == old(buf)@.len(),
            seen@.len() == old(seen)@.len(),
            seen@.len() == buf@.len(),
            forall|j: int|
                0 <= j < buf@.len() ==> #[trigger] buf@[j] == (if at <= j < at + i {
                    piece@[j - at]
                } else {
                    old(buf)@[j]
                }),
            forall|j: int|
                0 <= j < buf@.len() ==> #[trigger] seen@[j] == (at <= j < at + i || old(seen)@[j]),
        decreases piece@.len() - i,
    {
        buf.set(at + i, piece[i]);
        seen.set(at + i, true);
        i = i + 1;
    }
}

/// Decodes the cells that `buf` and `seen` stand for. What has not arrived is
/// zero in `buf`.
pub fn decode_cells(buf: &[u8], seen: &[bool]) -> (r: Result<Vec<u8>, ReedSolomonError>)
    requires
        seen@.len() == buf@.len(),
        forall|i: int| 0 <= i < buf@.len() && !seen@[i] ==> #[trigger] buf@[i] == 0,
    ensures
        rs::outcome(r) == decoded_cells(marked(buf@, seen@)),
        r is Ok ==> all_reach(marked(buf@, seen@)),
        r is Ok ==> r->Ok_0@.len() + RS_ECC_SYMBOLS * rs::ecc_blocks(buf@.len() as int)
            == buf@.len(),
        r is Err ==> hopeless(marked(buf@, seen@)),
        starved(marked(buf@, seen@)) ==> r is Err,
{
    proof {
        reveal(decoded_cells);
        reveal(all_reach);
        reveal(hopeless);
    }
    let ghost cells = marked(buf@, seen@);
    let mut erasures: Vec<usize> = Vec::new();
    let mut i: usize = 0;
    while i < buf.len()
        invariant
            0 <= i <= buf@.len(),
            seen@.len() == buf@.len(),
            cells == marked(buf@, seen@),
            erasures@ == gaps_upto(cells, i as nat),
        decreases buf@.len() - i,
    {
        if !seen[i] {
            erasures.push(i);
        }
        i = i + 1;
    }
    let ghost n = rs::ecc_blocks(buf@.len() as int);
    proof {
        assert(buf.len() <= usize::MAX);
        lemma_decoded_cells(cells, n);
        assert(filled(cells) =~= buf@);
    }
    let list: Option<&[usize]> = if erasures.is_empty() {
        None
    } else {
        Some(erasures.as_slice())
    };
    assert(rs::erasure_list(list) =~= gaps(cells));
    let r: Result<Vec<u8>, ReedSolomonError> = rs::rs_decode(buf, list);
    proof {
        if starved(cells) {
            theorem_starved_fails(cells);
        }
        if r is Ok {
            assert forall|k: int| 0 <= k < n implies rs::reach_holds(
                filled(#[trigger] cell_block(cells, k)),
                block_gaps(cell_block(cells, k)),
            ) by {
                assert(chunks::chunk(filled(cells), RS_BLOCK_SIZE as int, k) == filled(
                    cell_block(cells, k),
                ));
            }
        } else {
            let k = choose|k: int|
                0 <= k < n && rs::beyond_reach(
                    #[trigger] chunks::chunk(buf@, RS_BLOCK_SIZE as int, k),
                    rs::block_erasures(buf@, gaps(cells), k),
                );
            assert(rs::beyond_reach(
                filled(cell_block(cells, k)),
                block_gaps(cell_block(cells, k)),
            ));
        }
    }
    r
}

} // verus!
