//! Reed-Solomon coding over GF(2^8): 32 parity bytes behind up to 223 data
//! bytes, erasures, and blocks coded in parallel.

use vstd::arithmetic::div_mod;
use vstd::prelude::*;

use crate::chunks;
use crate::constants::{PARALLEL_RS_MIN_BLOCKS, RS_BLOCK_SIZE, RS_DATA_BYTES, RS_ECC_SYMBOLS};

verus! {

// ---------------------------------------------------------------------------
// The block code
// ---------------------------------------------------------------------------

/// Parity byte `i` that `reed_solomon::Encoder` computes for `data` where it was
/// made for `ecc_len` parity bytes.
pub uninterp spec fn rs_parity_byte(data: Seq<u8>, ecc_len: nat, i: int) -> u8;

/// What `reed_solomon::Decoder`, made for `ecc_len` parity bytes, recovers from
/// `block` with the given positions erased; `None` where it gives up.
pub uninterp spec fn rs_corrected(block: Seq<u8>, erased: Seq<u8>, ecc_len: nat) -> Option<Seq<u8>>;

/// The error that `reed_solomon::Decoder` reports.
#[verifier::external_type_specification]
#[verifier::external_body]
pub struct ExDecoderError(reed_solomon::DecoderError);

/// The data with its parity bytes behind it.
pub open spec fn codeword(data: Seq<u8>, ecc_len: nat) -> Seq<u8> {
    data + Seq::new(ecc_len, |i: int| rs_parity_byte(data, ecc_len, i))
}

/// How many of the first `n` bytes differ between `a` and `b`, erased positions
/// not counted.
pub open spec fn wrong_bytes(a: Seq<u8>, b: Seq<u8>, erased: Seq<u8>, n: nat) -> nat
    decreases n,
{
    if n == 0 {
        0
    } else {
        wrong_bytes(a, b, erased, (n - 1) as nat) + if a[n - 1] != b[n - 1] && !erased.contains(
            (n - 1) as u8,
        ) {
            1nat
        } else {
            0nat
        }
    }
}

/// `block` is the codeword of `data` but for `e` wrong bytes and `s` erased
/// ones, with `2 * e + s` no more than the number of parity bytes.
pub open spec fn within_reach(
    data: Seq<u8>,
    block: Seq<u8>,
    erased: Seq<u8>,
    ecc_len: nat,
) -> bool {
    &&& block.len() == data.len() + ecc_len
    &&& 2 * wrong_bytes(codeword(data, ecc_len), block, erased, block.len()) + erased.len()
        <= ecc_len
}

/// `word` with zeros behind it, `len` bytes in all.
pub open spec fn zero_filled(word: Seq<u8>, len: nat) -> Seq<u8> {
    Seq::new(
        len,
        |i: int|
            if i < word.len() {
                word[i]
            } else {
                0u8
            },
    )
}

/// Like [`within_reach`], with `block` made of the codeword of `data` and zeros
/// behind it, if any.
pub open spec fn within_reach_filled(
    data: Seq<u8>,
    block: Seq<u8>,
    erased: Seq<u8>,
    ecc_len: nat,
) -> bool {
    &&& 0 < data.len()
    &&& block.len() >= data.len() + ecc_len
    &&& 2 * wrong_bytes(
        zero_filled(codeword(data, ecc_len), block.len()),
        block,
        erased,
        block.len(),
    ) + erased.len() <= ecc_len
}

/// What a block of `len` bytes that is made of the codeword of `data` and zeros
/// behind it decodes to: all but its last `ecc_len` bytes.
pub open spec fn filled_data(data: Seq<u8>, len: nat, ecc_len: nat) -> Seq<u8> {
    zero_filled(codeword(data, ecc_len), len).take(len - ecc_len)
}

/// The bytes of a successful outcome.
pub open spec fn recovered<E>(outcome: Result<Vec<u8>, E>) -> Option<Seq<u8>> {
    match outcome {
        Ok(v) => Some(v@),
        Err(_) => None,
    }
}

/// Calls `reed_solomon::Encoder::new` and `encode`. Claimed is that the block is
/// the data followed by `ecc_len` parity bytes, which depend on the data and on
/// `ecc_len` alone.
#[verifier::external_body]
fn encoder_encode(data: &[u8], ecc_len: usize) -> (block: Vec<u8>)
    requires
        ecc_len == RS_ECC_SYMBOLS,
        data@.len() + ecc_len <= 255,
    ensures
        block@ == data@ + Seq::new(
            ecc_len as nat,
            |i: int| rs_parity_byte(data@, ecc_len as nat, i),
        ),
{
    reed_solomon::Encoder::new(ecc_len).encode(data)[..].to_vec()
}

/// Calls `reed_solomon::Decoder::new` and `correct` with no erased position, and
/// copies the data part of the corrected block. Claimed is that the outcome
/// depends on the block and on `ecc_len` alone; that recovered data has the
/// length of the block without its parity bytes; and that a block within reach
/// of a codeword, or of one with zeros behind it, is corrected to it. A codeword
/// with zeros behind it has zero syndromes too, being the product of the
/// codeword's polynomial and a power of `x`, and the decoder corrects towards
/// zero syndromes. What becomes of other blocks is not claimed.
#[verifier::external_body]
fn decoder_correct(block: &[u8], ecc_len: usize) -> (outcome: Result<
    Vec<u8>,
    reed_solomon::DecoderError,
>)
    requires
        ecc_len == RS_ECC_SYMBOLS,
        ecc_len < block@.len() <= 255,
    ensures
        recovered(outcome) == rs_corrected(block@, Seq::empty(), ecc_len as nat),
        outcome is Ok ==> outcome->Ok_0@.len() == block@.len() - ecc_len,
        forall|d: Seq<u8>|
            #[trigger] within_reach_filled(d, block@, Seq::empty(), ecc_len as nat)
                ==> recovered(outcome) == Some(filled_data(d, block@.len(), ecc_len as nat)),
{
    reed_solomon::Decoder::new(ecc_len).correct(block, None).map(|b| b.data().to_vec())
}

/// Calls `reed_solomon::Decoder::new` and `correct` with the given positions
/// erased, and copies the data part of the corrected block. The call runs as a
/// job of a `rayon::ThreadPool` of its own. On a block that is within reach of no
/// codeword the decoder can come to place an error on an erased position: its
/// field division then divides by zero, which ends in `TooManyErrors`, or, in a
/// build with debug assertions, in a panic. The pool hands that panic to its
/// panic handler, no answer is sent, and the missing answer is `TooManyErrors`
/// too. Where the pool cannot be had, the call is made in place. Claimed is that
/// the outcome depends on the block, the erased positions and `ecc_len` alone;
/// that recovered data has the length of the block without its parity bytes; and
/// that a block within reach of a codeword, or of one with zeros behind it, is
/// corrected to it. What becomes of other blocks is not claimed.
#[verifier::external_body]
fn decoder_correct_erased(block: &[u8], erased: &[u8], ecc_len: usize) -> (outcome: Result<
    Vec<u8>,
    reed_solomon::DecoderError,
>)
    requires
        ecc_len == RS_ECC_SYMBOLS,
        ecc_len < block@.len() <= 255,
        erased@.len() <= ecc_len,
        erased@.no_duplicates(),
        forall|i: int| 0 <= i < erased@.len() ==> (#[trigger] erased@[i]) < block@.len(),
    ensures
        recovered(outcome) == rs_corrected(block@, erased@, ecc_len as nat),
        outcome is Ok ==> outcome->Ok_0@.len() == block@.len() - ecc_len,
        forall|d: Seq<u8>|
            #[trigger] within_reach_filled(d, block@, erased@, ecc_len as nat)
                ==> recovered(outcome) == Some(filled_data(d, block@.len(), ecc_len as nat)),
{
    let (reply, answer) = std::sync::mpsc::channel();
    let (block, erased) = (block.to_vec(), erased.to_vec());
    let job = move || {
        let corrected = reed_solomon::Decoder::new(ecc_len).correct(&block, Some(&erased));
        reply.send(corrected.map(|b| b.data().to_vec())).unwrap_or(())
    };
    match rayon::ThreadPoolBuilder::new().num_threads(1).panic_handler(|_| ()).build() {
        Ok(pool) => pool.spawn(job),
        Err(_) => job(),
    }
    answer.recv().unwrap_or(Err(reed_solomon::DecoderError::TooManyErrors))
}

// ---------------------------------------------------------------------------
// Encoding a stream
// ---------------------------------------------------------------------------

/// The codewords of the first `n` blocks of `data`.
pub open spec fn coded_blocks(data: Seq<u8>, n: nat) -> Seq<u8>
    decreases n,
{
    if n == 0 {
        Seq::empty()
    } else {
        coded_blocks(data, (n - 1) as nat) + codeword(
            chunks::chunk(data, RS_DATA_BYTES as int, n - 1),
            RS_ECC_SYMBOLS as nat,
        )
    }
}

/// Number of Reed-Solomon blocks that `len` payload bytes make.
pub open spec fn data_blocks(len: int) -> nat {
    chunks::chunk_count(len, RS_DATA_BYTES as int) as nat
}

/// The ECC stream of a payload: the codewords of its 223-byte blocks, one after
/// the other.
pub open spec fn ecc_stream(data: Seq<u8>) -> Seq<u8> {
    coded_blocks(data, data_blocks(data.len() as int))
}

/// Length of the ECC stream of `len` payload bytes.
pub open spec fn ecc_len(len: int) -> int {
    len + RS_ECC_SYMBOLS * data_blocks(len)
}

/// The codewords of the first blocks are as long as those blocks and their
/// parity bytes.
pub proof fn lemma_coded_blocks_len(data: Seq<u8>, n: nat)
    requires
        n <= data_blocks(data.len() as int),
    ensures
        n < data_blocks(data.len() as int) ==> coded_blocks(data, n).len() == n * RS_BLOCK_SIZE,
        n == data_blocks(data.len() as int) ==> coded_blocks(data, n).len() == ecc_len(
            data.len() as int,
        ),
    decreases n,
{
    if n > 0 {
        lemma_coded_blocks_len(data, (n - 1) as nat);
        chunks::lemma_chunk_bounds(data.len() as int, RS_DATA_BYTES as int, n - 1);
    }
}

/// The ECC stream has the length that [`ecc_len`] says.
pub proof fn lemma_ecc_stream_len(data: Seq<u8>)
    ensures
        ecc_stream(data).len() == ecc_len(data.len() as int),
{
    lemma_coded_blocks_len(data, data_blocks(data.len() as int));
}

/// The blocks of `a + b`, with `a` made of whole blocks, are those of `a` and
/// then those of `b`.
proof fn lemma_coded_blocks_append(a: Seq<u8>, b: Seq<u8>, n: nat)
    requires
        a.len() % RS_DATA_BYTES as nat == 0,
        n <= data_blocks((a + b).len() as int),
    ensures
        ({
            let m = a.len() / RS_DATA_BYTES as nat;
            &&& data_blocks(a.len() as int) == m
            &&& data_blocks((a + b).len() as int) == m + data_blocks(b.len() as int)
            &&& n <= m ==> coded_blocks(a + b, n) == coded_blocks(a, n)
            &&& n >= m ==> coded_blocks(a + b, n) == coded_blocks(a, m) + coded_blocks(
                b,
                (n - m) as nat,
            )
        }),
    decreases n,
{
    let m = (a.len() / RS_DATA_BYTES as nat) as int;
    let s = a + b;
    chunks::lemma_chunk_count_add(m, 0, RS_DATA_BYTES as int);
    chunks::lemma_chunk_count_add(m, b.len() as int, RS_DATA_BYTES as int);
    assert(a.len() == m * RS_DATA_BYTES);
    if n == 0 {
        assert(coded_blocks(a, 0) + coded_blocks(b, 0) =~= Seq::<u8>::empty());
    } else {
        lemma_coded_blocks_append(a, b, (n - 1) as nat);
        chunks::lemma_chunk_bounds(s.len() as int, RS_DATA_BYTES as int, n - 1);
        if n <= m {
            assert(chunks::chunk(s, RS_DATA_BYTES as int, n - 1) =~= chunks::chunk(
                a,
                RS_DATA_BYTES as int,
                n - 1,
            ));
            if n == m {
                assert(coded_blocks(a, n) + coded_blocks(b, 0) =~= coded_blocks(a, n));
            }
        } else {
            assert(chunks::chunk(s, RS_DATA_BYTES as int, n - 1) =~= chunks::chunk(
                b,
                RS_DATA_BYTES as int,
                n - 1 - m,
            ));
            assert(coded_blocks(s, n) =~= coded_blocks(a, m as nat) + coded_blocks(
                b,
                (n - m) as nat,
            ));
        }
    }
}

/// Coding is block by block: cut anywhere between whole blocks, a payload's ECC
/// stream is the ECC streams of the two parts, one after the other.
pub proof fn theorem_ecc_stream_append(a: Seq<u8>, b: Seq<u8>)
    requires
        a.len() % RS_DATA_BYTES as nat == 0,
    ensures
        ecc_stream(a + b) == ecc_stream(a) + ecc_stream(b),
{
    lemma_coded_blocks_append(a, b, data_blocks((a + b).len() as int));
}

/// Block `k` of the ECC stream is the codeword of block `k` of the payload.
pub proof fn lemma_ecc_stream_block(data: Seq<u8>, k: int)
    requires
        0 <= k < data_blocks(data.len() as int),
    ensures
        chunks::chunk_count(ecc_stream(data).len() as int, RS_BLOCK_SIZE as int) == data_blocks(
            data.len() as int,
        ),
        chunks::chunk(ecc_stream(data), RS_BLOCK_SIZE as int, k) == codeword(
            chunks::chunk(data, RS_DATA_BYTES as int, k),
            RS_ECC_SYMBOLS as nat,
        ),
{
    let n = data_blocks(data.len() as int);
    let s = ecc_stream(data);
    lemma_ecc_stream_len(data);
    chunks::lemma_chunk_bounds(data.len() as int, RS_DATA_BYTES as int, n - 1);
    chunks::lemma_chunk_count(s.len() as int, RS_BLOCK_SIZE as int, n as int);
    chunks::lemma_chunk_bounds(data.len() as int, RS_DATA_BYTES as int, k);
    chunks::lemma_chunk_bounds(s.len() as int, RS_BLOCK_SIZE as int, k);
    lemma_coded_blocks_len(data, k as nat);
    lemma_coded_blocks_len(data, (k + 1) as nat);
    lemma_coded_blocks_prefix(data, (k + 1) as nat, n);
    let word = codeword(chunks::chunk(data, RS_DATA_BYTES as int, k), RS_ECC_SYMBOLS as nat);
    assert(coded_blocks(data, (k + 1) as nat) == coded_blocks(data, k as nat) + word);
    let upto = coded_blocks(data, (k + 1) as nat);
    assert(upto == s.take(upto.len() as int));
    assert(upto.len() == chunks::chunk_end(s.len() as int, RS_BLOCK_SIZE as int, k));
    assert(chunks::chunk(s, RS_BLOCK_SIZE as int, k) =~= upto.subrange(
        k * RS_BLOCK_SIZE,
        upto.len() as int,
    ));
    assert(upto.subrange(k * RS_BLOCK_SIZE, upto.len() as int) =~= word);
}

/// The layout of an ECC stream: 32 parity bytes behind every 223 data bytes, and
/// behind what is left at the end. Data byte `j` stands 32 places further on for
/// every full block before it, and the parity bytes of a block are those of its
/// data bytes alone.
pub proof fn theorem_stream_layout(data: Seq<u8>, j: int, i: int)
    requires
        0 <= j < data.len(),
        0 <= i < 32,
    ensures
        ({
            let s = ecc_stream(data);
            let k = j / 223;
            let end = if 223 * k + 223 <= data.len() {
                223 * k + 223
            } else {
                data.len() as int
            };
            &&& s.len() == data.len() + 32 * ((data.len() + 222) / 223)
            &&& s[j + 32 * k] == data[j]
            &&& s[end + 32 * k + i] == rs_parity_byte(data.subrange(223 * k, end), 32, i)
            &&& end + 32 * k + i < s.len()
        }),
{
    let s = ecc_stream(data);
    let k = j / 223;
    let len = data.len() as int;
    assert(j == 223 * k + j % 223);
    lemma_ecc_stream_len(data);
    assert(0 <= k < data_blocks(len)) by {
        div_mod::lemma_fundamental_div_mod(len + 222, 223);
    }
    lemma_ecc_stream_block(data, k);
    let part = chunks::chunk(data, RS_DATA_BYTES as int, k);
    let block = chunks::chunk(s, RS_BLOCK_SIZE as int, k);
    chunks::lemma_chunk_bounds(len, RS_DATA_BYTES as int, k);
    chunks::lemma_chunk_bounds(s.len() as int, RS_BLOCK_SIZE as int, k);
    let end = if 223 * k + 223 <= len {
        223 * k + 223
    } else {
        len
    };
    assert(part =~= data.subrange(223 * k, end));
    assert(block == codeword(part, RS_ECC_SYMBOLS as nat));
    assert(block[j % 223] == s[255 * k + j % 223]);
    let q = end - 223 * k + i;
    assert(block[q] == s[255 * k + q]);
    assert(block[q] == rs_parity_byte(part, 32, i));
}


/// The codewords of fewer blocks come first.
proof fn lemma_coded_blocks_prefix(data: Seq<u8>, m: nat, n: nat)
    requires
        m <= n,
    ensures
        coded_blocks(data, m).len() <= coded_blocks(data, n).len(),
        coded_blocks(data, n).take(coded_blocks(data, m).len() as int) == coded_blocks(data, m),
    decreases n,
{
    if m == n {
        assert(coded_blocks(data, n).take(coded_blocks(data, n).len() as int) =~= coded_blocks(
            data,
            n,
        ));
    } else {
        lemma_coded_blocks_prefix(data, m, (n - 1) as nat);
        assert(coded_blocks(data, n).take(coded_blocks(data, m).len() as int) =~= coded_blocks(
            data,
            (n - 1) as nat,
        ).take(coded_blocks(data, m).len() as int));
    }
}

/// `data` fits into one block.
pub open spec fn fits_block(data: Seq<u8>) -> bool {
    data.len() <= RS_DATA_BYTES
}

/// The codeword of one block of the stream.
pub open spec fn block_codeword(data: Seq<u8>) -> Seq<u8> {
    codeword(data, RS_ECC_SYMBOLS as nat)
}

/// The codeword of one block.
fn encode_block(block: &[u8]) -> (word: Vec<u8>)
    requires
        fits_block(block@),
    ensures
        word@ == block_codeword(block@),
{
    encoder_encode(block, RS_ECC_SYMBOLS)
}

/// The ECC stream of `data`: each 223-byte block followed by its 32 parity
/// bytes; the last block may be shorter.
pub fn ecc_encode(data: &[u8]) -> (ecc: Vec<u8>)
    ensures
        ecc@ == ecc_stream(data@),
        ecc@.len() == ecc_len(data@.len() as int),
{
    proof {
        lemma_ecc_stream_len(data@);
    }
    let mut ecc: Vec<u8> = Vec::new();
    if data.is_empty() {
        assert(data_blocks(0) == 0);
        return ecc;
    }
    let n_blocks: usize = chunks::count_chunks(data.len(), RS_DATA_BYTES);
    if n_blocks >= PARALLEL_RS_MIN_BLOCKS {
        proof {
            assert forall|k: int| 0 <= k < n_blocks implies #[trigger] chunks::chunk(
                data@,
                RS_DATA_BYTES as int,
                k,
            ).len() <= RS_DATA_BYTES by {
                chunks::lemma_chunk_bounds(data@.len() as int, RS_DATA_BYTES as int, k);
            }
        }
        let mut blocks: Vec<Vec<u8>> = chunks::par_map_chunks(
            data,
            RS_DATA_BYTES,
            |k: usize, block: &[u8]| -> (word: Vec<u8>)
                requires
                    fits_block(block@),
                ensures
                    word@ == block_codeword(block@)
                { encode_block(block) },
        );
        let ghost words = blocks@;
        let mut k: usize = 0;
        while k < blocks.len()
            invariant
                0 <= k <= n_blocks,
                n_blocks == data_blocks(data@.len() as int),
                blocks@.len() == n_blocks,
                words.len() == n_blocks,
                forall|j: int| k <= j < n_blocks ==> blocks@[j] == #[trigger] words[j],
                forall|j: int|
                    0 <= j < n_blocks ==> (#[trigger] words[j])@ == codeword(
                        chunks::chunk(data@, RS_DATA_BYTES as int, j),
                        RS_ECC_SYMBOLS as nat,
                    ),
                ecc@ == coded_blocks(data@, k as nat),
            decreases n_blocks - k,
        {
            assert(blocks@[k as int] == words[k as int]);
            ecc.append(&mut blocks[k]);
            k = k + 1;
        }
    } else {
        let mut k: usize = 0;
        while k < n_blocks
            invariant
                0 <= k <= n_blocks,
                n_blocks == data_blocks(data@.len() as int),
                ecc@ == coded_blocks(data@, k as nat),
            decreases n_blocks - k,
        {
            proof {
                chunks::lemma_chunk_bounds(data@.len() as int, RS_DATA_BYTES as int, k as int);
            }
            assert(k * RS_DATA_BYTES < data.len());
            let start: usize = k * RS_DATA_BYTES;
            let end: usize = if data.len() - start > RS_DATA_BYTES {
                start + RS_DATA_BYTES
            } else {
                data.len()
            };
            let mut word: Vec<u8> = encode_block(&data[start..end]);
            ecc.append(&mut word);
            k = k + 1;
        }
    }
    ecc
}

/// Length of the ECC stream of a payload of `payload_len` bytes, so that frames
/// can be planned before a byte is read: 255 bytes for each full block, and
/// `r + 32` for a last block of `r` bytes.
pub fn ecc_len_for(payload_len: usize) -> (len: usize)
    requires
        ecc_len(payload_len as int) <= usize::MAX,
    ensures
        len == ecc_len(payload_len as int),
{
    let full: usize = payload_len / RS_DATA_BYTES;
    let last: usize = payload_len % RS_DATA_BYTES;
    proof {
        chunks::lemma_chunk_count_add(full as int, last as int, RS_DATA_BYTES as int);
        assert(payload_len == full * RS_DATA_BYTES + last);
        if last == 0 {
            chunks::lemma_chunk_count(0, RS_DATA_BYTES as int, 0);
        } else {
            chunks::lemma_chunk_count(last as int, RS_DATA_BYTES as int, 1);
        }
    }
    if last == 0 {
        full * RS_BLOCK_SIZE
    } else {
        full * RS_BLOCK_SIZE + last + RS_ECC_SYMBOLS
    }
}

// ---------------------------------------------------------------------------
// Decoding a stream
// ---------------------------------------------------------------------------

/// Why a block could not be recovered.
#[derive(Debug, Clone, Copy, PartialEq, Eq)]
pub enum BlockFailure {
    /// The block has no data byte before its parity bytes.
    TooShort { len: usize },
    /// The block holds more errors and erasures than its parity bytes repair.
    TooManyErrors,
}

/// A Reed-Solomon block could not be recovered.
#[derive(Debug, Clone, Copy, PartialEq, Eq)]
pub struct ReedSolomonError(pub BlockFailure);

/// The positions that a list names, each once, in the order in which they are
/// first named.
pub open spec fn distinct(list: Seq<u8>) -> Seq<u8>
    decreases list.len(),
{
    if list.len() == 0 {
        Seq::empty()
    } else {
        let rest = distinct(list.drop_last());
        if rest.contains(list.last()) {
            rest
        } else {
            rest.push(list.last())
        }
    }
}

/// The data of one block, or why there is none. To name a position twice says no
/// more than to name it once, but more than 32 names are refused.
pub open spec fn block_data(block: Seq<u8>, erased: Seq<u8>) -> Result<
    Seq<u8>,
    ReedSolomonError,
> {
    if block.len() <= RS_ECC_SYMBOLS {
        Err(ReedSolomonError(BlockFailure::TooShort { len: block.len() as usize }))
    } else if erased.len() > RS_ECC_SYMBOLS {
        Err(ReedSolomonError(BlockFailure::TooManyErrors))
    } else {
        match rs_corrected(block, distinct(erased), RS_ECC_SYMBOLS as nat) {
            Some(d) => Ok(d),
            None => Err(ReedSolomonError(BlockFailure::TooManyErrors)),
        }
    }
}

/// Those of the positions that lie in `start .. end`, counted from `start`.
pub open spec fn positions_in(positions: Seq<usize>, start: int, end: int) -> Seq<u8>
    decreases positions.len(),
{
    if positions.len() == 0 {
        Seq::empty()
    } else {
        let rest = positions_in(positions.drop_last(), start, end);
        if start <= positions.last() < end {
            rest.push((positions.last() - start) as u8)
        } else {
            rest
        }
    }
}

/// The erased positions inside block `k` of `data`.
pub open spec fn block_erasures(data: Seq<u8>, erasures: Seq<usize>, k: int) -> Seq<u8> {
    positions_in(
        erasures,
        k * RS_BLOCK_SIZE,
        chunks::chunk_end(data.len() as int, RS_BLOCK_SIZE as int, k),
    )
}

/// The data of the first `n` blocks, or the failure of the first of them that
/// cannot be recovered.
pub open spec fn decoded_blocks(data: Seq<u8>, erasures: Seq<usize>, n: nat) -> Result<
    Seq<u8>,
    ReedSolomonError,
>
    decreases n,
{
    if n == 0 {
        Ok(Seq::empty())
    } else {
        match decoded_blocks(data, erasures, (n - 1) as nat) {
            Ok(before) => match block_data(
                chunks::chunk(data, RS_BLOCK_SIZE as int, n - 1),
                block_erasures(data, erasures, n - 1),
            ) {
                Ok(d) => Ok(before + d),
                Err(e) => Err(e),
            },
            Err(e) => Err(e),
        }
    }
}

/// Number of Reed-Solomon blocks in `len` bytes of ECC stream.
pub open spec fn ecc_blocks(len: int) -> nat {
    chunks::chunk_count(len, RS_BLOCK_SIZE as int) as nat
}

/// The payload that an ECC stream decodes to.
pub open spec fn decoded_stream(data: Seq<u8>, erasures: Seq<usize>) -> Result<
    Seq<u8>,
    ReedSolomonError,
> {
    decoded_blocks(data, erasures, ecc_blocks(data.len() as int))
}

/// The positions that an optional list of erasures names.
pub open spec fn erasure_list(erasures: Option<&[usize]>) -> Seq<usize> {
    match erasures {
        Some(e) => e@,
        None => Seq::empty(),
    }
}

/// Every block of `data` is within reach of the corresponding block of
/// `payload`: up to 16 wrong bytes, or up to 32 erased ones, or `e` and `s` of
/// them with `2 * e + s` at most 32.
pub open spec fn recoverable(payload: Seq<u8>, data: Seq<u8>, erasures: Seq<usize>) -> bool {
    &&& data.len() == ecc_len(payload.len() as int)
    &&& forall|k: int|
        0 <= k < data_blocks(payload.len() as int) ==> within_reach(
            #[trigger] chunks::chunk(payload, RS_DATA_BYTES as int, k),
            chunks::chunk(data, RS_BLOCK_SIZE as int, k),
            block_erasures(data, erasures, k),
            RS_ECC_SYMBOLS as nat,
        )
}

/// Within reach of a codeword, or of one with zeros behind it, the block decodes
/// to its data.
pub open spec fn reach_holds(block: Seq<u8>, erased: Seq<u8>) -> bool {
    forall|d: Seq<u8>|
        #[trigger] within_reach_filled(d, block, erased, RS_ECC_SYMBOLS as nat) ==> block_data(
            block,
            erased,
        ) == Ok::<Seq<u8>, ReedSolomonError>(
            filled_data(d, block.len(), RS_ECC_SYMBOLS as nat),
        )
}

/// The block is within reach of no codeword, nor of one with zeros behind it.
pub open spec fn beyond_reach(block: Seq<u8>, erased: Seq<u8>) -> bool {
    forall|d: Seq<u8>|
        !(#[trigger] within_reach_filled(d, block, erased, RS_ECC_SYMBOLS as nat))
}

/// Without zeros behind it, the codeword is the block and its data are recovered.
pub proof fn lemma_reach_unfilled(d: Seq<u8>, block: Seq<u8>, erased: Seq<u8>)
    requires
        0 < d.len(),
        within_reach(d, block, erased, RS_ECC_SYMBOLS as nat),
    ensures
        within_reach_filled(d, block, erased, RS_ECC_SYMBOLS as nat),
        filled_data(d, block.len(), RS_ECC_SYMBOLS as nat) == d,
{
    let word = codeword(d, RS_ECC_SYMBOLS as nat);
    assert(zero_filled(word, block.len()) =~= word);
    assert(word.take(d.len() as int) =~= d);
}

/// The decoded bytes, or the failure.
pub open spec fn outcome<E>(r: Result<Vec<u8>, E>) -> Result<Seq<u8>, E> {
    match r {
        Ok(v) => Ok(v@),
        Err(e) => Err(e),
    }
}

/// What decodes is the bytes that come out, and a failure is the one there was; no list
/// of erasures names none.
pub proof fn theorem_outcome(bytes: Vec<u8>, error: ReedSolomonError, erasures: &[usize])
    ensures
        outcome::<ReedSolomonError>(Ok(bytes)) == Ok::<Seq<u8>, ReedSolomonError>(bytes@),
        outcome::<ReedSolomonError>(Err(error)) == Err::<Seq<u8>, ReedSolomonError>(error),
        erasure_list(Some(erasures)) == erasures@,
        erasure_list(None).len() == 0,
{
}

/// Where a block decodes as it must, it decodes to any data that it is within reach of;
/// where it is beyond reach, it is within reach of none.
pub proof fn theorem_reach(block: Seq<u8>, erased: Seq<u8>, d: Seq<u8>)
    requires
        0 < d.len(),
        within_reach(d, block, erased, 32),
    ensures
        reach_holds(block, erased) ==> block_data(block, erased) == Ok::<Seq<u8>, ReedSolomonError>(
            d,
        ),
        !beyond_reach(block, erased),
{
    lemma_reach_unfilled(d, block, erased);
}

/// The positions in a block are offsets into the block.
proof fn lemma_positions_in(positions: Seq<usize>, start: int, end: int)
    requires
        0 <= start <= end <= start + 255,
    ensures
        forall|i: int|
            0 <= i < positions_in(positions, start, end).len() ==> {
                let p = #[trigger] positions_in(positions, start, end)[i];
                p < end - start && positions.contains((p + start) as usize)
            },
    decreases positions.len(),
{
    if positions.len() > 0 {
        let front = positions.drop_last();
        lemma_positions_in(front, start, end);
        let rest = positions_in(front, start, end);
        let all = positions_in(positions, start, end);
        assert forall|i: int| 0 <= i < all.len() implies {
            let p = #[trigger] all[i];
            p < end - start && positions.contains((p + start) as usize)
        } by {
            if i < rest.len() {
                assert(all[i] == rest[i]);
                let w = choose|w: int| 0 <= w < front.len() && front[w] == (rest[i] + start) as usize;
                assert(positions[w] == (rest[i] + start) as usize);
            } else {
                assert(positions[positions.len() - 1] == positions.last());
            }
        }
    }
}

/// A list and the positions that it names, each once.
pub proof fn theorem_distinct(list: Seq<u8>)
    ensures
        distinct(list).no_duplicates(),
        distinct(list).len() <= list.len(),
        forall|p: u8| #[trigger] distinct(list).contains(p) == list.contains(p),
        list.no_duplicates() ==> distinct(list) == list,
    decreases list.len(),
{
    if list.len() > 0 {
        let front = list.drop_last();
        let rest = distinct(front);
        let all = distinct(list);
        let last = list.last();
        theorem_distinct(front);
        assert forall|p: u8| #[trigger] all.contains(p) == list.contains(p) by {
            if list.contains(p) {
                let w = choose|w: int| 0 <= w < list.len() && list[w] == p;
                if w < front.len() {
                    assert(front[w] == p);
                    assert(rest.contains(p));
                    let v = choose|v: int| 0 <= v < rest.len() && rest[v] == p;
                    assert(all[v] == p);
                } else if !rest.contains(last) {
                    assert(all[rest.len() as int] == p);
                }
            }
            if all.contains(p) {
                let w = choose|w: int| 0 <= w < all.len() && all[w] == p;
                if w < rest.len() {
                    assert(rest[w] == p);
                    assert(rest.contains(p));
                    assert(front.contains(p));
                    let v = choose|v: int| 0 <= v < front.len() && front[v] == p;
                    assert(list[v] == p);
                } else {
                    assert(list[list.len() - 1] == p);
                }
            }
        }
        assert forall|i: int, j: int|
            0 <= i < all.len() && 0 <= j < all.len() && i != j implies all[i] != all[j] by {
            if i < rest.len() && j < rest.len() {
                assert(rest[i] != rest[j]);
            } else if i < rest.len() {
                assert(rest.contains(rest[i]));
            } else {
                assert(rest.contains(rest[j]));
            }
        }
        if list.no_duplicates() {
            assert forall|i: int, j: int|
                0 <= i < front.len() && 0 <= j < front.len() && i != j implies front[i]
                != front[j] by {
                assert(list[i] != list[j]);
            }
            if front.contains(last) {
                let v = choose|v: int| 0 <= v < front.len() && front[v] == last;
                assert(list[v] != list[list.len() - 1]);
            }
            assert(all =~= list);
        }
    }
}

/// Naming a position once more does not change which bytes count as wrong.
proof fn lemma_wrong_bytes_distinct(a: Seq<u8>, b: Seq<u8>, list: Seq<u8>, n: nat)
    ensures
        wrong_bytes(a, b, distinct(list), n) == wrong_bytes(a, b, list, n),
    decreases n,
{
    if n > 0 {
        lemma_wrong_bytes_distinct(a, b, list, (n - 1) as nat);
        theorem_distinct(list);
        assert(distinct(list).contains((n - 1) as u8) == list.contains((n - 1) as u8));
    }
}

/// What is within reach with repeated names is within reach without.
proof fn lemma_reach_distinct(d: Seq<u8>, block: Seq<u8>, list: Seq<u8>)
    requires
        within_reach_filled(d, block, list, RS_ECC_SYMBOLS as nat),
    ensures
        within_reach_filled(d, block, distinct(list), RS_ECC_SYMBOLS as nat),
        list.len() <= RS_ECC_SYMBOLS,
{
    theorem_distinct(list);
    lemma_wrong_bytes_distinct(
        zero_filled(codeword(d, RS_ECC_SYMBOLS as nat), block.len()),
        block,
        list,
        block.len(),
    );
}

/// Whether `list` names position `p`.
fn names(list: &Vec<u8>, p: u8) -> (b: bool)
    ensures
        b == list@.contains(p),
{
    let mut i: usize = 0;
    while i < list.len()
        invariant
            0 <= i <= list@.len(),
            forall|j: int| 0 <= j < i ==> list@[j] != p,
        decreases list@.len() - i,
    {
        if list[i] == p {
            assert(list@[i as int] == p);
            return true;
        }
        i = i + 1;
    }
    false
}

/// A failure among the first blocks is the failure of the whole stream.
proof fn lemma_failure_stays(data: Seq<u8>, erasures: Seq<usize>, m: nat, n: nat)
    requires
        m <= n,
        decoded_blocks(data, erasures, m) is Err,
    ensures
        decoded_blocks(data, erasures, n) == decoded_blocks(data, erasures, m),
    decreases n,
{
    if m < n {
        lemma_failure_stays(data, erasures, m, (n - 1) as nat);
    }
}

/// Bytes that differ, other than at erased positions, are no more than the places
/// where bytes may differ.
pub proof fn lemma_wrong_within(
    a: Seq<u8>,
    b: Seq<u8>,
    erased: Seq<u8>,
    n: nat,
    base: int,
    wrong: Set<int>,
)
    requires
        n <= 255,
        wrong.finite(),
        forall|i: int|
            0 <= i < n && #[trigger] a[i] != b[i] && !erased.contains(i as u8) ==> wrong.contains(
                base + i,
            ),
    ensures
        wrong_bytes(a, b, erased, n) <= wrong.len(),
    decreases n,
{
    if n > 0 {
        let i = n - 1;
        if a[i] != b[i] && !erased.contains(i as u8) {
            let rest = wrong.remove(base + i);
            assert(wrong.contains(base + i));
            lemma_wrong_within(a, b, erased, i as nat, base, rest);
        } else {
            lemma_wrong_within(a, b, erased, i as nat, base, wrong);
        }
    }
}

/// A position is erased in a block exactly where the list names it.
pub proof fn theorem_positions_in(positions: Seq<usize>, start: int, end: int, p: int)
    requires
        0 <= start <= p < end <= start + 255,
        start + 255 <= usize::MAX || end <= usize::MAX,
    ensures
        positions_in(positions, start, end).contains((p - start) as u8) <==> positions.contains(
            p as usize,
        ),
    decreases positions.len(),
{
    if positions.len() > 0 {
        let front = positions.drop_last();
        let rest = positions_in(front, start, end);
        let all = positions_in(positions, start, end);
        let last = positions.last();
        theorem_positions_in(front, start, end, p);
        lemma_positions_in(positions, start, end);
        if positions.contains(p as usize) {
            let w = choose|w: int| 0 <= w < positions.len() && positions[w] == p as usize;
            if w < front.len() {
                assert(front[w] == p as usize);
                assert(front.contains(p as usize));
                let v = choose|v: int| 0 <= v < rest.len() && rest[v] == (p - start) as u8;
                assert(all[v] == (p - start) as u8);
            } else {
                assert(all[rest.len() as int] == (p - start) as u8);
            }
        }
        if all.contains((p - start) as u8) {
            let v = choose|v: int| 0 <= v < all.len() && all[v] == (p - start) as u8;
            assert(positions.contains((all[v] + start) as usize));
        }
    }
}

/// As many positions are erased in a block as the list names there.
proof fn lemma_positions_within(positions: Seq<usize>, start: int, end: int, named: Set<int>)
    requires
        named.finite(),
        forall|j: int|
            0 <= j < positions.len() && start <= #[trigger] positions[j] < end ==> named.contains(j),
    ensures
        positions_in(positions, start, end).len() <= named.len(),
    decreases positions.len(),
{
    if positions.len() > 0 {
        let front = positions.drop_last();
        let n = positions.len() - 1;
        if start <= positions.last() < end {
            assert(positions[n] == positions.last());
            assert(named.contains(n));
            assert forall|j: int|
                0 <= j < front.len() && start <= #[trigger] front[j] < end implies named.remove(
                n,
            ).contains(j) by {
                assert(positions[j] == front[j]);
            }
            lemma_positions_within(front, start, end, named.remove(n));
        } else {
            assert forall|j: int|
                0 <= j < front.len() && start <= #[trigger] front[j] < end implies named.contains(
                j,
            ) by {
                assert(positions[j] == front[j]);
            }
            lemma_positions_within(front, start, end, named);
        }
    }
}

/// What Reed-Solomon coding is for: a stream in which, in every block of 255 bytes,
/// `e` bytes are wrong and `s` positions are named as erased, with `2 * e + s` no more
/// than 32, can be recovered, whichever they are. `wrong` gives for each block the
/// places where bytes are wrong, and `named` the places in the list that name one of
/// the block.
pub proof fn theorem_damage_recoverable(
    payload: Seq<u8>,
    data: Seq<u8>,
    erasures: Seq<usize>,
    wrong: spec_fn(int) -> Set<int>,
    named: spec_fn(int) -> Set<int>,
)
    requires
        data.len() == ecc_stream(payload).len(),
        data.len() <= usize::MAX,
        forall|k: int|
            #![trigger wrong(k)]
            #![trigger named(k)]
            wrong(k).finite() && named(k).finite() && 2 * wrong(k).len() + named(k).len() <= 32,
        forall|j: int|
            0 <= j < erasures.len() && erasures[j] < data.len() ==> named(
                #[trigger] erasures[j] as int / 255,
            ).contains(j),
        forall|p: int|
            0 <= p < data.len() && #[trigger] data[p] != ecc_stream(payload)[p]
                && !erasures.contains(p as usize) ==> wrong(p / 255).contains(p),
    ensures
        recoverable(payload, data, erasures),
{
    let stream = ecc_stream(payload);
    lemma_ecc_stream_len(payload);
    lemma_block_counts(payload.len() as int);
    assert forall|k: int| 0 <= k < data_blocks(payload.len() as int) implies within_reach(
        #[trigger] chunks::chunk(payload, RS_DATA_BYTES as int, k),
        chunks::chunk(data, RS_BLOCK_SIZE as int, k),
        block_erasures(data, erasures, k),
        RS_ECC_SYMBOLS as nat,
    ) by {
        lemma_ecc_stream_block(payload, k);
        chunks::lemma_chunk_bounds(data.len() as int, RS_BLOCK_SIZE as int, k);
        let word = chunks::chunk(stream, RS_BLOCK_SIZE as int, k);
        let block = chunks::chunk(data, RS_BLOCK_SIZE as int, k);
        let start = 255 * k;
        let end = chunks::chunk_end(data.len() as int, RS_BLOCK_SIZE as int, k);
        let erased = block_erasures(data, erasures, k);
        assert forall|j: int|
            0 <= j < erasures.len() && start <= #[trigger] erasures[j] < end implies named(
            k,
        ).contains(j) by {
            assert(erasures[j] as int / 255 == k);
        }
        lemma_positions_within(erasures, start, end, named(k));
        assert forall|i: int|
            0 <= i < block.len() && #[trigger] word[i] != block[i] && !erased.contains(
                i as u8,
            ) implies wrong(k).contains(start + i) by {
            let p = start + i;
            assert(data[p] == block[i] && stream[p] == word[i]);
            theorem_positions_in(erasures, start, end, p);
            assert(p / 255 == k);
        }
        lemma_wrong_within(word, block, erased, block.len(), start, wrong(k));
        assert(wrong(k).finite());
    }
}

/// What one block comes to: without a data byte it is too short, with more than 32
/// names it is not tried, and otherwise the decoder says, each named position being
/// erased once.
pub proof fn theorem_block_data(block: Seq<u8>, erased: Seq<u8>)
    ensures
        block.len() <= 32 ==> block_data(block, erased) == Err::<Seq<u8>, ReedSolomonError>(
            ReedSolomonError(BlockFailure::TooShort { len: block.len() as usize }),
        ),
        block.len() > 32 && erased.len() > 32 ==> block_data(block, erased) == Err::<
            Seq<u8>,
            ReedSolomonError,
        >(ReedSolomonError(BlockFailure::TooManyErrors)),
        block.len() > 32 && erased.len() <= 32 && erased.no_duplicates() ==> {
            let d = rs_corrected(block, erased, 32);
            &&& d is Some ==> block_data(block, erased) == Ok::<Seq<u8>, ReedSolomonError>(d->0)
            &&& d is None ==> block_data(block, erased) == Err::<Seq<u8>, ReedSolomonError>(
                ReedSolomonError(BlockFailure::TooManyErrors),
            )
        },
        erased.len() <= 32 ==> block_data(block, erased) == block_data(block, distinct(erased)),
{
    theorem_distinct(erased);
    theorem_distinct(distinct(erased));
}

/// A stream decodes block by block: where every block decodes, to the data of the
/// blocks, one after the other; otherwise it fails as its first block that does not
/// decode, and only there.
pub proof fn theorem_blocks_in_order(data: Seq<u8>, erasures: Seq<usize>, n: nat)
    requires
        n < ecc_blocks(data.len() as int),
        data.len() <= usize::MAX,
    ensures
        ({
            let start = 255 * n as int;
            let end = if start + 255 <= data.len() {
                start + 255
            } else {
                data.len() as int
            };
            let block = data.subrange(start, end);
            let d = block_data(block, positions_in(erasures, start, end));
            let before = decoded_blocks(data, erasures, n);
            let now = decoded_blocks(data, erasures, n + 1);
            &&& decoded_blocks(data, erasures, 0) == Ok::<Seq<u8>, ReedSolomonError>(Seq::empty())
            &&& before is Err ==> now == before
            &&& before is Ok && d is Err ==> now == d
            &&& before is Ok && d is Ok ==> now == Ok::<Seq<u8>, ReedSolomonError>(
                before->Ok_0 + d->Ok_0,
            )
            &&& ecc_blocks(data.len() as int) == (data.len() + 254) / 255
            &&& decoded_stream(data, erasures) == decoded_blocks(
                data,
                erasures,
                ecc_blocks(data.len() as int),
            )
        }),
{
}

/// A last block without a data byte before its parity bytes is an error, whatever
/// is erased.
pub proof fn theorem_short_block_fails(data: Seq<u8>, erasures: Seq<usize>)
    requires
        1 <= data.len() % RS_BLOCK_SIZE as nat <= RS_ECC_SYMBOLS,
    ensures
        decoded_stream(data, erasures) is Err,
{
    let len = data.len() as int;
    let q = len / 255;
    assert(len == 255 * q + len % 255);
    chunks::lemma_chunk_count(len, RS_BLOCK_SIZE as int, q + 1);
    chunks::lemma_chunk_bounds(len, RS_BLOCK_SIZE as int, q);
    assert(chunks::chunk(data, RS_BLOCK_SIZE as int, q).len() <= RS_ECC_SYMBOLS);
}

/// Where the first blocks are within reach of `payload`, they decode to its
/// first blocks.
pub proof fn lemma_recoverable_prefix(
    payload: Seq<u8>,
    data: Seq<u8>,
    erasures: Seq<usize>,
    n: nat,
)
    requires
        recoverable(payload, data, erasures),
        n <= ecc_blocks(data.len() as int),
        forall|k: int|
            0 <= k < n ==> reach_holds(
                #[trigger] chunks::chunk(data, RS_BLOCK_SIZE as int, k),
                block_erasures(data, erasures, k),
            ),
    ensures
        ecc_blocks(data.len() as int) == data_blocks(payload.len() as int),
        n < ecc_blocks(data.len() as int) ==> n * RS_DATA_BYTES <= payload.len()
            && decoded_blocks(data, erasures, n) == Ok::<Seq<u8>, ReedSolomonError>(
            payload.take(n * RS_DATA_BYTES),
        ),
        n == ecc_blocks(data.len() as int) ==> decoded_blocks(data, erasures, n) == Ok::<
            Seq<u8>,
            ReedSolomonError,
        >(payload),
    decreases n,
{
    lemma_block_counts(payload.len() as int);
    if n == 0 {
        assert(payload.take(0) =~= Seq::<u8>::empty());
        if ecc_blocks(data.len() as int) == 0 {
            assert(payload.len() == 0);
            assert(payload =~= Seq::<u8>::empty());
        }
    } else {
        lemma_recoverable_prefix(payload, data, erasures, (n - 1) as nat);
        let k = n - 1;
        let part = chunks::chunk(payload, RS_DATA_BYTES as int, k);
        let block = chunks::chunk(data, RS_BLOCK_SIZE as int, k);
        let erased = block_erasures(data, erasures, k);
        chunks::lemma_chunk_bounds(payload.len() as int, RS_DATA_BYTES as int, k);
        assert(within_reach(part, block, erased, RS_ECC_SYMBOLS as nat));
        lemma_reach_unfilled(part, block, erased);
        assert(reach_holds(block, erased));
        assert(block_data(block, erased) == Ok::<Seq<u8>, ReedSolomonError>(part));
        if n < ecc_blocks(data.len() as int) {
            assert(payload.take(k * RS_DATA_BYTES) + part =~= payload.take(n * RS_DATA_BYTES));
        } else {
            assert(payload.take(k * RS_DATA_BYTES) + part =~= payload);
        }
    }
}

/// A payload and its ECC stream have the same number of blocks.
pub proof fn lemma_block_counts(len: int)
    requires
        0 <= len,
    ensures
        ecc_blocks(ecc_len(len)) == data_blocks(len),
        data_blocks(len) == 0 <==> len == 0,
{
    let n = data_blocks(len) as int;
    if len == 0 {
        chunks::lemma_chunk_count(0, RS_DATA_BYTES as int, 0);
        chunks::lemma_chunk_count(0, RS_BLOCK_SIZE as int, 0);
    } else {
        div_mod::lemma_fundamental_div_mod(len + 222, 223);
        assert(n >= 1);
        chunks::lemma_chunk_bounds(len, RS_DATA_BYTES as int, n - 1);
        chunks::lemma_chunk_count(ecc_len(len), RS_BLOCK_SIZE as int, n);
    }
}

/// No byte of a codeword is wrong in the codeword itself.
proof fn lemma_no_wrong_bytes(a: Seq<u8>, erased: Seq<u8>, n: nat)
    ensures
        wrong_bytes(a, a, erased, n) == 0,
    decreases n,
{
    if n > 0 {
        lemma_no_wrong_bytes(a, erased, (n - 1) as nat);
    }
}

/// An undamaged ECC stream is recoverable.
pub proof fn theorem_clean_stream_recoverable(payload: Seq<u8>)
    ensures
        recoverable(payload, ecc_stream(payload), Seq::empty()),
{
    let data = ecc_stream(payload);
    lemma_ecc_stream_len(payload);
    assert forall|k: int| 0 <= k < data_blocks(payload.len() as int) implies within_reach(
        #[trigger] chunks::chunk(payload, RS_DATA_BYTES as int, k),
        chunks::chunk(data, RS_BLOCK_SIZE as int, k),
        block_erasures(data, Seq::empty(), k),
        RS_ECC_SYMBOLS as nat,
    ) by {
        lemma_ecc_stream_block(payload, k);
        let word = chunks::chunk(data, RS_BLOCK_SIZE as int, k);
        lemma_no_wrong_bytes(word, Seq::empty(), word.len());
    }
}

/// Decodes one block that starts at `start` of the stream.
fn decode_block(block: &[u8], start: usize, erasures: Option<&[usize]>) -> (r: Result<
    Vec<u8>,
    ReedSolomonError,
>)
    requires
        block@.len() <= RS_BLOCK_SIZE,
        start + block@.len() <= usize::MAX,
    ensures
        outcome(r) == block_data(
            block@,
            positions_in(erasure_list(erasures), start as int, start + block@.len()),
        ),
        reach_holds(
            block@,
            positions_in(erasure_list(erasures), start as int, start + block@.len()),
        ),
        r is Ok ==> r->Ok_0@.len() + RS_ECC_SYMBOLS == block@.len(),
        positions_in(erasure_list(erasures), start as int, start + block@.len()).len()
            > RS_ECC_SYMBOLS ==> r is Err,
{
    let ghost all = erasure_list(erasures);
    let ghost erased = positions_in(all, start as int, start + block@.len());
    if block.len() <= RS_ECC_SYMBOLS {
        return Err(ReedSolomonError(BlockFailure::TooShort { len: block.len() }));
    }
    let end: usize = start + block.len();
    let mut local: Vec<u8> = Vec::new();
    let mut named: usize = 0;
    if let Some(positions) = erasures {
        let mut i: usize = 0;
        while i < positions.len()
            invariant
                0 <= i <= positions@.len(),
                end == start + block@.len(),
                block@.len() <= RS_BLOCK_SIZE,
                named <= i,
                named == positions_in(positions@.take(i as int), start as int, end as int).len(),
                local@ == distinct(
                    positions_in(positions@.take(i as int), start as int, end as int),
                ),
            decreases positions@.len() - i,
        {
            let p: usize = positions[i];
            assert(positions@.take(i + 1).drop_last() =~= positions@.take(i as int));
            assert(positions@.take(i + 1).last() == p);
            if p >= start && p < end {
                let q: u8 = (p - start) as u8;
                proof {
                    let before = positions_in(
                        positions@.take(i as int),
                        start as int,
                        end as int,
                    );
                    assert(before.push(q).drop_last() =~= before);
                }
                if !names(&local, q) {
                    local.push(q);
                }
                named = named + 1;
            }
            i = i + 1;
        }
        assert(positions@.take(i as int) =~= positions@);
    }
    assert(local@ == distinct(erased));
    proof {
        lemma_positions_in(all, start as int, end as int);
        theorem_distinct(erased);
        assert forall|i: int| 0 <= i < local@.len() implies (#[trigger] local@[i])
            < block@.len() by {
            assert(distinct(erased).contains(local@[i]));
            assert(erased.contains(local@[i]));
            let w = choose|w: int| 0 <= w < erased.len() && erased[w] == local@[i];
            assert(erased[w] < end - start);
        }
        assert forall|d: Seq<u8>| #[trigger]
            within_reach_filled(d, block@, erased, RS_ECC_SYMBOLS as nat) implies
            within_reach_filled(d, block@, local@, RS_ECC_SYMBOLS as nat) && erased.len()
            <= RS_ECC_SYMBOLS by {
            lemma_reach_distinct(d, block@, erased);
        }
    }
    if named > RS_ECC_SYMBOLS {
        return Err(ReedSolomonError(BlockFailure::TooManyErrors));
    }
    let corrected: Result<Vec<u8>, reed_solomon::DecoderError> = if local.is_empty() {
        assert(local@ =~= Seq::empty());
        decoder_correct(block, RS_ECC_SYMBOLS)
    } else {
        decoder_correct_erased(block, &local, RS_ECC_SYMBOLS)
    };
    match corrected {
        Ok(data) => Ok(data),
        Err(_) => Err(ReedSolomonError(BlockFailure::TooManyErrors)),
    }
}

/// `block` can stand as block `k` of a stream.
pub open spec fn fits_stream(block: Seq<u8>, k: int) -> bool {
    0 <= k && block.len() <= RS_BLOCK_SIZE && k * RS_BLOCK_SIZE + block.len() <= usize::MAX
}

/// `r` is what `block`, as block `k` of a stream, decodes to.
pub open spec fn block_decoded(
    r: Result<Vec<u8>, ReedSolomonError>,
    block: Seq<u8>,
    erasures: Seq<usize>,
    k: int,
) -> bool {
    let erased = positions_in(
        erasures,
        k * RS_BLOCK_SIZE,
        k * RS_BLOCK_SIZE + block.len(),
    );
    &&& outcome(r) == block_data(block, erased)
    &&& reach_holds(block, erased)
    &&& r is Ok ==> r->Ok_0@.len() + RS_ECC_SYMBOLS == block.len() && erased.len()
        <= RS_ECC_SYMBOLS
}

/// Decodes an ECC stream back into the payload, each 255-byte block on its own.
/// `erasures` are positions in the stream that are known to be missing; to name
/// one twice does not matter. Fails where a block cannot be recovered, with the
/// failure of the first such block.
pub fn rs_decode(data: &[u8], erasures: Option<&[usize]>) -> (r: Result<Vec<u8>, ReedSolomonError>)
    ensures
        outcome(r) == decoded_stream(data@, erasure_list(erasures)),
        1 <= data@.len() % RS_BLOCK_SIZE as nat <= RS_ECC_SYMBOLS ==> r is Err,
        forall|payload: Seq<u8>|
            #[trigger] recoverable(payload, data@, erasure_list(erasures)) ==> outcome(r) == Ok::<
                Seq<u8>,
                ReedSolomonError,
            >(payload),
        r is Ok ==> r->Ok_0@.len() + RS_ECC_SYMBOLS * ecc_blocks(data@.len() as int)
            == data@.len(),
        forall|k: int|
            0 <= k < ecc_blocks(data@.len() as int) && (#[trigger] block_erasures(
                data@,
                erasure_list(erasures),
                k,
            )).len() > RS_ECC_SYMBOLS ==> r is Err,
        r is Ok ==> forall|k: int|
            0 <= k < ecc_blocks(data@.len() as int) ==> reach_holds(
                #[trigger] chunks::chunk(data@, RS_BLOCK_SIZE as int, k),
                block_erasures(data@, erasure_list(erasures), k),
            ),
        r is Err ==> exists|k: int|
            0 <= k < ecc_blocks(data@.len() as int) && beyond_reach(
                #[trigger] chunks::chunk(data@, RS_BLOCK_SIZE as int, k),
                block_erasures(data@, erasure_list(erasures), k),
            ),
{
    let ghost list = erasure_list(erasures);
    proof {
        if 1 <= data@.len() % RS_BLOCK_SIZE as nat <= RS_ECC_SYMBOLS {
            theorem_short_block_fails(data@, list);
        }
    }
    let n_blocks: usize = chunks::count_chunks(data.len(), RS_BLOCK_SIZE);
    let parallel: bool = n_blocks >= PARALLEL_RS_MIN_BLOCKS;
    proof {
        assert forall|k: int| 0 <= k < n_blocks implies fits_stream(
            #[trigger] chunks::chunk(data@, RS_BLOCK_SIZE as int, k),
            k,
        ) && k * RS_BLOCK_SIZE + chunks::chunk(data@, RS_BLOCK_SIZE as int, k).len()
            == chunks::chunk_end(data@.len() as int, RS_BLOCK_SIZE as int, k) by {
            chunks::lemma_chunk_bounds(data@.len() as int, RS_BLOCK_SIZE as int, k);
            assert(data.len() <= usize::MAX);
        }
    }
    let decoded: Vec<Result<Vec<u8>, ReedSolomonError>> = if parallel {
        chunks::par_map_chunks(
            data,
            RS_BLOCK_SIZE,
            |k: usize, block: &[u8]| -> (r: Result<Vec<u8>, ReedSolomonError>)
                requires
                    fits_stream(block@, k as int),
                ensures
                    block_decoded(r, block@, erasure_list(erasures), k as int)
                { decode_block(block, k * RS_BLOCK_SIZE, erasures) },
        )
    } else {
        Vec::new()
    };
    let mut payload: Vec<u8> = Vec::new();
    let mut k: usize = 0;
    assert(n_blocks == 0 ==> data@.len() == 0);
    while k < n_blocks
        invariant
            0 <= k <= n_blocks,
            n_blocks == ecc_blocks(data@.len() as int),
            list == erasure_list(erasures),
            forall|j: int|
                0 <= j < n_blocks ==> fits_stream(
                    #[trigger] chunks::chunk(data@, RS_BLOCK_SIZE as int, j),
                    j,
                ) && j * RS_BLOCK_SIZE + chunks::chunk(data@, RS_BLOCK_SIZE as int, j).len()
                    == chunks::chunk_end(data@.len() as int, RS_BLOCK_SIZE as int, j),
            parallel ==> decoded@.len() == n_blocks,
            parallel ==> forall|j: int|
                0 <= j < n_blocks ==> block_decoded(
                    #[trigger] decoded@[j],
                    chunks::chunk(data@, RS_BLOCK_SIZE as int, j),
                    list,
                    j,
                ),
            forall|j: int|
                0 <= j < k ==> reach_holds(
                    #[trigger] chunks::chunk(data@, RS_BLOCK_SIZE as int, j),
                    block_erasures(data@, list, j),
                ),
            forall|j: int|
                0 <= j < k ==> (#[trigger] block_erasures(data@, list, j)).len() <= RS_ECC_SYMBOLS,
            decoded_blocks(data@, list, k as nat) == Ok::<Seq<u8>, ReedSolomonError>(payload@),
            payload@.len() + RS_ECC_SYMBOLS * k == (if k < n_blocks {
                k * RS_BLOCK_SIZE
            } else {
                data@.len() as int
            }),
        decreases n_blocks - k,
    {
        let ghost block = chunks::chunk(data@, RS_BLOCK_SIZE as int, k as int);
        assert(fits_stream(block, k as int));
        proof {
            chunks::lemma_chunk_bounds(data@.len() as int, RS_BLOCK_SIZE as int, k as int);
        }
        let ghost before = payload@;
        let failure: Option<ReedSolomonError> = if parallel {
            assert(block_decoded(decoded@[k as int], block, list, k as int));
            match &decoded[k] {
                Ok(part) => {
                    payload.extend_from_slice(part);
                    assert(payload@ =~= before + part@);
                    None
                },
                Err(e) => Some(*e),
            }
        } else {
            let start: usize = k * RS_BLOCK_SIZE;
            let end: usize = if data.len() - start > RS_BLOCK_SIZE {
                start + RS_BLOCK_SIZE
            } else {
                data.len()
            };
            assert(data@.subrange(start as int, end as int) == block);
            match decode_block(&data[start..end], start, erasures) {
                Ok(part) => {
                    payload.extend_from_slice(&part);
                    assert(payload@ =~= before + part@);
                    None
                },
                Err(e) => Some(e),
            }
        };
        assert(reach_holds(block, block_erasures(data@, list, k as int)));
        if let Some(e) = failure {
            proof {
                assert(beyond_reach(block, block_erasures(data@, list, k as int)));
                lemma_failure_stays(data@, list, (k + 1) as nat, n_blocks as nat);
                assert forall|p: Seq<u8>| #[trigger] recoverable(p, data@, list) implies false by {
                    lemma_recoverable_prefix(p, data@, list, (k + 1) as nat);
                }
            }
            return Err(e);
        }
        k = k + 1;
    }
    proof {
        assert forall|p: Seq<u8>| #[trigger] recoverable(p, data@, list) implies Ok::<
            Seq<u8>,
            ReedSolomonError,
        >(payload@) == Ok::<Seq<u8>, ReedSolomonError>(p) by {
            lemma_recoverable_prefix(p, data@, list, n_blocks as nat);
        }
    }
    Ok(payload)
}

} // verus!
