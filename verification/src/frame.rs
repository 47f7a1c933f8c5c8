//! The video channel: frame layout, frame indices, blocks drawn as pixels and
//! read back from their centres.

use vstd::arithmetic::power2;
use vstd::prelude::*;

use crate::bits;
use crate::chunks;
use crate::constants::{
    BLOCK_SAMPLE_MARGIN, BLOCK_SIZE, COLS, DEFAULT_FRAME_INDEX_BITS, EXTENDED_FRAME_INDEX_BITS,
    FRAME_HEIGHT, FRAME_WIDTH, MAX_FRAME_COUNT_DEFAULT, ROWS, SYNC_BITS, SYNC_PATTERN, THRESHOLD,
    TOTAL_BLOCKS,
};

verus! {

/// Luma of a black block.
pub const BLACK_Y: u8 = 16;

/// Luma of a white block.
pub const WHITE_Y: u8 = 235;

// ---------------------------------------------------------------------------
// Layout
// ---------------------------------------------------------------------------

/// Index widths whose data region is a positive number of whole bytes.
pub open spec fn byte_aligned_width(index_bits: int) -> bool {
    0 <= index_bits < TOTAL_BLOCKS - SYNC_BITS && (TOTAL_BLOCKS - SYNC_BITS - index_bits) % 8 == 0
}

/// Data bytes per frame at an index width.
pub open spec fn frame_bytes(index_bits: int) -> int {
    (TOTAL_BLOCKS - SYNC_BITS - index_bits) / 8
}

/// The index width chosen for a stream of `ecc_len` bytes.
pub open spec fn chosen_index_bits(ecc_len: int) -> int {
    if ecc_len <= MAX_FRAME_COUNT_DEFAULT * frame_bytes(DEFAULT_FRAME_INDEX_BITS as int) {
        DEFAULT_FRAME_INDEX_BITS as int
    } else {
        EXTENDED_FRAME_INDEX_BITS as int
    }
}

/// `(header bits, data bits per frame)` at a frame-index width.
pub fn frame_layout(index_bits: usize) -> (layout: (usize, usize))
    requires
        byte_aligned_width(index_bits as int),
    ensures
        layout.0 == SYNC_BITS + index_bits,
        layout.1 == TOTAL_BLOCKS - SYNC_BITS - index_bits,
{
    let header_bits: usize = SYNC_BITS + index_bits;
    (header_bits, TOTAL_BLOCKS - header_bits)
}

/// Frames that carry `total_bits` bits at `data_bits_per_frame` each.
pub fn frames_needed(total_bits: usize, data_bits_per_frame: usize) -> (frames: usize)
    requires
        data_bits_per_frame > 0,
    ensures
        frames == chunks::chunk_count(total_bits as int, data_bits_per_frame as int),
{
    chunks::count_chunks(total_bits, data_bits_per_frame)
}

/// The frame-index width for an ECC stream of `ecc_len` bytes: 16 bits while
/// the stream fits in 65,536 frames, 32 bits otherwise.
pub fn select_index_bits(ecc_len: usize) -> (index_bits: usize)
    requires
        ecc_len * 8 <= usize::MAX,
    ensures
        index_bits == chosen_index_bits(ecc_len as int),
{
    let total_bits: usize = ecc_len * 8;
    let (_, data_bits_default) = frame_layout(DEFAULT_FRAME_INDEX_BITS);
    let frames_16: usize = frames_needed(total_bits, data_bits_default);
    assert(frame_bytes(DEFAULT_FRAME_INDEX_BITS as int) == 57);
    assert(frames_16 == (total_bits + 455) / 456);
    if frames_16 as u64 <= MAX_FRAME_COUNT_DEFAULT {
        DEFAULT_FRAME_INDEX_BITS
    } else {
        EXTENDED_FRAME_INDEX_BITS
    }
}

// ---------------------------------------------------------------------------
// Frame indices
// ---------------------------------------------------------------------------

/// The low `width` bits of an index, most significant first.
pub open spec fn index_bit_seq(idx: nat, width: nat) -> Seq<u8> {
    Seq::new(width, |i: int| ((idx / power2::pow2((width - 1 - i) as nat)) % 2) as u8)
}

/// The number that the low bits of `bits` spell, most significant first.
pub open spec fn bits_value(bits: Seq<u8>) -> nat
    decreases bits.len(),
{
    if bits.len() == 0 {
        0
    } else {
        2 * bits_value(bits.drop_last()) + (bits.last() % 2) as nat
    }
}

/// The index width is 16 bits exactly for streams of up to 65,536 frames of 57
/// bytes, and 32 bits for longer ones; a frame then holds 57 or 55 bytes.
pub proof fn theorem_index_width(ecc_len: int)
    ensures
        chosen_index_bits(ecc_len) == 16 || chosen_index_bits(ecc_len) == 32,
        chosen_index_bits(ecc_len) == 16 <==> ecc_len <= 65536 * 57,
        frame_bytes(chosen_index_bits(ecc_len)) == (if ecc_len <= 65536 * 57 {
            57int
        } else {
            55
        }),
{
}

/// An index that is written with one bit more has that bit at the end: the rest
/// is half of it.
pub proof fn theorem_index_bits_double(idx: nat, width: nat)
    ensures
        index_bit_seq(idx, 0).len() == 0,
        index_bit_seq(idx, width + 1) == index_bit_seq(idx / 2, width).push((idx % 2) as u8),
{
    let bits = index_bit_seq(idx, width + 1);
    power2::lemma2_to64();
    assert forall|i: int| 0 <= i < width implies bits[i] == index_bit_seq(idx / 2, width)[i] by {
        let e = (width - i) as nat;
        let e1 = (width - 1 - i) as nat;
        power2::lemma_pow2_unfold(e);
        power2::lemma_pow2_pos(e1);
        vstd::arithmetic::div_mod::lemma_div_denominator(idx as int, 2, power2::pow2(e1) as int);
    }
    assert(idx / power2::pow2(0) == idx);
    assert(bits =~= index_bit_seq(idx / 2, width).push((idx % 2) as u8));
}

/// Reading one more bit doubles the number and adds the bit.
pub proof fn theorem_bits_value_doubles(bits: Seq<u8>, b: u8)
    ensures
        bits_value(Seq::empty()) == 0,
        bits_value(bits.push(b)) == 2 * bits_value(bits) + b % 2,
{
    assert(bits.push(b).drop_last() =~= bits);
}

/// The low bits of an index spell the index modulo `2^width`.
pub proof fn lemma_index_bits_value(idx: nat, width: nat)
    ensures
        bits_value(index_bit_seq(idx, width)) == idx % power2::pow2(width),
    decreases width,
{
    power2::lemma_pow2_pos(width);
    if width == 0 {
        power2::lemma2_to64();
    } else {
        let w1 = (width - 1) as nat;
        let bits = index_bit_seq(idx, width);
        power2::lemma2_to64();
        assert(bits.drop_last() =~= index_bit_seq(idx / 2, w1)) by {
            assert forall|i: int| 0 <= i < w1 implies bits[i] == index_bit_seq(idx / 2, w1)[i] by {
                let e = (width - 1 - i) as nat;
                let e1 = (w1 - 1 - i) as nat;
                power2::lemma_pow2_unfold(e);
                power2::lemma_pow2_pos(e1);
                vstd::arithmetic::div_mod::lemma_div_denominator(
                    idx as int,
                    2,
                    power2::pow2(e1) as int,
                );
            }
        }
        lemma_index_bits_value(idx / 2, w1);
        assert(idx / power2::pow2(0) == idx);
        assert(bits.last() == (idx % 2) as u8);
        power2::lemma_pow2_unfold(width);
        power2::lemma_pow2_pos(w1);
        vstd::arithmetic::div_mod::lemma_breakdown(idx as int, 2, power2::pow2(w1) as int);
    }
}

/// A width wide enough for an index carries it: reading the bits back gives the
/// index.
pub proof fn lemma_index_round_trip(idx: nat, width: nat)
    requires
        idx < power2::pow2(width),
    ensures
        bits_value(index_bit_seq(idx, width)) == idx,
{
    lemma_index_bits_value(idx, width);
    vstd::arithmetic::div_mod::lemma_small_mod(idx, power2::pow2(width));
}

/// The `index_bits` low bits of `idx`, most significant first.
pub fn index_to_bits(idx: u64, index_bits: usize) -> (bits: Vec<u8>)
    requires
        index_bits <= 64,
    ensures
        bits@ == index_bit_seq(idx as nat, index_bits as nat),
{
    let mut bits: Vec<u8> = Vec::with_capacity(index_bits);
    let mut i: usize = 0;
    while i < index_bits
        invariant
            0 <= i <= index_bits <= 64,
            bits@ == index_bit_seq(idx as nat, index_bits as nat).take(i as int),
        decreases index_bits - i,
    {
        let shift: u64 = (index_bits - 1 - i) as u64;
        let shifted: u64 = idx >> shift;
        proof {
            vstd::bits::lemma_u64_shr_is_div(idx, shift);
            assert(shifted & 1 == shifted % 2) by (bit_vector);
        }
        bits.push((shifted & 1) as u8);
        i = i + 1;
        assert(bits@ =~= index_bit_seq(idx as nat, index_bits as nat).take(i as int));
    }
    assert(bits@ =~= index_bit_seq(idx as nat, index_bits as nat));
    bits
}

/// The number that `bits` spells, most significant first, modulo `2^64`.
pub fn bits_to_index(bits: &[u8]) -> (idx: u64)
    ensures
        idx == bits_value(bits@) % power2::pow2(64),
{
    let mut acc: u64 = 0;
    let mut i: usize = 0;
    proof {
        power2::lemma2_to64_rest();
    }
    while i < bits.len()
        invariant
            0 <= i <= bits@.len(),
            power2::pow2(64) == 0x1_0000_0000_0000_0000,
            acc == bits_value(bits@.take(i as int)) % power2::pow2(64),
        decreases bits@.len() - i,
    {
        let b: u8 = bits[i];
        let next: u64 = (acc << 1) | (b as u64 & 1);
        proof {
            let v = bits_value(bits@.take(i as int));
            assert(next == (2 * acc + (b % 2)) % 0x1_0000_0000_0000_0000) by (bit_vector)
                requires
                    next == (acc << 1) | (b as u64 & 1),
            ;
            assert(bits@.take(i + 1).drop_last() =~= bits@.take(i as int));
            assert(bits@.take(i + 1).last() == b);
            assert((2 * (v % 0x1_0000_0000_0000_0000) + (b % 2)) % 0x1_0000_0000_0000_0000 == (2 * v
                + (b % 2)) % 0x1_0000_0000_0000_0000);
        }
        acc = next;
        i = i + 1;
    }
    assert(bits@.take(i as int) =~= bits@);
    acc
}

// ---------------------------------------------------------------------------
// Blocks as pixels
// ---------------------------------------------------------------------------

/// The blocks of a data frame: sync pattern, frame index, data bits.
pub open spec fn frame_bits(idx: nat, data: Seq<u8>, index_bits: nat) -> Seq<u8> {
    SYNC_PATTERN@ + index_bit_seq(idx, index_bits) + bits::unpacked(data)
}

/// The block that byte `p` of a buffer with rows of `stride` bytes belongs to.
pub open spec fn block_of(p: int, stride: int) -> int {
    (p / stride / BLOCK_SIZE as int) * COLS + (p % stride) / (stride / COLS as int)
}

/// Byte `p` belongs to a white block.
pub open spec fn lit(blocks: Seq<u8>, p: int, stride: int) -> bool {
    p / stride < ROWS * BLOCK_SIZE && blocks[block_of(p, stride)] != 0
}

/// A frame with rows of `stride` bytes that shows `blocks`; the rows below the
/// grid are black.
pub open spec fn drawn(blocks: Seq<u8>, stride: int, black: u8, white: u8) -> Seq<u8> {
    Seq::new(
        (stride * FRAME_HEIGHT) as nat,
        |p: int| if lit(blocks, p, stride) { white } else { black },
    )
}

/// The rgb24 frame that shows `blocks`.
pub open spec fn rgb_frame(blocks: Seq<u8>) -> Seq<u8> {
    drawn(blocks, FRAME_WIDTH * 3, 0, 255)
}

/// The luma plane that shows `blocks`.
pub open spec fn luma_frame(blocks: Seq<u8>) -> Seq<u8> {
    drawn(blocks, FRAME_WIDTH as int, BLACK_Y, WHITE_Y)
}

/// The blocks of a data frame, one after the other: the sync pattern 10101100, the
/// index, and the data bytes, of which the bits add up to the bytes.
pub proof fn theorem_frame_bits(idx: nat, data: Seq<u8>, index_bits: nat)
    ensures
        ({
            let f = frame_bits(idx, data, index_bits);
            &&& f.len() == 8 + index_bits + 8 * data.len()
            &&& f.take(8) == seq![1u8, 0, 1, 0, 1, 1, 0, 0]
            &&& bits_value(f.subrange(8, (8 + index_bits) as int)) == idx % power2::pow2(index_bits)
            &&& forall|b: int| 0 <= b < f.len() ==> #[trigger] f[b] <= 1
            &&& forall|j: int|
                0 <= j < data.len() ==> {
                    let at = 8 + index_bits + 8 * j;
                    #[trigger] data[j] == 128 * f[at] + 64 * f[at + 1] + 32 * f[at + 2] + 16 * f[at
                        + 3] + 8 * f[at + 4] + 4 * f[at + 5] + 2 * f[at + 6] + f[at + 7]
                }
        }),
{
    let f = frame_bits(idx, data, index_bits);
    assert(SYNC_PATTERN@ =~= seq![1u8, 0, 1, 0, 1, 1, 0, 0]);
    assert(f.take(8) =~= seq![1u8, 0, 1, 0, 1, 1, 0, 0]);
    assert(f.subrange(8, (8 + index_bits) as int) =~= index_bit_seq(idx, index_bits));
    lemma_index_bits_value(idx, index_bits);
    let u = bits::unpacked(data);
    bits::lemma_unpacked_are_bits(data);
    assert forall|b: int| 0 <= b < f.len() implies #[trigger] f[b] <= 1 by {
        if b < 8 {
            assert(f[b] == f.take(8)[b]);
        } else if b < 8 + index_bits {
            assert(f[b] == index_bit_seq(idx, index_bits)[b - 8]);
        } else {
            assert(f[b] == u[b - 8 - index_bits]);
        }
    }
    assert forall|j: int| 0 <= j < data.len() implies {
        let at = 8 + index_bits + 8 * j;
        #[trigger] data[j] == 128 * f[at] + 64 * f[at + 1] + 32 * f[at + 2] + 16 * f[at + 3] + 8
            * f[at + 4] + 4 * f[at + 5] + 2 * f[at + 6] + f[at + 7]
    } by {
        bits::theorem_bits_add_up(data, j);
    }
}

/// Every block is drawn solid: all of its 64 by 64 pixels are white where the block
/// is set and black where it is not, in the luma plane and in all three channels of
/// the rgb24 frame. The 56 pixel rows below the blocks are black.
pub proof fn theorem_blocks_are_solid(blocks: Seq<u8>, x: int, y: int)
    requires
        blocks.len() == 480,
        0 <= x < 1920,
        0 <= y < 1080,
    ensures
        luma_frame(blocks).len() == 1920 * 1080,
        rgb_frame(blocks).len() == 1920 * 1080 * 3,
        forall|r: int, c: int|
            0 <= r < 16 && 0 <= c < 30 && r * 64 <= y < r * 64 + 64 && c * 64 <= x < c * 64 + 64
                ==> {
                let set = #[trigger] blocks[r * 30 + c] != 0;
                &&& luma_frame(blocks)[y * 1920 + x] == (if set {
                    235u8
                } else {
                    16u8
                })
                &&& forall|ch: int|
                    0 <= ch < 3 ==> #[trigger] rgb_frame(blocks)[(y * 1920 + x) * 3 + ch] == (
                    if set {
                        255u8
                    } else {
                        0u8
                    })
            },
        y >= 1024 ==> luma_frame(blocks)[y * 1920 + x] == 16u8,
        y >= 1024 ==> forall|ch: int|
            0 <= ch < 3 ==> #[trigger] rgb_frame(blocks)[(y * 1920 + x) * 3 + ch] == 0u8,
{
    let p = y * 1920 + x;
    assert(0 <= p < 1920 * 1080);
    assert(p / 1920 == y && p % 1920 == x);
    assert forall|ch: int| 0 <= ch < 3 implies (p * 3 + ch) / 5760 == y && (p * 3 + ch) % 5760 == x * 3
        + ch && 0 <= #[trigger] (p * 3 + ch) < 1920 * 1080 * 3 by {}
    assert forall|r: int, c: int|
        0 <= r < 16 && 0 <= c < 30 && r * 64 <= y < r * 64 + 64 && c * 64 <= x < c * 64 + 64 implies {
        let set = #[trigger] blocks[r * 30 + c] != 0;
        &&& luma_frame(blocks)[p] == (if set {
            235u8
        } else {
            16u8
        })
        &&& forall|ch: int|
            0 <= ch < 3 ==> #[trigger] rgb_frame(blocks)[p * 3 + ch] == (if set {
                255u8
            } else {
                0u8
            })
    } by {
        assert(y / 64 == r && x / 64 == c);
        assert(block_of(p, 1920) == r * 30 + c);
        assert forall|ch: int| 0 <= ch < 3 implies #[trigger] rgb_frame(blocks)[p * 3 + ch] == (
        if blocks[r * 30 + c] != 0 {
            255u8
        } else {
            0u8
        }) by {
            let q = p * 3 + ch;
            assert(q / 5760 == y && q % 5760 == x * 3 + ch);
            assert((x * 3 + ch) / 192 == c);
            assert(block_of(q, 5760) == r * 30 + c);
        }
    }
    if y >= 1024 {
        assert forall|ch: int| 0 <= ch < 3 implies #[trigger] rgb_frame(blocks)[p * 3 + ch]
            == 0u8 by {
            let q = p * 3 + ch;
            assert(q / 5760 == y);
        }
    }
}

/// A block is a rectangle.
proof fn lemma_block_rect(p: int, b: int, stride: int)
    requires
        0 <= p,
        0 <= b < TOTAL_BLOCKS,
        stride == FRAME_WIDTH || stride == FRAME_WIDTH * 3,
    ensures
        crate::raster::in_rect(
            p,
            stride,
            (b % (COLS as int)) * (stride / COLS as int),
            (b / COLS as int) * BLOCK_SIZE,
            stride / COLS as int,
            BLOCK_SIZE as int,
        ) <==> (p / stride < ROWS * BLOCK_SIZE && block_of(p, stride) == b),
        0 <= p % stride < stride,
{
    let y = p / stride;
    let x = p % stride;
    let w = stride / COLS as int;
    assert(w == 64 || w == 192);
    assert(0 <= x < stride && 0 <= y) by {
        if w == 64 {
            assert(stride == 1920);
        } else {
            assert(stride == 5760);
        }
    }
    if w == 64 {
        assert(0 <= x / 64 < 30);
    } else {
        assert(0 <= x / 192 < 30);
    }
    let r = b / 30;
    let c = b % 30;
    assert(0 <= r < 16 && 0 <= c < 30);
    if w == 64 {
        assert((c * 64 <= x < c * 64 + 64) <==> x / 64 == c);
    } else {
        assert((c * 192 <= x < c * 192 + 192) <==> x / 192 == c);
    }
    assert((r * 64 <= y < r * 64 + 64) <==> y / 64 == r);
}

/// The blocks of a data frame.
fn block_bits(frame_idx: u64, data_bytes: &[u8], index_bits: usize) -> (blocks: Vec<u8>)
    requires
        index_bits <= 64,
    ensures
        blocks@ == frame_bits(frame_idx as nat, data_bytes@, index_bits as nat),
{
    let mut blocks: Vec<u8> = Vec::with_capacity(TOTAL_BLOCKS);
    let mut i: usize = 0;
    while i < SYNC_BITS
        invariant
            0 <= i <= SYNC_BITS,
            blocks@ == SYNC_PATTERN@.take(i as int),
        decreases SYNC_BITS - i,
    {
        blocks.push(SYNC_PATTERN[i]);
        i = i + 1;
        assert(blocks@ =~= SYNC_PATTERN@.take(i as int));
    }
    assert(blocks@ =~= SYNC_PATTERN@);
    let mut index: Vec<u8> = index_to_bits(frame_idx, index_bits);
    blocks.append(&mut index);
    bits::unpack_bits_into(&mut blocks, data_bytes);
    blocks
}

/// Draws `blocks` into a frame with rows of `stride` bytes.
fn draw(blocks: &Vec<u8>, stride: usize, black: u8, white: u8) -> (frame: Vec<u8>)
    requires
        blocks@.len() == TOTAL_BLOCKS,
        stride == FRAME_WIDTH || stride == FRAME_WIDTH * 3,
    ensures
        frame@ == drawn(blocks@, stride as int, black, white),
{
    let mut frame: Vec<u8> = vec![black; stride * FRAME_HEIGHT];
    let width: usize = stride / COLS;
    let mut b: usize = 0;
    proof {
        assert forall|p: int| 0 <= p < frame@.len() && lit(blocks@, p, stride as int) implies 0
            <= #[trigger] block_of(p, stride as int) by {
            lemma_block_rect(p, 0, stride as int);
            if stride == FRAME_WIDTH {
                assert(0 <= (p % 1920) / 64);
            } else {
                assert(0 <= (p % 5760) / 192);
            }
            assert(0 <= p / stride as int / 64);
        }
    }
    while b < TOTAL_BLOCKS
        invariant
            0 <= b <= TOTAL_BLOCKS,
            blocks@.len() == TOTAL_BLOCKS,
            stride == FRAME_WIDTH || stride == FRAME_WIDTH * 3,
            width == stride / COLS,
            width == 64 && stride == 1920 || width == 192 && stride == 5760,
            frame.len() == stride * FRAME_HEIGHT,
            forall|p: int|
                0 <= p < frame@.len() ==> #[trigger] frame@[p] == (if lit(
                    blocks@,
                    p,
                    stride as int,
                ) && block_of(p, stride as int) < b {
                    white
                } else {
                    black
                }),
        decreases TOTAL_BLOCKS - b,
    {
        if blocks[b] != 0 {
            let ghost before = frame@;
            proof {
                let c = (b % COLS) as int;
                let r = (b / COLS) as int;
                assert(0 <= c < 30 && 0 <= r < 16);
                if width == 64 {
                    assert(c * width == c * 64);
                } else {
                    assert(c * width == c * 192);
                }
                assert((r * 64 + 64) * stride <= 1024 * stride) by (nonlinear_arith)
                    requires
                        r < 16,
                ;
            }
            let x0: usize = (b % COLS) * width;
            let y0: usize = (b / COLS) * BLOCK_SIZE;
            crate::raster::fill_rect(&mut frame, stride, x0, y0, width, BLOCK_SIZE, white);
            assert forall|p: int| 0 <= p < frame@.len() implies #[trigger] frame@[p] == (if lit(
                blocks@,
                p,
                stride as int,
            ) && block_of(p, stride as int) < b + 1 {
                white
            } else {
                black
            }) by {
                lemma_block_rect(p, b as int, stride as int);
                assert(before[p] == before[p]);
            }
        }
        b = b + 1;
    }
    proof {
        assert forall|p: int| 0 <= p < frame@.len() implies #[trigger] frame@[p] == drawn(
            blocks@,
            stride as int,
            black,
            white,
        )[p] by {
            if p / (stride as int) < ROWS * BLOCK_SIZE {
                let y = p / stride as int;
                if stride == FRAME_WIDTH {
                    assert(0 <= (p % 1920) / 64 < 30);
                } else {
                    assert(0 <= (p % 5760) / 192 < 30);
                }
                assert(y / 64 < 16);
                assert(block_of(p, stride as int) < TOTAL_BLOCKS);
            }
        }
        assert(frame@ =~= drawn(blocks@, stride as int, black, white));
    }
    frame
}

/// Draws a data frame as a 1920x1080 rgb24 buffer: sync pattern, frame index
/// and `data_bytes`, most significant bit first, over a grid of 30 by 16 black
/// or white blocks of 64 by 64 pixels. The rows below the grid stay black.
pub fn make_frame(frame_idx: u64, data_bytes: &[u8], index_bits: usize) -> (frame: Vec<u8>)
    requires
        index_bits <= 64,
        SYNC_BITS + index_bits + data_bytes@.len() * 8 == TOTAL_BLOCKS,
    ensures
        frame@ == rgb_frame(frame_bits(frame_idx as nat, data_bytes@, index_bits as nat)),
        frame_idx < power2::pow2(index_bits as nat) ==> frame_content(
            sampled(frame@),
            8 + index_bits,
        ) == Some((frame_idx as nat, data_bytes@)),
{
    proof {
        if frame_idx < power2::pow2(index_bits as nat) {
            theorem_frame_round_trip(frame_idx as nat, data_bytes@, index_bits as nat);
        }
    }
    let blocks: Vec<u8> = block_bits(frame_idx, data_bytes, index_bits);
    draw(&blocks, FRAME_WIDTH * 3, 0, 255)
}

/// Draws a data frame as a 1920x1080 luma plane, with [`BLACK_Y`] for black and
/// [`WHITE_Y`] for white.
pub fn make_frame_luma(frame_idx: u64, data_bytes: &[u8], index_bits: usize) -> (luma: Vec<u8>)
    requires
        index_bits <= 64,
        SYNC_BITS + index_bits + data_bytes@.len() * 8 == TOTAL_BLOCKS,
    ensures
        luma@ == luma_frame(frame_bits(frame_idx as nat, data_bytes@, index_bits as nat)),
        frame_idx < power2::pow2(index_bits as nat) ==> forall|rgb: Seq<u8>| #[trigger]
            follows(rgb, luma@) ==> frame_content(sampled(rgb), 8 + index_bits) == Some(
                (frame_idx as nat, data_bytes@),
            ),
{
    proof {
        let shown = frame_bits(frame_idx as nat, data_bytes@, index_bits as nat);
        if frame_idx < power2::pow2(index_bits as nat) {
            theorem_frame_bits_content(frame_idx as nat, data_bytes@, index_bits as nat);
            assert forall|rgb: Seq<u8>| #[trigger]
                follows(rgb, luma_frame(shown)) implies frame_content(
                sampled(rgb),
                8 + index_bits,
            ) == Some((frame_idx as nat, data_bytes@)) by {
                theorem_luma_frame_shows(rgb, shown);
                theorem_shown_blocks_are_read(rgb, shown);
            }
        }
    }
    let blocks: Vec<u8> = block_bits(frame_idx, data_bytes, index_bits);
    draw(&blocks, FRAME_WIDTH, BLACK_Y, WHITE_Y)
}

// ---------------------------------------------------------------------------
// Blocks from pixels
// ---------------------------------------------------------------------------

/// Side of the sampled centre of a block, in pixels: 32.
pub open spec fn centre() -> int {
    BLOCK_SIZE - 2 * BLOCK_SAMPLE_MARGIN
}

/// Offset in an rgb24 frame of the red sample of pixel `(xx, yy)` of the centre
/// of block `b`.
pub open spec fn sample_at(b: int, yy: int, xx: int) -> int {
    (((b / COLS as int) * BLOCK_SIZE + BLOCK_SAMPLE_MARGIN + yy) * FRAME_WIDTH + (b % (
    COLS as int)) * BLOCK_SIZE + BLOCK_SAMPLE_MARGIN + xx) * 3
}

/// Sum of the first `n` samples of row `yy` of the centre of block `b`.
pub open spec fn row_sum(frame: Seq<u8>, b: int, yy: int, n: nat) -> nat
    decreases n,
{
    if n == 0 {
        0
    } else {
        row_sum(frame, b, yy, (n - 1) as nat) + frame[sample_at(b, yy, n - 1)] as nat
    }
}

/// Sum of the samples of the first `n` rows of the centre of block `b`.
pub open spec fn centre_sum(frame: Seq<u8>, b: int, n: nat) -> nat
    decreases n,
{
    if n == 0 {
        0
    } else {
        centre_sum(frame, b, (n - 1) as nat) + row_sum(frame, b, n - 1, centre() as nat)
    }
}

/// The blocks read from an rgb24 frame: a block is white where the mean red
/// sample of its centre reaches [`THRESHOLD`].
pub open spec fn sampled(frame: Seq<u8>) -> Seq<u8> {
    Seq::new(
        TOTAL_BLOCKS as nat,
        |b: int|
            if centre_sum(frame, b, centre() as nat) >= THRESHOLD * centre() * centre() {
                1u8
            } else {
                0u8
            },
    )
}

/// Frames long enough to hold every sample.
pub open spec fn holds_samples(frame: Seq<u8>) -> bool {
    frame.len() > sample_at(TOTAL_BLOCKS - 1, centre() - 1, centre() - 1)
}

/// In the centre of every block the red samples are on the side of the
/// threshold that `blocks` says.
pub open spec fn shows(frame: Seq<u8>, blocks: Seq<u8>) -> bool {
    &&& holds_samples(frame)
    &&& blocks.len() == TOTAL_BLOCKS
    &&& forall|b: int, yy: int, xx: int|
        0 <= b < TOTAL_BLOCKS && 0 <= yy < centre() && 0 <= xx < centre() ==> ((#[trigger] frame[
            sample_at(b, yy, xx)] >= THRESHOLD) <==> blocks[b] != 0)
}

/// An rgb24 frame as a video shows a luma plane: each red sample is on the side of
/// the threshold that the luma of its pixel is on. A frame whose red samples
/// repeat the luma is one.
pub open spec fn follows(frame: Seq<u8>, luma: Seq<u8>) -> bool {
    &&& frame.len() == 3 * luma.len()
    &&& forall|p: int|
        0 <= p < luma.len() ==> (frame[3 * p] >= THRESHOLD) == (#[trigger] luma[p] >= THRESHOLD)
}

/// The index and the data bytes that the blocks of a data frame carry; none
/// where the sync pattern is not there.
pub open spec fn frame_content(blocks: Seq<u8>, header_bits: int) -> Option<(nat, Seq<u8>)> {
    if blocks.take(SYNC_BITS as int) == SYNC_PATTERN@ {
        Some(
            (
                bits_value(blocks.subrange(SYNC_BITS as int, header_bits)) % power2::pow2(64),
                bits::packed(blocks.skip(header_bits)),
            ),
        )
    } else {
        None
    }
}

/// The sum over the first `n` samples of a row is within what bytes can add up
/// to, and on the side of the threshold that all of them are on.
proof fn lemma_row_bounds(frame: Seq<u8>, b: int, yy: int, n: nat)
    ensures
        row_sum(frame, b, yy, n) <= 255 * n,
        (forall|xx: int| 0 <= xx < n ==> #[trigger] frame[sample_at(b, yy, xx)] >= THRESHOLD)
            ==> row_sum(frame, b, yy, n) >= 128 * n,
        (forall|xx: int| 0 <= xx < n ==> #[trigger] frame[sample_at(b, yy, xx)] < THRESHOLD)
            ==> row_sum(frame, b, yy, n) <= 127 * n,
    decreases n,
{
    if n > 0 {
        lemma_row_bounds(frame, b, yy, (n - 1) as nat);
        assert(frame[sample_at(b, yy, n - 1)] <= 255);
    }
}

/// The sum over the first `n` rows of a centre is within what bytes can add up
/// to, and on the side of the threshold that all of its samples are on.
pub proof fn lemma_centre_bounds(frame: Seq<u8>, b: int, n: nat)
    ensures
        centre_sum(frame, b, n) <= 8160 * n,
        (forall|yy: int, xx: int|
            0 <= yy < n && 0 <= xx < centre() ==> #[trigger] frame[sample_at(b, yy, xx)]
                >= THRESHOLD) ==> centre_sum(frame, b, n) >= 4096 * n,
        (forall|yy: int, xx: int|
            0 <= yy < n && 0 <= xx < centre() ==> #[trigger] frame[sample_at(b, yy, xx)]
                < THRESHOLD) ==> centre_sum(frame, b, n) <= 4064 * n,
    decreases n,
{
    assert(centre() == 32);
    if n > 0 {
        lemma_centre_bounds(frame, b, (n - 1) as nat);
        lemma_row_bounds(frame, b, n - 1, 32);
    }
}

/// A frame that shows `blocks` is read as `blocks`, whatever the samples are
/// exactly.
pub proof fn theorem_shown_blocks_are_read(frame: Seq<u8>, blocks: Seq<u8>)
    requires
        shows(frame, blocks),
        forall|b: int| 0 <= b < blocks.len() ==> #[trigger] blocks[b] <= 1,
    ensures
        sampled(frame) == blocks,
{
    assert forall|b: int| 0 <= b < TOTAL_BLOCKS implies #[trigger] sampled(frame)[b]
        == blocks[b] by {
        assert(centre() == 32);
        lemma_centre_bounds(frame, b, 32);
        if blocks[b] != 0 {
            assert forall|yy: int, xx: int| 0 <= yy < 32 && 0 <= xx < centre() implies #[trigger] frame[
            sample_at(b, yy, xx)] >= THRESHOLD by {}
        } else {
            assert forall|yy: int, xx: int| 0 <= yy < 32 && 0 <= xx < centre() implies #[trigger] frame[
            sample_at(b, yy, xx)] < THRESHOLD by {}
        }
    }
    assert(sampled(frame) =~= blocks);
}

/// A frame holds every sample where it reaches behind the last one, that of pixel
/// `(1903, 1007)`; a whole rgb24 frame does. An index width leaves whole bytes for data.
pub proof fn theorem_samples_held(frame: Seq<u8>, index_bits: int)
    ensures
        holds_samples(frame) <==> frame.len() > (1007 * 1920 + 1903) * 3,
        frame.len() == 1920 * 1080 * 3 ==> holds_samples(frame),
        byte_aligned_width(index_bits) <==> (0 <= index_bits < 472 && index_bits % 8 == 0),
        byte_aligned_width(index_bits) ==> 8 + index_bits + 8 * frame_bytes(index_bits) == 480
            && frame_bytes(index_bits) > 0,
{
}

/// Where in an rgb24 frame the red sample of pixel `(x, y)` of block `b` stands.
pub open spec fn red_of_block(b: int, x: int, y: int) -> int {
    ((b / 30 * 64 + y) * 1920 + b % 30 * 64 + x) * 3
}

/// Every sample of the centre of a block counts, and counts alike: changing one of
/// the 32 by 32 red samples at `16 <= x < 48`, `16 <= y < 48` changes the sum by just
/// as much, and a centre of zeros has the sum zero. A block is white exactly where
/// the sum reaches 128 for each of the 1024 samples. Nothing outside the centre
/// counts.
pub proof fn theorem_every_sample_counts(frame: Seq<u8>, b: int, x: int, y: int, v: u8)
    requires
        0 <= b < 480,
        16 <= x < 48,
        16 <= y < 48,
        frame.len() >= 1920 * 1080 * 3,
    ensures
        sampled(frame).len() == 480,
        sampled(frame)[b] == (if centre_sum(frame, b, 32) >= 128 * 1024 {
            1u8
        } else {
            0u8
        }),
        centre_sum(frame.update(red_of_block(b, x, y), v), b, 32) == centre_sum(frame, b, 32)
            - frame[red_of_block(b, x, y)] + v,
        (forall|i: int, j: int|
            16 <= i < 48 && 16 <= j < 48 ==> frame[#[trigger] red_of_block(b, i, j)] == 0)
            ==> centre_sum(frame, b, 32) == 0,
        forall|other: Seq<u8>|
            (forall|i: int, j: int|
                16 <= i < 48 && 16 <= j < 48 ==> frame[#[trigger] red_of_block(b, i, j)]
                    == other[red_of_block(b, i, j)]) ==> #[trigger] centre_sum(other, b, 32)
                == centre_sum(frame, b, 32),
{
    assert(centre() == 32);
    let at = red_of_block(b, x, y);
    let (yy, xx) = (y - 16, x - 16);
    assert(at == sample_at(b, yy, xx));
    assert(0 <= at < frame.len());
    lemma_centre_update(frame, b, yy, xx, v, 32);
    if forall|i: int, j: int|
        16 <= i < 48 && 16 <= j < 48 ==> frame[#[trigger] red_of_block(b, i, j)] == 0 {
        assert forall|j: int, i: int| 0 <= j < 32 && 0 <= i < 32 implies frame[
        #[trigger] sample_at(b, j, i)] == 0 by {
            assert(sample_at(b, j, i) == red_of_block(b, i + 16, j + 16));
        }
        lemma_centre_zero(frame, b, 32);
    }
    assert forall|other: Seq<u8>|
        (forall|i: int, j: int|
            16 <= i < 48 && 16 <= j < 48 ==> frame[#[trigger] red_of_block(b, i, j)]
                == other[red_of_block(b, i, j)]) implies #[trigger] centre_sum(other, b, 32)
        == centre_sum(frame, b, 32) by {
        assert forall|j: int, i: int| 0 <= j < 32 && 0 <= i < 32 implies frame[
        #[trigger] sample_at(b, j, i)] == other[sample_at(b, j, i)] by {
            assert(sample_at(b, j, i) == red_of_block(b, i + 16, j + 16));
        }
        lemma_centre_same(frame, other, b, 32);
    }
}

/// One dark pixel, however dark and wherever in the centre, does not turn a white
/// block black, nor one bright pixel a black block white.
pub proof fn theorem_one_pixel_does_not_decide(frame: Seq<u8>, b: int, x: int, y: int)
    requires
        0 <= b < 480,
        16 <= x < 48,
        16 <= y < 48,
        frame.len() >= 1920 * 1080 * 3,
    ensures
        (forall|i: int, j: int|
            16 <= i < 48 && 16 <= j < 48 && (i != x || j != y) ==> frame[
            #[trigger] red_of_block(b, i, j)] == 255) ==> sampled(frame)[b] == 1,
        (forall|i: int, j: int|
            16 <= i < 48 && 16 <= j < 48 && (i != x || j != y) ==> frame[
            #[trigger] red_of_block(b, i, j)] == 0) ==> sampled(frame)[b] == 0,
{
    let at = red_of_block(b, x, y);
    theorem_every_sample_counts(frame, b, x, y, 255);
    theorem_every_sample_counts(frame, b, x, y, 0);
    assert(at == sample_at(b, y - 16, x - 16));
    let full = frame.update(at, 255);
    let none = frame.update(at, 0);
    if forall|i: int, j: int|
        16 <= i < 48 && 16 <= j < 48 && (i != x || j != y) ==> frame[
        #[trigger] red_of_block(b, i, j)] == 255 {
        assert forall|j: int, i: int| 0 <= j < 32 && 0 <= i < 32 implies full[
        #[trigger] sample_at(b, j, i)] == 255 by {
            assert(sample_at(b, j, i) == red_of_block(b, i + 16, j + 16));
        }
        lemma_centre_full(full, b, 32);
    }
    if forall|i: int, j: int|
        16 <= i < 48 && 16 <= j < 48 && (i != x || j != y) ==> frame[
        #[trigger] red_of_block(b, i, j)] == 0 {
        assert forall|j: int, i: int| 0 <= j < 32 && 0 <= i < 32 implies none[
        #[trigger] sample_at(b, j, i)] == 0 by {
            assert(sample_at(b, j, i) == red_of_block(b, i + 16, j + 16));
        }
        lemma_centre_zero(none, b, 32);
    }
}

/// A row of a centre after one sample has changed.
proof fn lemma_row_update(frame: Seq<u8>, b: int, yy: int, y: int, x: int, v: u8, n: nat)
    requires
        0 <= b < 480,
        0 <= y < 32,
        0 <= yy < 32,
        0 <= x < 32,
        n <= 32,
        frame.len() >= 1920 * 1080 * 3,
    ensures
        row_sum(frame.update(sample_at(b, y, x), v), b, yy, n) == row_sum(frame, b, yy, n) + (if yy
            == y && x < n {
            v - frame[sample_at(b, y, x)]
        } else {
            0
        }),
    decreases n,
{
    if n > 0 {
        lemma_row_update(frame, b, yy, y, x, v, (n - 1) as nat);
        assert(sample_at(b, yy, n - 1) == sample_at(b, y, x) <==> yy == y && n - 1 == x);
        assert(0 <= sample_at(b, y, x) < frame.len());
        assert(0 <= sample_at(b, yy, n - 1) < frame.len());
    }
}

/// The rows of a centre after one sample has changed.
proof fn lemma_centre_update(frame: Seq<u8>, b: int, y: int, x: int, v: u8, n: nat)
    requires
        0 <= b < 480,
        0 <= y < 32,
        0 <= x < 32,
        n <= 32,
        frame.len() >= 1920 * 1080 * 3,
    ensures
        centre_sum(frame.update(sample_at(b, y, x), v), b, n) == centre_sum(frame, b, n) + (if y
            < n {
            v - frame[sample_at(b, y, x)]
        } else {
            0
        }),
    decreases n,
{
    assert(centre() == 32);
    if n > 0 {
        lemma_centre_update(frame, b, y, x, v, (n - 1) as nat);
        lemma_row_update(frame, b, n - 1, y, x, v, 32);
    }
}

/// Frames with the same samples in a centre have the same sum.
proof fn lemma_centre_same(frame: Seq<u8>, other: Seq<u8>, b: int, n: nat)
    requires
        n <= 32,
        forall|yy: int, xx: int|
            0 <= yy < 32 && 0 <= xx < 32 ==> frame[#[trigger] sample_at(b, yy, xx)]
                == other[sample_at(b, yy, xx)],
    ensures
        centre_sum(other, b, n) == centre_sum(frame, b, n),
    decreases n,
{
    assert(centre() == 32);
    if n > 0 {
        lemma_centre_same(frame, other, b, (n - 1) as nat);
        lemma_row_same(frame, other, b, n - 1, 32);
    }
}

/// Frames with the same samples in a row of a centre have the same sum.
proof fn lemma_row_same(frame: Seq<u8>, other: Seq<u8>, b: int, yy: int, n: nat)
    requires
        n <= 32,
        0 <= yy < 32,
        forall|yy: int, xx: int|
            0 <= yy < 32 && 0 <= xx < 32 ==> frame[#[trigger] sample_at(b, yy, xx)]
                == other[sample_at(b, yy, xx)],
    ensures
        row_sum(other, b, yy, n) == row_sum(frame, b, yy, n),
    decreases n,
{
    if n > 0 {
        lemma_row_same(frame, other, b, yy, (n - 1) as nat);
    }
}

/// A row of one value.
proof fn lemma_row_of(frame: Seq<u8>, b: int, yy: int, v: u8, n: nat)
    requires
        n <= 32,
        0 <= yy < 32,
        forall|yy: int, xx: int|
            0 <= yy < 32 && 0 <= xx < 32 ==> frame[#[trigger] sample_at(b, yy, xx)] == v,
    ensures
        row_sum(frame, b, yy, n) == v * n,
    decreases n,
{
    if n > 0 {
        lemma_row_of(frame, b, yy, v, (n - 1) as nat);
        assert(v * n == v * (n - 1) + v) by (nonlinear_arith)
            requires
                n > 0,
        ;
    } else {
        assert(v * n == 0) by (nonlinear_arith)
            requires
                n == 0,
        ;
    }
}

/// A centre of zeros.
proof fn lemma_centre_zero(frame: Seq<u8>, b: int, n: nat)
    requires
        n <= 32,
        forall|yy: int, xx: int|
            0 <= yy < 32 && 0 <= xx < 32 ==> frame[#[trigger] sample_at(b, yy, xx)] == 0,
    ensures
        centre_sum(frame, b, n) == 0,
    decreases n,
{
    assert(centre() == 32);
    if n > 0 {
        lemma_centre_zero(frame, b, (n - 1) as nat);
        lemma_row_of(frame, b, n - 1, 0, 32);
    }
}

/// A centre of the greatest samples.
proof fn lemma_centre_full(frame: Seq<u8>, b: int, n: nat)
    requires
        n <= 32,
        forall|yy: int, xx: int|
            0 <= yy < 32 && 0 <= xx < 32 ==> frame[#[trigger] sample_at(b, yy, xx)] == 255,
    ensures
        centre_sum(frame, b, n) == 8160 * n,
    decreases n,
{
    assert(centre() == 32);
    if n > 0 {
        lemma_centre_full(frame, b, (n - 1) as nat);
        lemma_row_of(frame, b, n - 1, 255, 32);
    }
}

/// Only a whole sync pattern makes a data frame: where any one of the first eight
/// blocks is not that of 10101100 there is no content, and where all of them are,
/// the content is the number that the index blocks spell and the bytes whose bits
/// the other blocks are.
pub proof fn theorem_sync_decides(blocks: Seq<u8>, header_bits: int)
    requires
        8 <= header_bits <= blocks.len(),
    ensures
        forall|i: int|
            0 <= i < 8 && #[trigger] blocks[i] != seq![1u8, 0, 1, 0, 1, 1, 0, 0][i]
                ==> frame_content(blocks, header_bits) is None,
        blocks.take(8) == seq![1u8, 0, 1, 0, 1, 1, 0, 0] ==> (frame_content(
            blocks,
            header_bits,
        ) matches Some((idx, data)) && {
            &&& idx == bits_value(blocks.subrange(8, header_bits)) % power2::pow2(64)
            &&& data.len() == (blocks.len() - header_bits) / 8
            &&& forall|j: int|
                0 <= j < data.len() ==> {
                    let at = header_bits + 8 * j;
                    #[trigger] data[j] == 128 * (blocks[at] % 2) + 64 * (blocks[at + 1] % 2) + 32
                        * (blocks[at + 2] % 2) + 16 * (blocks[at + 3] % 2) + 8 * (blocks[at + 4]
                        % 2) + 4 * (blocks[at + 5] % 2) + 2 * (blocks[at + 6] % 2) + blocks[at + 7]
                        % 2
                }
        }),
{
    let sync = seq![1u8, 0, 1, 0, 1, 1, 0, 0];
    assert(SYNC_PATTERN@ =~= sync);
    assert forall|i: int| 0 <= i < 8 && #[trigger] blocks[i] != sync[i] implies frame_content(
        blocks,
        header_bits,
    ) is None by {
        assert(blocks.take(8)[i] == blocks[i]);
        assert(blocks.take(8)[i] != sync[i]);
    }
    if blocks.take(8) == sync {
        let rest = blocks.skip(header_bits);
        let data = bits::packed(rest);
        assert forall|j: int| 0 <= j < data.len() implies {
            let at = header_bits + 8 * j;
            #[trigger] data[j] == 128 * (blocks[at] % 2) + 64 * (blocks[at + 1] % 2) + 32 * (
            blocks[at + 2] % 2) + 16 * (blocks[at + 3] % 2) + 8 * (blocks[at + 4] % 2) + 4 * (
            blocks[at + 5] % 2) + 2 * (blocks[at + 6] % 2) + blocks[at + 7] % 2
        } by {
            bits::theorem_packed_adds_up(rest, j);
        }
    }
}

/// The blocks of a data frame carry its index and its data.
#[verifier::spinoff_prover]
pub proof fn theorem_frame_bits_content(idx: nat, data: Seq<u8>, index_bits: nat)
    requires
        index_bits <= 64,
        idx < power2::pow2(index_bits),
    ensures
        frame_content(frame_bits(idx, data, index_bits), SYNC_BITS + index_bits) == Some(
            (idx, data),
        ),
        forall|b: int|
            0 <= b < frame_bits(idx, data, index_bits).len() ==> #[trigger] frame_bits(
                idx,
                data,
                index_bits,
            )[b] <= 1,
{
    let blocks = frame_bits(idx, data, index_bits);
    assert(SYNC_PATTERN@ =~= seq![1u8, 0, 1, 0, 1, 1, 0, 0]);
    assert(blocks.take(SYNC_BITS as int) =~= SYNC_PATTERN@);
    assert(blocks.subrange(SYNC_BITS as int, SYNC_BITS + index_bits) =~= index_bit_seq(
        idx,
        index_bits,
    ));
    assert(blocks.skip(SYNC_BITS + index_bits) =~= bits::unpacked(data));
    bits::theorem_packed_unpacked(data);
    bits::lemma_unpacked_are_bits(data);
    lemma_index_round_trip(idx, index_bits);
    if index_bits < 64 {
        power2::lemma_pow2_strictly_increases(index_bits, 64);
    }
    vstd::arithmetic::div_mod::lemma_small_mod(idx, power2::pow2(64));
    assert forall|b: int| 0 <= b < blocks.len() implies #[trigger] blocks[b] <= 1 by {
        if b < SYNC_BITS {
        } else if b < SYNC_BITS + index_bits {
            assert(blocks[b] == index_bit_seq(idx, index_bits)[b - SYNC_BITS]);
        } else {
            assert(blocks[b] == bits::unpacked(data)[b - SYNC_BITS - index_bits]);
        }
    }
}

/// A drawn rgb24 frame shows its blocks.
pub proof fn lemma_rgb_frame_shows(blocks: Seq<u8>)
    requires
        blocks.len() == TOTAL_BLOCKS,
    ensures
        shows(rgb_frame(blocks), blocks),
{
    let frame = rgb_frame(blocks);
    assert(frame.len() == 1920 * 3 * 1080);
    assert forall|b: int, yy: int, xx: int|
        0 <= b < TOTAL_BLOCKS && 0 <= yy < centre() && 0 <= xx < centre() implies ((
    #[trigger] frame[sample_at(b, yy, xx)] >= THRESHOLD) <==> blocks[b] != 0) by {
        let r = b / 30;
        let c = b % 30;
        let y = r * 64 + 16 + yy;
        let x = c * 64 + 16 + xx;
        let p = sample_at(b, yy, xx);
        assert(0 <= r < 16 && 0 <= c < 30);
        assert(p == y * 5760 + x * 3);
        assert(p / 5760 == y && p % 5760 == x * 3);
        assert(y / 64 == r);
        assert((x * 3) / 192 == c);
        assert(block_of(p, 5760) == b);
    }
}

/// A frame that follows a drawn luma plane shows its blocks.
pub proof fn theorem_luma_frame_shows(frame: Seq<u8>, blocks: Seq<u8>)
    requires
        blocks.len() == TOTAL_BLOCKS,
        follows(frame, luma_frame(blocks)),
    ensures
        shows(frame, blocks),
{
    let luma = luma_frame(blocks);
    assert(luma.len() == 1920 * 1080);
    assert forall|b: int, yy: int, xx: int|
        0 <= b < TOTAL_BLOCKS && 0 <= yy < centre() && 0 <= xx < centre() implies ((
    #[trigger] frame[sample_at(b, yy, xx)] >= THRESHOLD) <==> blocks[b] != 0) by {
        let r = b / 30;
        let c = b % 30;
        let y = r * 64 + 16 + yy;
        let x = c * 64 + 16 + xx;
        let p = y * 1920 + x;
        assert(0 <= r < 16 && 0 <= c < 30);
        assert(sample_at(b, yy, xx) == 3 * p);
        assert(p / 1920 == y && p % 1920 == x);
        assert(y / 64 == r);
        assert(x / 64 == c);
        assert(block_of(p, 1920) == b);
        assert((luma[p] >= THRESHOLD) == (blocks[b] != 0));
    }
}

/// A drawn data frame is read back: its index, as far as the index width goes,
/// and its data.
pub proof fn theorem_frame_round_trip(idx: nat, data: Seq<u8>, index_bits: nat)
    requires
        index_bits <= 64,
        SYNC_BITS + index_bits + data.len() * 8 == TOTAL_BLOCKS,
        idx < power2::pow2(index_bits),
    ensures
        frame_content(
            sampled(rgb_frame(frame_bits(idx, data, index_bits))),
            SYNC_BITS + index_bits,
        ) == Some((idx, data)),
{
    let blocks = frame_bits(idx, data, index_bits);
    theorem_frame_bits_content(idx, data, index_bits);
    lemma_rgb_frame_shows(blocks);
    theorem_shown_blocks_are_read(rgb_frame(blocks), blocks);
}

/// Reads the blocks of an rgb24 frame from the red samples of their centres.
pub fn read_blocks(frame: &[u8]) -> (blocks: [u8; TOTAL_BLOCKS])
    requires
        holds_samples(frame@),
    ensures
        blocks@ == sampled(frame@),
{
    let m: usize = BLOCK_SAMPLE_MARGIN;
    let inner: usize = BLOCK_SIZE - 2 * m;
    let floor: u64 = THRESHOLD * 32 * 32;
    let mut blocks: [u8; TOTAL_BLOCKS] = [0u8; TOTAL_BLOCKS];
    let mut b: usize = 0;
    while b < TOTAL_BLOCKS
        invariant
            0 <= b <= TOTAL_BLOCKS,
            m == 16,
            inner == 32,
            floor == THRESHOLD * 1024,
            holds_samples(frame@),
            forall|k: int| 0 <= k < b ==> #[trigger] blocks@[k] == sampled(frame@)[k],
        decreases TOTAL_BLOCKS - b,
    {
        let mut sum: u64 = 0;
        let mut yy: usize = 0;
        let top: usize = (b / COLS) * BLOCK_SIZE + m;
        let left: usize = (b % COLS) * BLOCK_SIZE + m;
        while yy < inner
            invariant
                0 <= yy <= inner,
                0 <= b < TOTAL_BLOCKS,
                m == 16,
                inner == 32,
                holds_samples(frame@),
                top == (b / COLS) * BLOCK_SIZE + m,
                left == (b % COLS) * BLOCK_SIZE + m,
                sum == centre_sum(frame@, b as int, yy as nat),
            decreases inner - yy,
        {
            proof {
                lemma_centre_bounds(frame@, b as int, yy as nat);
            }
            let ghost above = sum;
            let mut off: usize = ((top + yy) * FRAME_WIDTH + left) * 3;
            let mut xx: usize = 0;
            while xx < inner
                invariant
                    0 <= xx <= inner,
                    0 <= yy < inner,
                    0 <= b < TOTAL_BLOCKS,
                    m == 16,
                    inner == 32,
                    holds_samples(frame@),
                    top == (b / COLS) * BLOCK_SIZE + m,
                    left == (b % COLS) * BLOCK_SIZE + m,
                    off == sample_at(b as int, yy as int, xx as int),
                    above <= 8160 * yy,
                    sum == above + row_sum(frame@, b as int, yy as int, xx as nat),
                decreases inner - xx,
            {
                proof {
                    lemma_row_bounds(frame@, b as int, yy as int, xx as nat);
                }
                sum = sum + frame[off] as u64;
                off = off + 3;
                xx = xx + 1;
            }
            yy = yy + 1;
        }
        blocks[b] = if sum >= floor {
            1
        } else {
            0
        };
        b = b + 1;
    }
    assert(blocks@ =~= sampled(frame@));
    blocks
}

/// Checks the sync pattern of a frame's blocks and splits the rest into the
/// frame index and the data bytes, most significant bit first. `None` where the
/// sync pattern does not match.
pub fn decode_frame(blocks: &[u8], _index_bits: usize, header_bits: usize) -> (content: Option<
    (u64, Vec<u8>),
>)
    requires
        SYNC_BITS <= blocks@.len(),
        blocks@.take(SYNC_BITS as int) == SYNC_PATTERN@ ==> SYNC_BITS <= header_bits
            <= blocks@.len(),
    ensures
        match frame_content(blocks@, header_bits as int) {
            Some((idx, data)) => content matches Some((i, d)) && i == idx && d@ == data,
            None => content is None,
        },
        content is Some ==> blocks@.take(8) == seq![1u8, 0, 1, 0, 1, 1, 0, 0],
{
    assert(SYNC_PATTERN@ =~= seq![1u8, 0, 1, 0, 1, 1, 0, 0]);
    let mut i: usize = 0;
    while i < SYNC_BITS
        invariant
            0 <= i <= SYNC_BITS <= blocks@.len(),
            forall|k: int| 0 <= k < i ==> blocks@[k] == SYNC_PATTERN@[k],
        decreases SYNC_BITS - i,
    {
        if blocks[i] != SYNC_PATTERN[i] {
            assert(blocks@.take(SYNC_BITS as int)[i as int] != SYNC_PATTERN@[i as int]);
            return None;
        }
        i = i + 1;
    }
    assert(blocks@.take(SYNC_BITS as int) =~= SYNC_PATTERN@);
    let frame_idx: u64 = bits_to_index(&blocks[SYNC_BITS..header_bits]);
    let data: Vec<u8> = bits::pack_bits(&blocks[header_bits..blocks.len()]);
    Some((frame_idx, data))
}

} // verus!
