//! Rectangles of one value in row-major byte buffers.

use vstd::arithmetic::div_mod;
use vstd::prelude::*;

verus! {

/// Byte `p` of a buffer with rows of `stride` bytes lies in the rectangle of
/// `w` by `h` whose first byte is `x0` in row `y0`.
pub open spec fn in_rect(p: int, stride: int, x0: int, y0: int, w: int, h: int) -> bool {
    y0 <= p / stride < y0 + h && x0 <= p % stride < x0 + w
}

/// The bytes `y * stride + x0 .. y * stride + x0 + w` are those of row `y` from
/// `x0` to `x0 + w`.
pub proof fn lemma_run(p: int, stride: int, x0: int, y: int, w: int)
    requires
        0 <= p,
        0 <= y,
        0 <= x0,
        0 <= w,
        x0 + w <= stride,
        0 < stride,
    ensures
        (y * stride + x0 <= p < y * stride + x0 + w) <==> in_rect(p, stride, x0, y, w, 1),
{
    let q = p / stride;
    let r = p % stride;
    div_mod::lemma_fundamental_div_mod(p, stride);
    assert(stride * q == q * stride) by (nonlinear_arith);
    if q == y {
    } else if q < y {
        assert(q * stride + stride <= y * stride) by (nonlinear_arith)
            requires
                q + 1 <= y,
                0 < stride,
        ;
    } else {
        assert(y * stride + stride <= q * stride) by (nonlinear_arith)
            requires
                y + 1 <= q,
                0 < stride,
        ;
    }
}

/// A rectangle holds the bytes of its rows and columns, and no others.
pub proof fn theorem_rect(x: int, y: int, stride: int, x0: int, y0: int, w: int, h: int)
    requires
        0 <= x < stride,
        0 <= y,
    ensures
        in_rect(y * stride + x, stride, x0, y0, w, h) <==> (x0 <= x < x0 + w && y0 <= y < y0 + h),
{
    div_mod::lemma_fundamental_div_mod_converse(y * stride + x, stride, y, x);
}

/// Sets `w` bytes from `off` on to `value`.
pub fn fill_run(buf: &mut Vec<u8>, off: usize, w: usize, value: u8)
    requires
        off + w <= old(buf).len(),
    ensures
        final(buf)@ == Seq::new(
            old(buf)@.len(),
            |p: int| if off <= p < off + w { value } else { old(buf)@[p] },
        ),
{
    let ghost before = buf@;
    let end: usize = off + w;
    let mut i: usize = off;
    while i < end
        invariant
            off <= i <= end,
            end == off + w,
            end <= before.len(),
            buf@ == Seq::new(before.len(), |p: int| if off <= p < i { value } else { before[p] }),
        decreases end - i,
    {
        buf[i] = value;
        i = i + 1;
        assert(buf@ =~= Seq::new(
            before.len(),
            |p: int| if off <= p < i { value } else { before[p] },
        ));
    }
}

/// Sets the rectangle of `w` by `h` bytes at byte `x0` of row `y0` to `value`.
pub fn fill_rect(
    buf: &mut Vec<u8>,
    stride: usize,
    x0: usize,
    y0: usize,
    w: usize,
    h: usize,
    value: u8,
)
    requires
        0 < stride,
        x0 + w <= stride,
        (y0 + h) * stride <= old(buf).len(),
    ensures
        final(buf)@ == Seq::new(
            old(buf)@.len(),
            |p: int|
                if in_rect(p, stride as int, x0 as int, y0 as int, w as int, h as int) {
                    value
                } else {
                    old(buf)@[p]
                },
        ),
{
    let ghost before = buf@;
    let mut j: usize = 0;
    assert(buf@ =~= Seq::new(
        before.len(),
        |p: int|
            if in_rect(p, stride as int, x0 as int, y0 as int, w as int, 0) {
                value
            } else {
                before[p]
            },
    ));
    while j < h
        invariant
            0 <= j <= h,
            0 < stride,
            x0 + w <= stride,
            (y0 + h) * stride <= before.len(),
            before.len() == buf.len(),
            buf@ == Seq::new(
                before.len(),
                |p: int|
                    if in_rect(p, stride as int, x0 as int, y0 as int, w as int, j as int) {
                        value
                    } else {
                        before[p]
                    },
            ),
        decreases h - j,
    {
        let ghost row = y0 + j;
        assert(row * stride + stride <= (y0 + h) * stride) by (nonlinear_arith)
            requires
                row == y0 + j,
                j + 1 <= h,
                0 < stride,
        ;
        assert(0 <= row * stride) by (nonlinear_arith)
            requires
                0 <= row,
                0 < stride,
        ;
        assert(row <= row * stride) by (nonlinear_arith)
            requires
                0 <= row,
                0 < stride,
        ;
        let ghost mid = buf@;
        let y: usize = y0 + j;
        let off: usize = y * stride + x0;
        fill_run(buf, off, w, value);
        proof {
            assert forall|p: int| 0 <= p < before.len() implies #[trigger] buf@[p] == (if in_rect(
                p,
                stride as int,
                x0 as int,
                y0 as int,
                w as int,
                j + 1,
            ) {
                value
            } else {
                before[p]
            }) by {
                lemma_run(p, stride as int, x0 as int, row as int, w as int);
            }
            assert(buf@ =~= Seq::new(
                before.len(),
                |p: int|
                    if in_rect(p, stride as int, x0 as int, y0 as int, w as int, j + 1) {
                        value
                    } else {
                        before[p]
                    },
            ));
        }
        j = j + 1;
    }
}

} // verus!
