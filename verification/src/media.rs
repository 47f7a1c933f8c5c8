//! Picture planes whose rows lie further apart than they are wide.

use vstd::prelude::*;

use crate::constants::{FRAME_HEIGHT, FRAME_WIDTH};
use crate::raster;

verus! {

/// Bytes per row of a tightly packed rgb24 frame.
pub const RGB_STRIDE: usize = 5760;

/// The value of both colour channels of a grey picture.
pub const NEUTRAL_CHROMA: u8 = 128;

/// `height` rows of `width` bytes, `stride` apart, lie within `len` bytes.
pub open spec fn rows_fit(len: int, stride: int, width: int, height: int) -> bool {
    &&& 0 < width <= stride
    &&& 0 < height
    &&& (height - 1) * stride + width <= len
}

/// Byte `p` lies in the first `width` bytes of one of the first `height` rows.
pub open spec fn in_rows(p: int, stride: int, width: int, height: int) -> bool {
    raster::in_rect(p, stride, 0, 0, width, height)
}

/// `dst` with `height` rows of `width` bytes replaced by those of `src`.
pub open spec fn rows_copied(
    dst: Seq<u8>,
    dst_stride: int,
    src: Seq<u8>,
    src_stride: int,
    width: int,
    height: int,
) -> Seq<u8> {
    Seq::new(
        dst.len(),
        |p: int|
            if in_rows(p, dst_stride, width, height) {
                src[p / dst_stride * src_stride + p % dst_stride]
            } else {
                dst[p]
            },
    )
}

/// Row by row and byte by byte: byte `x` of row `y` of what was copied is byte `x`
/// of row `y` of the source, for every row, and no other byte is touched.
pub proof fn theorem_rows_copied(
    dst: Seq<u8>,
    dst_stride: int,
    src: Seq<u8>,
    src_stride: int,
    width: int,
    height: int,
)
    requires
        rows_fit(dst.len() as int, dst_stride, width, height),
    ensures
        ({
            let now = rows_copied(dst, dst_stride, src, src_stride, width, height);
            &&& now.len() == dst.len()
            &&& forall|x: int, y: int|
                0 <= x < width && 0 <= y < height ==> #[trigger] now[y * dst_stride + x] == src[y
                    * src_stride + x]
            &&& forall|p: int|
                0 <= p < dst.len() && (forall|x: int, y: int|
                    0 <= x < width && 0 <= y < height ==> p != #[trigger] at(x, y, dst_stride))
                    ==> now[p] == dst[p]
        }),
{
    let now = rows_copied(dst, dst_stride, src, src_stride, width, height);
    assert forall|x: int, y: int| 0 <= x < width && 0 <= y < height implies #[trigger] now[y
        * dst_stride + x] == src[y * src_stride + x] by {
        lemma_row(y, height, dst_stride);
        let p = y * dst_stride + x;
        raster::lemma_run(p, dst_stride, 0, y, width);
        vstd::arithmetic::div_mod::lemma_fundamental_div_mod_converse(p, dst_stride, y, x);
    }
    assert forall|p: int|
        0 <= p < dst.len() && (forall|x: int, y: int|
            0 <= x < width && 0 <= y < height ==> p != #[trigger] at(x, y, dst_stride)) implies now[p]
        == dst[p] by {
        let (x, y) = (p % dst_stride, p / dst_stride);
        vstd::arithmetic::div_mod::lemma_fundamental_div_mod(p, dst_stride);
        vstd::arithmetic::div_mod::lemma_div_pos_is_pos(p, dst_stride);
        assert(dst_stride * y == y * dst_stride) by (nonlinear_arith);
        assert(p == at(x, y, dst_stride));
    }
}

/// Where byte `x` of row `y` stands.
pub open spec fn at(x: int, y: int, stride: int) -> int {
    y * stride + x
}

/// Whole rows up to one are no longer than those up to a later one.
proof fn lemma_row(y: int, height: int, stride: int)
    requires
        0 <= y < height,
        0 < stride,
    ensures
        0 <= y * stride <= (height - 1) * stride,
{
    assert(0 <= y * stride <= (height - 1) * stride) by (nonlinear_arith)
        requires
            0 <= y <= height - 1,
            0 < stride,
    ;
}

/// Copies `height` rows of `width` bytes.
fn copy_rows(
    dst: &mut [u8],
    dst_stride: usize,
    src: &[u8],
    src_stride: usize,
    width: usize,
    height: usize,
)
    requires
        rows_fit(old(dst).len() as int, dst_stride as int, width as int, height as int),
        rows_fit(src.len() as int, src_stride as int, width as int, height as int),
    ensures
        final(dst)@ == rows_copied(
            old(dst)@,
            dst_stride as int,
            src@,
            src_stride as int,
            width as int,
            height as int,
        ),
{
    let ghost before = dst@;
    let mut y: usize = 0;
    assert(dst@ =~= rows_copied(
        before,
        dst_stride as int,
        src@,
        src_stride as int,
        width as int,
        0,
    ));
    while y < height
        invariant
            0 <= y <= height,
            before.len() == dst.len(),
            rows_fit(dst.len() as int, dst_stride as int, width as int, height as int),
            rows_fit(src.len() as int, src_stride as int, width as int, height as int),
            dst@ == rows_copied(
                before,
                dst_stride as int,
                src@,
                src_stride as int,
                width as int,
                y as int,
            ),
        decreases height - y,
    {
        proof {
            lemma_row(y as int, height as int, dst_stride as int);
            lemma_row(y as int, height as int, src_stride as int);
        }
        let to: usize = y * dst_stride;
        let from: usize = y * src_stride;
        let ghost mid = dst@;
        let mut x: usize = 0;
        while x < width
            invariant
                0 <= x <= width,
                0 <= y < height,
                to == y * dst_stride,
                from == y * src_stride,
                to + width <= dst.len(),
                from + width <= src.len(),
                mid.len() == dst.len(),
                dst@ == Seq::new(
                    mid.len(),
                    |p: int|
                        if to <= p < to + x {
                            src@[from + (p - to)]
                        } else {
                            mid[p]
                        },
                ),
            decreases width - x,
        {
            dst[to + x] = src[from + x];
            x = x + 1;
            assert(dst@ =~= Seq::new(
                mid.len(),
                |p: int|
                    if to <= p < to + x {
                        src@[from + (p - to)]
                    } else {
                        mid[p]
                    },
            ));
        }
        proof {
            let now = rows_copied(
                before,
                dst_stride as int,
                src@,
                src_stride as int,
                width as int,
                y + 1,
            );
            assert forall|p: int| 0 <= p < dst@.len() implies dst@[p] == now[p] by {
                raster::lemma_run(p, dst_stride as int, 0, y as int, width as int);
                vstd::arithmetic::div_mod::lemma_fundamental_div_mod(p, dst_stride as int);
                vstd::arithmetic::div_mod::lemma_div_pos_is_pos(p, dst_stride as int);
                if to <= p < to + width {
                    assert(p / dst_stride as int == y);
                    assert(dst_stride * (p / dst_stride as int) == to) by (nonlinear_arith)
                        requires
                            p / dst_stride as int == y,
                            to == y * dst_stride,
                    ;
                }
            }
            assert(dst@ =~= now);
        }
        y = y + 1;
    }
}

/// Sets `w` bytes from `off` on to `value`.
fn fill_slice(buf: &mut [u8], off: usize, w: usize, value: u8)
    requires
        off + w <= old(buf).len(),
    ensures
        final(buf)@ == Seq::new(
            old(buf)@.len(),
            |p: int|
                if off <= p < off + w {
                    value
                } else {
                    old(buf)@[p]
                },
        ),
{
    let ghost before = buf@;
    let mut i: usize = 0;
    while i < w
        invariant
            0 <= i <= w,
            before.len() == buf.len(),
            off + w <= before.len(),
            buf@ == Seq::new(
                before.len(),
                |p: int|
                    if off <= p < off + i {
                        value
                    } else {
                        before[p]
                    },
            ),
        decreases w - i,
    {
        buf[off + i] = value;
        i = i + 1;
        assert(buf@ =~= Seq::new(
            before.len(),
            |p: int|
                if off <= p < off + i {
                    value
                } else {
                    before[p]
                },
        ));
    }
}

/// Puts a 1920x1080 luma plane into the luma plane of a picture with rows of
/// `stride` bytes.
pub fn write_luma(plane: &mut [u8], stride: usize, luma: &[u8])
    requires
        rows_fit(old(plane).len() as int, stride as int, FRAME_WIDTH as int, FRAME_HEIGHT as int),
        luma@.len() >= FRAME_WIDTH * FRAME_HEIGHT,
    ensures
        final(plane)@ == rows_copied(
            old(plane)@,
            stride as int,
            luma@,
            FRAME_WIDTH as int,
            FRAME_WIDTH as int,
            FRAME_HEIGHT as int,
        ),
{
    copy_rows(plane, stride, luma, FRAME_WIDTH, FRAME_WIDTH, FRAME_HEIGHT);
}

/// Makes a colour plane of a picture, half as wide and half as high as the
/// frame, neutral.
pub fn write_chroma(plane: &mut [u8], stride: usize)
    requires
        rows_fit(
            old(plane).len() as int,
            stride as int,
            FRAME_WIDTH as int / 2,
            FRAME_HEIGHT as int / 2,
        ),
    ensures
        final(plane)@ == neutral(old(plane)@, stride as int),
        final(plane)@ == Seq::new(
            old(plane)@.len(),
            |p: int|
                if in_rows(p, stride as int, FRAME_WIDTH as int / 2, FRAME_HEIGHT as int / 2) {
                    NEUTRAL_CHROMA
                } else {
                    old(plane)@[p]
                },
        ),
{
    let ghost before = plane@;
    let width: usize = FRAME_WIDTH / 2;
    let height: usize = FRAME_HEIGHT / 2;
    let mut y: usize = 0;
    while y < height
        invariant
            0 <= y <= height,
            width == 960,
            height == 540,
            before.len() == plane.len(),
            rows_fit(plane.len() as int, stride as int, width as int, height as int),
            forall|p: int|
                0 <= p < plane@.len() ==> #[trigger] plane@[p] == (if in_rows(
                    p,
                    stride as int,
                    width as int,
                    y as int,
                ) {
                    NEUTRAL_CHROMA
                } else {
                    before[p]
                }),
        decreases height - y,
    {
        proof {
            lemma_row(y as int, height as int, stride as int);
        }
        let ghost mid = plane@;
        fill_slice(plane, y * stride, width, NEUTRAL_CHROMA);
        assert forall|p: int| 0 <= p < plane@.len() implies #[trigger] plane@[p] == (if in_rows(
            p,
            stride as int,
            width as int,
            y + 1,
        ) {
            NEUTRAL_CHROMA
        } else {
            before[p]
        }) by {
            raster::lemma_run(p, stride as int, 0, y as int, width as int);
            vstd::arithmetic::div_mod::lemma_div_pos_is_pos(p, stride as int);
            assert(mid[p] == (if in_rows(p, stride as int, width as int, y as int) {
                NEUTRAL_CHROMA
            } else {
                before[p]
            }));
        }
        y = y + 1;
    }
    assert(plane@ =~= Seq::new(
        before.len(),
        |p: int|
            if in_rows(p, stride as int, FRAME_WIDTH as int / 2, FRAME_HEIGHT as int / 2) {
                NEUTRAL_CHROMA
            } else {
                before[p]
            },
    ));
}

/// The rows of a picture with rows of `stride` bytes, one directly behind the other.
pub open spec fn packed_rgb(data: Seq<u8>, stride: int) -> Seq<u8> {
    Seq::new(
        (RGB_STRIDE * FRAME_HEIGHT) as nat,
        |p: int| data[p / RGB_STRIDE as int * stride + p % RGB_STRIDE as int],
    )
}

/// Packing moves rows and changes nothing in them: byte `x` of row `y`, for all 5760
/// bytes of all 1080 rows, is byte `x` of row `y` of the picture.
pub proof fn theorem_packed_rgb(data: Seq<u8>, stride: int, x: int, y: int)
    requires
        0 <= x < 5760,
        0 <= y < 1080,
    ensures
        packed_rgb(data, stride).len() == 5760 * 1080,
        packed_rgb(data, stride)[y * 5760 + x] == data[y * stride + x],
{
    let p = y * 5760 + x;
    assert(p / 5760 == y && p % 5760 == x);
}

/// A plane with a rectangle of neutral colour, half as wide and half as high as a frame.
pub open spec fn neutral(plane: Seq<u8>, stride: int) -> Seq<u8> {
    Seq::new(
        plane.len(),
        |p: int|
            if in_rows(p, stride, FRAME_WIDTH as int / 2, FRAME_HEIGHT as int / 2) {
                NEUTRAL_CHROMA
            } else {
                plane[p]
            },
    )
}

/// All 960 by 540 samples of a colour plane become 128, and what lies between the rows
/// stays.
pub proof fn theorem_neutral(plane: Seq<u8>, stride: int, x: int, y: int)
    requires
        960 <= stride,
        0 <= x < stride,
        0 <= y,
        y * stride + x < plane.len(),
    ensures
        neutral(plane, stride).len() == plane.len(),
        neutral(plane, stride)[y * stride + x] == (if x < 960 && y < 540 {
            128
        } else {
            plane[y * stride + x]
        }),
{
    let p = y * stride + x;
    assert(0 <= y * stride) by (nonlinear_arith)
        requires
            0 <= y,
            0 < stride,
    ;
    vstd::arithmetic::div_mod::lemma_fundamental_div_mod_converse(p, stride, y, x);
}

/// A tightly packed rgb24 frame of a picture with rows of `stride` bytes.
pub fn pack_rgb(data: &[u8], stride: usize) -> (frame: Vec<u8>)
    requires
        rows_fit(data.len() as int, stride as int, RGB_STRIDE as int, FRAME_HEIGHT as int),
    ensures
        frame@ == packed_rgb(data@, stride as int),
        frame@ == Seq::new(
            (RGB_STRIDE * FRAME_HEIGHT) as nat,
            |p: int| data@[p / RGB_STRIDE as int * stride + p % RGB_STRIDE as int],
        ),
{
    let mut frame: Vec<u8> = vec![0u8; RGB_STRIDE * FRAME_HEIGHT];
    copy_rows(&mut frame, RGB_STRIDE, data, stride, RGB_STRIDE, FRAME_HEIGHT);
    assert(frame@ =~= Seq::new(
        (RGB_STRIDE * FRAME_HEIGHT) as nat,
        |p: int| data@[p / RGB_STRIDE as int * stride + p % RGB_STRIDE as int],
    ));
    frame
}

} // verus!
