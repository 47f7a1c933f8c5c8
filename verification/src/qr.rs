//! QR metadata frames: drawn from a QR symbol, and scanned for QR symbols.

use qrcode::{EcLevel, QrCode};
use rayon::ThreadPoolBuilder;
use std::sync::mpsc;
use vstd::arithmetic::div_mod;
use vstd::prelude::*;

use crate::constants::{
    BLOCK_SIZE, FRAME_HEIGHT, FRAME_WIDTH, QR_BORDER_MODULES, QR_MIN_MODULE_PX, SYNC_PATTERN,
    THRESHOLD,
};
use crate::frame;
use crate::frame::{BLACK_Y, WHITE_Y};
use crate::metadata;
use crate::metadata::QrMeta;
use crate::raster;

verus! {

// ---------------------------------------------------------------------------
// Symbols
// ---------------------------------------------------------------------------

/// Error correction levels of QR symbols.
#[derive(Debug, Clone, Copy, PartialEq, Eq)]
pub enum QrLevel {
    L,
    M,
    Q,
    H,
}

/// The error that the `qrcode` crate reports.
#[verifier::external_type_specification]
#[verifier::external_body]
pub struct ExQrError(qrcode::types::QrError);

/// The symbol that the `qrcode` crate makes of `data`: its width in modules and,
/// row by row, which modules are dark. `None` where it makes none.
pub uninterp spec fn qr_symbol(data: Seq<u8>, level: QrLevel) -> Option<(nat, Seq<bool>)>;

/// The symbol of a successful outcome.
pub open spec fn symbol<E>(outcome: Result<(usize, Vec<bool>), E>) -> Option<(nat, Seq<bool>)> {
    match outcome {
        Ok((w, dark)) => Some((w as nat, dark@)),
        Err(_) => None,
    }
}

/// Calls `qrcode::QrCode::with_error_correction_level`, and `width` and
/// `to_colors` of the code, as a job of a `rayon::ThreadPool` of its own. The
/// crate adds up the penalties of a mask in 16 bits. For large symbols with large
/// even areas the sum does not fit, and where arithmetic is checked for overflow
/// that is a panic. The pool hands the panic to its panic handler and no answer is
/// sent: that is `None`, as it is where the pool cannot be had. Claimed of an
/// answer is that the symbol depends on the data and the level alone, that it is
/// square, and that its width is one of those of the forty versions, 21 to 177
/// modules. For which data there is a symbol is not claimed, nor for which the call
/// breaks off.
#[verifier::external_body]
fn qr_encode(data: &[u8], level: QrLevel) -> (answer: Option<
    Result<(usize, Vec<bool>), qrcode::types::QrError>,
>)
    ensures
        answer is Some ==> symbol(answer->0) == qr_symbol(data@, level),
        answer is Some && answer->0 is Ok ==> 21 <= (answer->0)->Ok_0.0 <= 177 && (
        answer->0)->Ok_0.0 % 4 == 1,
        answer is Some && answer->0 is Ok ==> (answer->0)->Ok_0.1@.len() == (answer->0)->Ok_0.0 * (
        answer->0)->Ok_0.0,
{
    let (reply, answer) = mpsc::channel();
    let data = data.to_vec();
    let level = match level {
        QrLevel::L => EcLevel::L,
        QrLevel::M => EcLevel::M,
        QrLevel::Q => EcLevel::Q,
        QrLevel::H => EcLevel::H,
    };
    let job = move || {
        let dark = |c: &QrCode| c.to_colors().iter().map(|m| m.select(true, false)).collect();
        let code = QrCode::with_error_correction_level(&data, level);
        reply.send(code.map(|c| (c.width(), dark(&c)))).unwrap_or(())
    };
    ThreadPoolBuilder::new().num_threads(1).panic_handler(|_| ()).build().ok()?.spawn(job);
    answer.recv().ok()
}

// ---------------------------------------------------------------------------
// Drawing
// ---------------------------------------------------------------------------

/// Why there is no QR frame.
#[derive(Debug, Clone, Copy, PartialEq, Eq)]
pub enum QrFrameError {
    /// The metadata makes no QR symbol.
    Encode,
    /// Making the symbol broke off.
    BrokeOff,
    /// The modules would be smaller than [`QR_MIN_MODULE_PX`].
    ModulesTooSmall { module_px: usize },
}

/// Width of a symbol with its border, in modules.
pub open spec fn bordered(w: int) -> int {
    w + 2 * QR_BORDER_MODULES
}

/// Side of a module in pixels: as large as fits with a block's margin on every
/// side of the frame.
pub open spec fn module_px(w: int) -> int {
    let a = (FRAME_WIDTH - 2 * BLOCK_SIZE) / bordered(w);
    let b = (FRAME_HEIGHT - 2 * BLOCK_SIZE) / bordered(w);
    if a <= b {
        a
    } else {
        b
    }
}

/// Where a centred symbol begins, across.
pub open spec fn qr_left(w: int) -> int {
    (FRAME_WIDTH - bordered(w) * module_px(w)) / 2
}

/// Where a centred symbol begins, down.
pub open spec fn qr_top(w: int) -> int {
    (FRAME_HEIGHT - bordered(w) * module_px(w)) / 2
}

/// The module that a distance from the beginning of the symbol falls on,
/// counted from behind the border.
pub open spec fn module_at(w: int, distance: int) -> int {
    distance / module_px(w) - QR_BORDER_MODULES
}

/// The pixel belongs to the symbol, and the module there is dark.
pub open spec fn dark_pixel(w: int, dark: Seq<bool>, x: int, y: int) -> bool {
    let c = module_at(w, x - qr_left(w));
    let r = module_at(w, y - qr_top(w));
    &&& x >= qr_left(w)
    &&& y >= qr_top(w)
    &&& 0 <= c < w
    &&& 0 <= r < w
    &&& dark[r * w + c]
}

/// A frame with `channels` bytes per pixel that shows the symbol, centred.
pub open spec fn qr_picture(w: int, dark: Seq<bool>, channels: int, black: u8, white: u8) -> Seq<
    u8,
> {
    Seq::new(
        (FRAME_WIDTH * channels * FRAME_HEIGHT) as nat,
        |p: int|
            if dark_pixel(
                w,
                dark,
                p % (FRAME_WIDTH * channels) / channels,
                p / (FRAME_WIDTH * channels),
            ) {
                black
            } else {
                white
            },
    )
}

/// The luma plane with a symbol.
pub open spec fn qr_luma(w: int, dark: Seq<bool>) -> Seq<u8> {
    qr_picture(w, dark, 1, BLACK_Y, WHITE_Y)
}

/// The rgb24 frame with a symbol.
pub open spec fn qr_rgb(w: int, dark: Seq<bool>) -> Seq<u8> {
    qr_picture(w, dark, 3, 0, 255)
}

/// The frame lies within the margin, and its modules within it.
proof fn lemma_symbol_fits(w: int)
    requires
        1 <= w,
        module_px(w) >= 1,
    ensures
        0 <= bordered(w) * module_px(w) <= 952,
        64 <= qr_top(w),
        qr_top(w) + bordered(w) * module_px(w) <= FRAME_HEIGHT - 64,
        64 <= qr_left(w),
        qr_left(w) + bordered(w) * module_px(w) <= FRAME_WIDTH,
{
    let t = bordered(w);
    let b = 952int / t;
    let px = module_px(w);
    assert(px <= b);
    div_mod::lemma_fundamental_div_mod(952, t);
    assert(0 <= t * px <= t * b) by (nonlinear_arith)
        requires
            1 <= px <= b,
            t >= 1,
    ;
}

/// A distance falls on module `m` exactly where it lies between the module's
/// edges.
proof fn lemma_module_at(w: int, m: int, d: int)
    requires
        module_px(w) >= 1,
        0 <= m,
        0 <= d,
    ensures
        module_at(w, d) == m <==> (m + 4) * module_px(w) <= d < (m + 4) * module_px(w) + module_px(
            w,
        ),
{
    let px = module_px(w);
    let q = d / px;
    div_mod::lemma_fundamental_div_mod(d, px);
    assert(px * q == q * px) by (nonlinear_arith);
    if (m + 4) * px <= d < (m + 4) * px + px {
        div_mod::lemma_fundamental_div_mod_converse(d, px, m + 4, d - (m + 4) * px);
    }
}

/// Places in a square of side `w` are told apart by their number.
proof fn lemma_same_place(w: int, r: int, c: int, r2: int, c2: int)
    requires
        0 <= r < w,
        0 <= c < w,
        0 <= r2 < w,
        0 <= c2 < w,
    ensures
        0 <= r * w + c < w * w,
        r * w + c == r2 * w + c2 <==> r == r2 && c == c2,
{
    assert(0 <= r * w && r * w + w <= w * w) by (nonlinear_arith)
        requires
            0 <= r < w,
    ;
    if r < r2 {
        assert(r * w + w <= r2 * w) by (nonlinear_arith)
            requires
                r + 1 <= r2,
                0 <= w,
        ;
    } else if r2 < r {
        assert(r2 * w + w <= r * w) by (nonlinear_arith)
            requires
                r2 + 1 <= r,
                0 <= w,
        ;
    }
}

/// The pixel of byte `p` lies on module `(r, c)` exactly where the byte lies in
/// the module's rectangle.
proof fn lemma_module_rect(w: int, channels: int, r: int, c: int, p: int)
    requires
        1 <= w,
        module_px(w) >= 1,
        channels == 1 || channels == 3,
        0 <= r < w,
        0 <= c < w,
        0 <= p,
    ensures
        raster::in_rect(
            p,
            FRAME_WIDTH * channels,
            (qr_left(w) + (c + 4) * module_px(w)) * channels,
            qr_top(w) + (r + 4) * module_px(w),
            module_px(w) * channels,
            module_px(w),
        ) <==> {
            let x = p % (FRAME_WIDTH * channels) / channels;
            let y = p / (FRAME_WIDTH * channels);
            x >= qr_left(w) && y >= qr_top(w) && module_at(w, x - qr_left(w)) == c && module_at(
                w,
                y - qr_top(w),
            ) == r
        },
{
    let px = module_px(w);
    let xb = p % (FRAME_WIDTH * channels);
    let x = xb / channels;
    let y = p / (FRAME_WIDTH * channels);
    lemma_symbol_fits(w);
    assert((c + 4) * px >= 0 && (r + 4) * px >= 0) by (nonlinear_arith)
        requires
            c >= 0,
            r >= 0,
            px >= 1,
    ;
    if x >= qr_left(w) {
        lemma_module_at(w, c, x - qr_left(w));
    }
    if y >= qr_top(w) {
        lemma_module_at(w, r, y - qr_top(w));
    }
    let left = qr_left(w) + (c + 4) * px;
    if channels == 1 {
        assert(left * channels == left && px * channels == px && x == xb);
    } else {
        assert(left * channels == 3 * left && px * channels == 3 * px);
        assert(x == xb / 3);
    }
}

/// The pixel of byte `p` is dark and lies on a module before `(r, c)`.
spec fn drawn_upto(w: int, dark: Seq<bool>, channels: int, p: int, r: int, c: int) -> bool {
    let x = p % (FRAME_WIDTH * channels) / channels;
    let y = p / (FRAME_WIDTH * channels);
    let mc = module_at(w, x - qr_left(w));
    let mr = module_at(w, y - qr_top(w));
    dark_pixel(w, dark, x, y) && (mr < r || mr == r && mc < c)
}

/// Draws a symbol, centred, into a frame with `channels` bytes per pixel.
fn draw_symbol(w: usize, dark: &Vec<bool>, channels: usize, black: u8, white: u8) -> (r: Result<
    Vec<u8>,
    QrFrameError,
>)
    requires
        1 <= w <= 177,
        dark@.len() == w * w,
        channels == 1 || channels == 3,
    ensures
        match r {
            Ok(picture) => module_px(w as int) >= QR_MIN_MODULE_PX && picture@ == qr_picture(
                w as int,
                dark@,
                channels as int,
                black,
                white,
            ),
            Err(e) => module_px(w as int) < QR_MIN_MODULE_PX && e == (
            QrFrameError::ModulesTooSmall { module_px: module_px(w as int) as usize }),
        },
{
    let total: usize = w + 2 * QR_BORDER_MODULES;
    let across: usize = (FRAME_WIDTH - 2 * BLOCK_SIZE) / total;
    let down: usize = (FRAME_HEIGHT - 2 * BLOCK_SIZE) / total;
    let px: usize = if across <= down {
        across
    } else {
        down
    };
    assert(px == module_px(w as int));
    if px < QR_MIN_MODULE_PX {
        return Err(QrFrameError::ModulesTooSmall { module_px: px });
    }
    proof {
        lemma_symbol_fits(w as int);
    }
    assert(total * px <= 952);
    let side: usize = total * px;
    let x0: usize = (FRAME_WIDTH - side) / 2;
    let y0: usize = (FRAME_HEIGHT - side) / 2;
    let stride: usize = FRAME_WIDTH * channels;
    let mut picture: Vec<u8> = vec![white; stride * FRAME_HEIGHT];
    let mut r: usize = 0;
    while r < w
        invariant
            0 <= r <= w,
            1 <= w <= 1000,
            dark@.len() == w * w,
            channels == 1 || channels == 3,
            px == module_px(w as int),
            px >= 6,
            total == w + 8,
            x0 == qr_left(w as int),
            y0 == qr_top(w as int),
            stride == FRAME_WIDTH * channels,
            picture.len() == stride * FRAME_HEIGHT,
            forall|p: int|
                0 <= p < picture@.len() ==> #[trigger] picture@[p] == (if drawn_upto(w as int, dark@, channels as int, p, r as int, 0) {
                    black
                } else {
                    white
                }),
        decreases w - r,
    {
        let mut c: usize = 0;
        while c < w
            invariant
                0 <= c <= w,
                0 <= r < w,
                1 <= w <= 1000,
                dark@.len() == w * w,
                channels == 1 || channels == 3,
                px == module_px(w as int),
                px >= 6,
                total == w + 8,
                x0 == qr_left(w as int),
                y0 == qr_top(w as int),
                stride == FRAME_WIDTH * channels,
                picture.len() == stride * FRAME_HEIGHT,
                forall|p: int|
                    0 <= p < picture@.len() ==> #[trigger] picture@[p] == (if drawn_upto(
                        w as int,
                        dark@,
                        channels as int,
                        p,
                        r as int,
                        c as int,
                    ) {
                        black
                    } else {
                        white
                    }),
            decreases w - c,
        {
            proof {
                lemma_symbol_fits(w as int);
                lemma_same_place(w as int, r as int, c as int, r as int, c as int);
                assert(w * w <= 1_000_000) by (nonlinear_arith)
                    requires
                        1 <= w <= 1000,
                ;
                assert((c + 4) * px + px <= total * px) by (nonlinear_arith)
                    requires
                        c + 5 <= total,
                ;
                assert((r + 4) * px + px <= total * px) by (nonlinear_arith)
                    requires
                        r + 5 <= total,
                ;
            }
            let ghost before = picture@;
            if dark[r * w + c] {
                let left: usize = (x0 + (c + QR_BORDER_MODULES) * px) * channels;
                let top: usize = y0 + (r + QR_BORDER_MODULES) * px;
                assert((top + px) * stride <= 1080 * stride) by (nonlinear_arith)
                    requires
                        top + px <= 1080,
                ;
                raster::fill_rect(&mut picture, stride, left, top, px * channels, px, black);
            }
            assert forall|p: int| 0 <= p < picture@.len() implies #[trigger] picture@[p] == (
            if drawn_upto(w as int, dark@, channels as int, p, r as int, c + 1) {
                black
            } else {
                white
            }) by {
                lemma_module_rect(w as int, channels as int, r as int, c as int, p);
                assert(before[p] == (if drawn_upto(
                    w as int,
                    dark@,
                    channels as int,
                    p,
                    r as int,
                    c as int,
                ) {
                    black
                } else {
                    white
                }));
            }
            c = c + 1;
        }
        assert forall|p: int| 0 <= p < picture@.len() implies #[trigger] picture@[p] == (if drawn_upto(
            w as int,
            dark@,
            channels as int,
            p,
            r + 1,
            0,
        ) {
            black
        } else {
            white
        }) by {
            assert(picture@[p] == (if drawn_upto(
                w as int,
                dark@,
                channels as int,
                p,
                r as int,
                w as int,
            ) {
                black
            } else {
                white
            }));
        }
        r = r + 1;
    }
    assert(picture@ =~= qr_picture(w as int, dark@, channels as int, black, white));
    Ok(picture)
}

/// The frame with a symbol, or why there is none.
pub open spec fn qr_frame_of(
    symbol: Option<(nat, Seq<bool>)>,
    channels: int,
    black: u8,
    white: u8,
) -> Result<Seq<u8>, QrFrameError> {
    match symbol {
        Some((w, dark)) => if module_px(w as int) < QR_MIN_MODULE_PX {
            Err(QrFrameError::ModulesTooSmall { module_px: module_px(w as int) as usize })
        } else {
            Ok(qr_picture(w as int, dark, channels, black, white))
        },
        None => Err(QrFrameError::Encode),
    }
}

/// The bytes of a frame, or why there is none.
pub open spec fn picture(r: Result<Vec<u8>, QrFrameError>) -> Result<Seq<u8>, QrFrameError> {
    match r {
        Ok(v) => Ok(v@),
        Err(e) => Err(e),
    }
}

/// The 1920x1080 luma plane with a symbol of `w` by `w` modules, centred on
/// white.
pub fn symbol_luma(w: usize, dark: &Vec<bool>) -> (r: Result<Vec<u8>, QrFrameError>)
    requires
        1 <= w <= 177,
        dark@.len() == w * w,
    ensures
        picture(r) == qr_frame_of(Some((w as nat, dark@)), 1, BLACK_Y, WHITE_Y),
{
    draw_symbol(w, dark, 1, BLACK_Y, WHITE_Y)
}

/// The 1920x1080 rgb24 frame with a symbol of `w` by `w` modules, centred on
/// white.
pub fn symbol_rgb(w: usize, dark: &Vec<bool>) -> (r: Result<Vec<u8>, QrFrameError>)
    requires
        1 <= w <= 177,
        dark@.len() == w * w,
    ensures
        picture(r) == qr_frame_of(Some((w as nat, dark@)), 3, 0, 255),
{
    draw_symbol(w, dark, 3, 0, 255)
}

/// What came of making a symbol: the frame with it, or why there is none. `None`
/// says that making it broke off.
pub open spec fn qr_frame_from(
    answer: Option<Option<(nat, Seq<bool>)>>,
    channels: int,
    black: u8,
    white: u8,
) -> Result<Seq<u8>, QrFrameError> {
    match answer {
        Some(symbol) => qr_frame_of(symbol, channels, black, white),
        None => Err(QrFrameError::BrokeOff),
    }
}

/// A symbol by its view.
pub open spec fn symbol_view(symbol: Option<(usize, Vec<bool>)>) -> Option<(nat, Seq<bool>)> {
    match symbol {
        Some((w, dark)) => Some((w as nat, dark@)),
        None => None,
    }
}

/// What came of making a symbol, by its view.
pub open spec fn answer_view(answer: Option<Option<(usize, Vec<bool>)>>) -> Option<
    Option<(nat, Seq<bool>)>,
> {
    match answer {
        Some(symbol) => Some(symbol_view(symbol)),
        None => None,
    }
}

/// The modules of a symbol are square and no more than a version has.
pub open spec fn is_symbol(answer: Option<Option<(usize, Vec<bool>)>>) -> bool {
    answer matches Some(Some((w, dark))) ==> 1 <= w <= 177 && dark@.len() == w * w
}

/// The luma plane that comes of making a symbol.
pub fn answer_luma(answer: Option<Option<(usize, Vec<bool>)>>) -> (r: Result<Vec<u8>, QrFrameError>)
    requires
        is_symbol(answer),
    ensures
        picture(r) == qr_frame_from(answer_view(answer), 1, BLACK_Y, WHITE_Y),
{
    match answer {
        Some(Some((w, dark))) => symbol_luma(w, &dark),
        Some(None) => Err(QrFrameError::Encode),
        None => Err(QrFrameError::BrokeOff),
    }
}

/// The rgb24 frame that comes of making a symbol.
pub fn answer_rgb(answer: Option<Option<(usize, Vec<bool>)>>) -> (r: Result<Vec<u8>, QrFrameError>)
    requires
        is_symbol(answer),
    ensures
        picture(r) == qr_frame_from(answer_view(answer), 3, 0, 255),
{
    match answer {
        Some(Some((w, dark))) => symbol_rgb(w, &dark),
        Some(None) => Err(QrFrameError::Encode),
        None => Err(QrFrameError::BrokeOff),
    }
}

/// Makes the symbol of `payload` at error correction level Q.
fn metadata_symbol(payload: &[u8]) -> (answer: Option<Option<(usize, Vec<bool>)>>)
    ensures
        is_symbol(answer),
        answer is Some ==> answer_view(answer) == Some(qr_symbol(payload@, QrLevel::Q)),
{
    match qr_encode(payload, QrLevel::Q) {
        Some(Ok((w, dark))) => Some(Some((w, dark))),
        Some(Err(_)) => Some(None),
        None => None,
    }
}

/// The luma plane with the QR symbol of `payload`, at error correction level Q.
/// The error [`QrFrameError::BrokeOff`] says nothing of the payload; any other
/// outcome is the one that the payload has.
pub fn make_qr_luma(payload: &[u8]) -> (r: Result<Vec<u8>, QrFrameError>)
    ensures
        r == Err::<Vec<u8>, QrFrameError>(QrFrameError::BrokeOff) || picture(r) == qr_frame_of(
            qr_symbol(payload@, QrLevel::Q),
            1,
            BLACK_Y,
            WHITE_Y,
        ),
{
    answer_luma(metadata_symbol(payload))
}

/// The rgb24 frame with the QR symbol of `payload`, at error correction level Q.
/// The error [`QrFrameError::BrokeOff`] says nothing of the payload; any other
/// outcome is the one that the payload has.
pub fn make_qr_frame(payload: &[u8]) -> (r: Result<Vec<u8>, QrFrameError>)
    ensures
        r == Err::<Vec<u8>, QrFrameError>(QrFrameError::BrokeOff) || picture(r) == qr_frame_of(
            qr_symbol(payload@, QrLevel::Q),
            3,
            0,
            255,
        ),
{
    answer_rgb(metadata_symbol(payload))
}

/// The picture of a symbol is the whole symbol: with `px` the side of a module, 952
/// pixels over the modules of the symbol and its border of four, and `left` and
/// `top` where the centred symbol begins, each pixel of the square of module
/// `(r, c)` is black where the module is dark and white where it is not, for every
/// row and every column, and every pixel outside the modules is white.
pub proof fn theorem_symbol_is_drawn(w: int, dark: Seq<bool>, x: int, y: int)
    requires
        1 <= w,
        952int / (w + 8) >= 1,
        0 <= x < 1920,
        0 <= y < 1080,
    ensures
        ({
            let px = 952int / (w + 8);
            let left = (1920 - (w + 8) * px) / 2;
            let top = (1080 - (w + 8) * px) / 2;
            let luma = qr_luma(w, dark)[y * 1920 + x];
            let rgb = |ch: int| qr_rgb(w, dark)[(y * 1920 + x) * 3 + ch];
            &&& qr_luma(w, dark).len() == 1920 * 1080
            &&& qr_rgb(w, dark).len() == 1920 * 1080 * 3
            &&& forall|r: int, c: int|
                0 <= r < w && 0 <= c < w && left + (c + 4) * px <= x < left + (c + 4) * px + px
                    && top + (r + 4) * px <= y < top + (r + 4) * px + px ==> {
                    let set = #[trigger] dark[r * w + c];
                    &&& luma == (if set {
                        16u8
                    } else {
                        235u8
                    })
                    &&& forall|ch: int|
                        0 <= ch < 3 ==> #[trigger] rgb(ch) == (if set {
                            0u8
                        } else {
                            255u8
                        })
                }
            &&& !(left + 4 * px <= x < left + (w + 4) * px && top + 4 * px <= y < top + (w + 4)
                * px) ==> {
                &&& luma == 235u8
                &&& forall|ch: int| 0 <= ch < 3 ==> #[trigger] rgb(ch) == 255u8
            }
        }),
{
    let t = w + 8;
    let px = 952int / t;
    assert(1792int / t >= px) by {
        div_mod::lemma_div_is_ordered(952, 1792, t);
    }
    assert(module_px(w) == px);
    let (left, top) = (qr_left(w), qr_top(w));
    lemma_symbol_fits(w);
    let p = y * 1920 + x;
    assert(0 <= p < 1920 * 1080);
    assert(p / 1920 == y && p % 1920 == x && x / 1 == x);
    let here = dark_pixel(w, dark, x, y);
    assert(qr_luma(w, dark)[p] == (if here {
        16u8
    } else {
        235u8
    }));
    let rgb = |ch: int| qr_rgb(w, dark)[(y * 1920 + x) * 3 + ch];
    assert forall|ch: int| 0 <= ch < 3 implies #[trigger] rgb(ch) == (if here {
        0u8
    } else {
        255u8
    }) by {
        let q = p * 3 + ch;
        assert(0 <= q < 1920 * 1080 * 3);
        assert(q / 5760 == y && q % 5760 == x * 3 + ch);
        assert((x * 3 + ch) / 3 == x);
    }
    assert forall|r: int, c: int|
        0 <= r < w && 0 <= c < w && left + (c + 4) * px <= x < left + (c + 4) * px + px && top + (r
            + 4) * px <= y < top + (r + 4) * px + px implies here == #[trigger] dark[r * w + c] by {
        assert((c + 4) * px >= 0 && (r + 4) * px >= 0) by (nonlinear_arith)
            requires
                c >= 0,
                r >= 0,
                px >= 1,
        ;
        lemma_module_at(w, c, x - left);
        lemma_module_at(w, r, y - top);
    }
    if here {
        let c = module_at(w, x - left);
        let r = module_at(w, y - top);
        lemma_module_at(w, c, x - left);
        lemma_module_at(w, r, y - top);
        assert(4 * px <= (c + 4) * px && (c + 4) * px + px <= (w + 4) * px) by (nonlinear_arith)
            requires
                0 <= c < w,
                px >= 1,
        ;
        assert(4 * px <= (r + 4) * px && (r + 4) * px + px <= (w + 4) * px) by (nonlinear_arith)
            requires
                0 <= r < w,
                px >= 1,
        ;
    }
}

/// Whether a symbol is drawn is a matter of the size of its modules alone: those of
/// fewer than six pixels are refused, and any other symbol is drawn, 1920 by 1080
/// pixels large.
pub proof fn theorem_small_modules_refused(w: int, dark: Seq<bool>)
    requires
        1 <= w,
    ensures
        ({
            let symbol = Some((w as nat, dark));
            let px = 952int / (w + 8);
            if px < 6 {
                let refused = Err::<Seq<u8>, QrFrameError>(
                    QrFrameError::ModulesTooSmall { module_px: px as usize },
                );
                qr_frame_of(symbol, 1, BLACK_Y, WHITE_Y) == refused && qr_frame_of(
                    symbol,
                    3,
                    0,
                    255,
                ) == refused
            } else {
                qr_frame_of(symbol, 1, BLACK_Y, WHITE_Y) == Ok::<Seq<u8>, QrFrameError>(
                    qr_luma(w, dark),
                ) && qr_frame_of(symbol, 3, 0, 255) == Ok::<Seq<u8>, QrFrameError>(qr_rgb(w, dark))
            }
        }),
{
    div_mod::lemma_div_is_ordered(952, 1792, w + 8);
}

/// The rgb24 frame with a symbol shows the luma plane with it.
pub proof fn theorem_rgb_follows_luma(w: int, dark: Seq<bool>)
    ensures
        frame::follows(qr_rgb(w, dark), qr_luma(w, dark)),
{
    let luma = qr_luma(w, dark);
    let rgb = qr_rgb(w, dark);
    assert forall|p: int| 0 <= p < luma.len() implies (rgb[3 * p] >= THRESHOLD) == (
    #[trigger] luma[p] >= THRESHOLD) by {
        assert((3 * p) / 5760 == p / 1920);
        assert((3 * p) % 5760 / 3 == p % 1920);
    }
}

/// A QR frame is never taken for a data frame: the first row of blocks is white,
/// which is no sync pattern.
pub proof fn theorem_qr_frame_is_no_data(pic: Seq<u8>, w: int, dark: Seq<bool>, header_bits: int)
    requires
        1 <= w,
        module_px(w) >= 1,
        frame::follows(pic, qr_luma(w, dark)),
    ensures
        frame::frame_content(frame::sampled(pic), header_bits) is None,
{
    let luma = qr_luma(w, dark);
    let blocks = frame::sampled(pic);
    lemma_symbol_fits(w);
    assert forall|yy: int, xx: int|
        0 <= yy < 32 && 0 <= xx < frame::centre() implies #[trigger] pic[frame::sample_at(1, yy, xx)]
        >= THRESHOLD by {
        assert(frame::centre() == 32);
        let p = (16 + yy) * 1920 + (64 + 16 + xx);
        assert(frame::sample_at(1, yy, xx) == 3 * p);
        assert(p / 1920 == 16 + yy);
        assert(p / 1920 < qr_top(w));
        assert(luma[p] >= THRESHOLD);
    }
    frame::lemma_centre_bounds(pic, 1, 32);
    assert(blocks[1] == 1);
    assert(blocks.take(8)[1] == 1);
    assert(SYNC_PATTERN@[1] == 0);
}

// ---------------------------------------------------------------------------
// Scanning
// ---------------------------------------------------------------------------

/// The red samples of an rgb24 frame.
pub open spec fn red_plane(frame: Seq<u8>, width: int, height: int) -> Seq<u8> {
    Seq::new((width * height) as nat, |p: int| frame[3 * p])
}

/// The picture that is scanned is the red channel, pixel by pixel.
pub proof fn theorem_red_plane(frame: Seq<u8>, width: int, height: int, x: int, y: int)
    requires
        0 <= x < width,
        0 <= y < height,
    ensures
        red_plane(frame, width, height).len() == width * height,
        red_plane(frame, width, height)[y * width + x] == frame[3 * (y * width + x)],
{
    assert(0 <= y * width + x < width * height) by (nonlinear_arith)
        requires
            0 <= x < width,
            0 <= y < height,
    ;
}

/// What the `rqrr` crate reads from a grey picture: for each symbol that it
/// finds, in the order in which it finds them, the text, or nothing where the
/// symbol cannot be read.
pub uninterp spec fn qr_contents(grey: Seq<u8>, width: nat, height: nat) -> Seq<
    Option<Seq<char>>,
>;

/// The red sample of a pixel.
fn red_sample(frame: &[u8], width: usize, x: usize, y: usize) -> (v: u8)
    requires
        (y * width + x) * 3 < frame.len(),
    ensures
        v == frame@[(y * width + x) * 3],
{
    assert(0 <= y * width) by (nonlinear_arith);
    frame[(y * width + x) * 3]
}

/// The texts of found symbols.
pub open spec fn texts(found: Seq<Option<String>>) -> Seq<Option<Seq<char>>> {
    Seq::new(found.len(), |i: int| metadata::text(found[i]))
}

/// Calls `rqrr::PreparedImage::prepare_from_greyscale` with the red samples of
/// the frame, `detect_grids`, and `decode` of each grid, as a job of a
/// `rayon::ThreadPool` of its own that sends each text as soon as it is read. The
/// crate asserts while it measures what it takes for a symbol, and panics on some
/// pictures that hold none, on more of them where arithmetic is checked for
/// overflow. The pool hands such a panic to its panic handler, and what was read
/// before it is all that was found. Where the pool cannot be had nothing is found.
/// Claimed is that what is found is what the red samples and the size alone
/// determine, or the beginning of it. What is found in which picture is not
/// claimed, nor for which pictures the scan breaks off.
#[verifier::external_body]
fn qr_scan(frame: &[u8], width: usize, height: usize) -> (found: Vec<Option<String>>)
    requires
        0 < width,
        0 < height,
        width * height * 3 <= frame@.len(),
    ensures
        texts(found@).is_prefix_of(
            qr_contents(
                red_plane(frame@, width as int, height as int),
                width as nat,
                height as nat,
            ),
        ),
{
    let (reply, answer) = mpsc::channel();
    let frame = frame.to_vec();
    let job = move || {
        let red = |x, y| red_sample(&frame, width, x, y);
        let mut img = rqrr::PreparedImage::prepare_from_greyscale(width, height, red);
        let send = |g: rqrr::Grid<_>| reply.send(g.decode().ok().map(|d| d.1)).unwrap_or(());
        img.detect_grids().into_iter().for_each(send)
    };
    match ThreadPoolBuilder::new().num_threads(1).panic_handler(|_| ()).build() {
        Ok(pool) => pool.spawn(job),
        Err(_) => drop(job),
    }
    answer.into_iter().collect()
}

/// The texts that could be read, in order.
pub open spec fn readable(found: Seq<Option<Seq<char>>>) -> Seq<Seq<char>>
    decreases found.len(),
{
    if found.len() == 0 {
        Seq::empty()
    } else {
        let rest = readable(found.drop_last());
        match found.last() {
            Some(t) => rest.push(t),
            None => rest,
        }
    }
}

/// Texts are kept in order and what cannot be read is left out, wherever it stands.
pub proof fn theorem_readable(a: Seq<Option<Seq<char>>>, b: Seq<Option<Seq<char>>>, t: Seq<char>)
    ensures
        readable(Seq::empty()).len() == 0,
        readable(seq![Some(t)]) == seq![t],
        readable(seq![None]).len() == 0,
        readable(a + b) == readable(a) + readable(b),
    decreases b.len(),
{
    let one = seq![Some(t)];
    let none = seq![None::<Seq<char>>];
    assert(one.drop_last() =~= Seq::empty() && none.drop_last() =~= Seq::empty());
    assert(readable(one.drop_last()) =~= Seq::empty());
    assert(one.last() == Some(t) && none.last() is None);
    assert(readable(one) =~= seq![t]);
    if b.len() == 0 {
        assert(a + b =~= a);
        assert(readable(a) + readable(b) =~= readable(a));
    } else {
        theorem_readable(a, b.drop_last(), t);
        assert((a + b).drop_last() =~= a + b.drop_last());
        assert((a + b).last() == b.last());
        assert(readable(a + b) =~= readable(a) + readable(b));
    }
}

/// Found texts, a list of texts and an answer by their views say the same, one by one.
pub proof fn theorem_views(
    found: Seq<Option<String>>,
    list: Seq<String>,
    w: usize,
    dark: Vec<bool>,
    i: int,
)
    ensures
        texts(found).len() == found.len(),
        0 <= i < found.len() ==> texts(found)[i] == (match found[i] {
            Some(t) => Some(t@),
            None => None,
        }),
        texts_view(list).len() == list.len(),
        0 <= i < list.len() ==> texts_view(list)[i] == list[i]@,
        answer_view(Some(Some((w, dark)))) == Some(Some((w as nat, dark@))),
        answer_view(Some(None)) == Some(None::<(nat, Seq<bool>)>),
        answer_view(None) is None,
{
}

/// What comes of a symbol: the picture where its modules are not too small, and each
/// other outcome its own error.
pub proof fn theorem_frame_from(
    w: nat,
    dark: Seq<bool>,
    channels: int,
    black: u8,
    white: u8,
    drawn: Vec<u8>,
    error: QrFrameError,
)
    ensures
        qr_frame_from(None, channels, black, white) == Err::<Seq<u8>, QrFrameError>(
            QrFrameError::BrokeOff,
        ),
        qr_frame_from(Some(None), channels, black, white) == Err::<Seq<u8>, QrFrameError>(
            QrFrameError::Encode,
        ),
        qr_frame_from(Some(Some((w, dark))), channels, black, white) is Ok <==> module_px(w as int)
            >= 6,
        module_px(w as int) >= 6 ==> qr_frame_from(Some(Some((w, dark))), channels, black, white)
            == Ok::<Seq<u8>, QrFrameError>(qr_picture(w as int, dark, channels, black, white)),
        picture(Ok(drawn)) == Ok::<Seq<u8>, QrFrameError>(drawn@),
        picture(Err(error)) == Err::<Seq<u8>, QrFrameError>(error),
{
}

/// The texts, by their views.
pub open spec fn texts_view(v: Seq<String>) -> Seq<Seq<char>> {
    Seq::new(v.len(), |i: int| v[i]@)
}

/// The texts of the symbols that could be read, in the order in which they were
/// found.
pub fn readable_texts(found: Vec<Option<String>>) -> (out: Vec<String>)
    ensures
        texts_view(out@) == readable(texts(found@)),
{
    let mut out: Vec<String> = Vec::new();
    let mut i: usize = 0;
    let ghost all = texts(found@);
    assert(texts_view(out@) =~= readable(all.take(0)));
    while i < found.len()
        invariant
            0 <= i <= found@.len(),
            all == texts(found@),
            texts_view(out@) == readable(all.take(i as int)),
        decreases found@.len() - i,
    {
        assert(all.take(i + 1).drop_last() =~= all.take(i as int));
        assert(all.take(i + 1).last() == metadata::text(found@[i as int]));
        let ghost before = out@;
        if let Some(t) = &found[i] {
            out.push(t.clone());
            assert(texts_view(out@) =~= texts_view(before).push(t@));
        }
        i = i + 1;
    }
    assert(all.take(i as int) =~= all);
    out
}

/// Scans a 1920x1080 rgb24 frame, its red samples taken as luma, for QR symbols
/// and returns the texts of those that can be read. Where the scan breaks off,
/// they are the texts of the symbols before.
pub fn decode_qr_metadata(frame: &[u8]) -> (out: Vec<String>)
    requires
        frame@.len() >= FRAME_WIDTH * FRAME_HEIGHT * 3,
    ensures
        ({
            let contents = qr_contents(
                red_plane(frame@, FRAME_WIDTH as int, FRAME_HEIGHT as int),
                FRAME_WIDTH as nat,
                FRAME_HEIGHT as nat,
            );
            exists|n: int|
                0 <= n <= contents.len() && texts_view(out@) == readable(
                    #[trigger] contents.take(n),
                )
        }),
{
    let found: Vec<Option<String>> = qr_scan(frame, FRAME_WIDTH, FRAME_HEIGHT);
    let ghost contents = qr_contents(
        red_plane(frame@, FRAME_WIDTH as int, FRAME_HEIGHT as int),
        FRAME_WIDTH as nat,
        FRAME_HEIGHT as nat,
    );
    assert(texts(found@) =~= contents.take(found@.len() as int));
    readable_texts(found)
}

/// The first of the metadata that is complete.
pub open spec fn first_complete(read: Seq<Option<QrMeta>>) -> Option<QrMeta>
    decreases read.len(),
{
    if read.len() == 0 {
        None
    } else {
        match first_complete(read.drop_last()) {
            Some(m) => Some(m),
            None => match read.last() {
                Some(m) => if metadata::complete(m) {
                    Some(m)
                } else {
                    None
                },
                None => None,
            },
        }
    }
}

/// The metadata that counts is the first one with the file's name, size and digest:
/// it stands among those read, none before it has all three, and there is none only
/// where none has.
pub proof fn theorem_first_complete(read: Seq<Option<QrMeta>>)
    ensures
        first_complete(read) is None ==> forall|i: int|
            0 <= i < read.len() ==> !(#[trigger] read[i] matches Some(m) && m.filename is Some
                && m.size is Some && m.sha256 is Some),
        first_complete(read) is Some ==> exists|k: int|
            0 <= k < read.len() && #[trigger] read[k] == first_complete(read) && read[k]->0.filename
                is Some && read[k]->0.size is Some && read[k]->0.sha256 is Some && forall|i: int|
                0 <= i < k ==> !(#[trigger] read[i] matches Some(m) && m.filename is Some && m.size
                    is Some && m.sha256 is Some),
    decreases read.len(),
{
    if read.len() > 0 {
        let front = read.drop_last();
        theorem_first_complete(front);
        if first_complete(front) is Some {
            let k = choose|k: int|
                0 <= k < front.len() && #[trigger] front[k] == first_complete(front)
                    && front[k]->0.filename is Some && front[k]->0.size is Some
                    && front[k]->0.sha256 is Some && forall|i: int|
                    0 <= i < k ==> !(#[trigger] front[i] matches Some(m) && m.filename is Some
                        && m.size is Some && m.sha256 is Some);
            assert(read[k] == front[k]);
            assert forall|i: int| 0 <= i < k implies !(#[trigger] read[i] matches Some(m)
                && m.filename is Some && m.size is Some && m.sha256 is Some) by {
                assert(front[i] == read[i]);
            }
        } else {
            assert forall|i: int| 0 <= i < read.len() - 1 implies !(#[trigger] read[i] matches Some(
                m,
            ) && m.filename is Some && m.size is Some && m.sha256 is Some) by {
                assert(front[i] == read[i]);
            }
            assert(read[read.len() - 1] == read.last());
        }
    }
}

/// Chooses the metadata of a frame: `read` is, text by text, what the texts of
/// its QR symbols spell.
pub fn choose_qr_meta(read: Vec<Option<QrMeta>>) -> (chosen: Option<QrMeta>)
    ensures
        chosen == first_complete(read@),
{
    let mut left: Vec<Option<QrMeta>> = read;
    let mut chosen: Option<QrMeta> = None;
    let ghost all = left@;
    while left.len() > 0
        invariant
            left@.len() <= all.len(),
            left@ == all.take(left@.len() as int),
            first_complete(all) == (match first_complete(left@) {
                Some(m) => Some(m),
                None => chosen,
            }),
        decreases left@.len(),
    {
        let ghost before = left@;
        let last: Option<QrMeta> = match left.pop() {
            Some(m) => m,
            None => None,
        };
        assert(left@ =~= before.drop_last());
        assert(left@ =~= all.take(left@.len() as int));
        match metadata::parse_qr_meta(last) {
            Some(m) => {
                chosen = Some(m);
            },
            None => {},
        }
    }
    chosen
}

} // verus!
