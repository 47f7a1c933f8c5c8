//! The audio side channel: which bytes of an ECC stream ride on it, and bytes
//! as 2-bit tone symbols.

use vstd::prelude::*;

use crate::binary;
use crate::bits;
use crate::double;

verus! {

/// The layout that spreads the bytes over the whole stream.
pub const AUDIO_LAYOUT_DISTRIBUTED: &'static str = "distributed";

/// The layout that covers the beginning of the stream.
pub const AUDIO_LAYOUT_PREFIX: &'static str = "prefix";

// ---------------------------------------------------------------------------
// Placement
// ---------------------------------------------------------------------------

/// The layout is the distributed one; without a layout it is not.
pub open spec fn is_distributed(layout: Option<&str>) -> bool {
    match layout {
        Some(l) => l@ == AUDIO_LAYOUT_DISTRIBUTED@,
        None => false,
    }
}

/// How many of `ecc_len` bytes are covered.
pub open spec fn covered(ecc_len: int, count: int) -> int {
    if count <= ecc_len {
        count
    } else {
        ecc_len
    }
}

/// Up to this length of the stream, `2^49`, spread positions are known to stay in
/// it.
pub const SPREAD_LIMIT: u64 = 0x2_0000_0000_0000;

/// Position `i` of `count` positions spread evenly from the first to the last of
/// `ecc_len`: `i * (ecc_len - 1) / (count - 1)` in floating point, rounded to the
/// nearest whole number, ties to even.
pub open spec fn spread(ecc_len: int, count: int, i: int) -> int {
    double::scaled_position(i as nat, (ecc_len - 1) as nat, (count - 1) as nat) as int
}

/// The positions that the audio channel covers.
pub open spec fn positions(ecc_len: int, audio_byte_count: int, distributed: bool) -> Seq<int> {
    let count = covered(ecc_len, audio_byte_count);
    if ecc_len == 0 || audio_byte_count == 0 {
        Seq::empty()
    } else if !distributed || count >= ecc_len {
        Seq::new(count as nat, |i: int| i)
    } else if count == 1 {
        seq![ecc_len / 2]
    } else {
        Seq::new(count as nat, |i: int| spread(ecc_len, count, i))
    }
}

/// How far a spread position is from the exact fraction.
proof fn lemma_spread_bounds(ecc_len: int, count: int, i: int)
    requires
        2 <= count < ecc_len <= SPREAD_LIMIT,
        ecc_len <= usize::MAX,
        0 <= i < count,
    ensures
        ({
            let (r, d) = (spread(ecc_len, count, i), count - 1);
            let x = i * (ecc_len - 1);
            let q = double::exact_square();
            &&& 2 * (r * d) * q <= 2 * x * (q + 0x40_0000_0000_0001) + d * q
            &&& 2 * (r * d) * q + d * q >= 2 * x * (q - 0x3f_ffff_ffff_ffff)
        }),
        i == 0 ==> spread(ecc_len, count, i) == 0,
        0 <= spread(ecc_len, count, i) < ecc_len,
        i == count - 1 ==> spread(ecc_len, count, i) == ecc_len - 1,
{
    let (span, denom) = ((ecc_len - 1) as nat, (count - 1) as nat);
    let n = i as nat;
    if i == 0 {
        assert(n * span == 0 && i * (ecc_len - 1) == 0) by (nonlinear_arith)
            requires
                n == 0,
                i == 0,
        ;
        double::theorem_scaled_exact(0, span, denom);
        double::lemma_half_even(0, denom);
        let r = binary::half_even(0, denom);
        assert(r == 0) by (nonlinear_arith)
            requires
                2 * (r * denom) <= denom,
                denom > 0,
                r >= 0,
        ;
        let (d, q) = (count - 1, double::exact_square());
        assert(2 * (0 * d) * q == 0 && d * q > 0) by (nonlinear_arith)
            requires
                d > 0,
                q > 0,
        ;
        assert(2 * 0 * (q + 0x40_0000_0000_0001) == 0 && 2 * 0 * (q - 0x3f_ffff_ffff_ffff) == 0)
            by (nonlinear_arith);
    } else {
        double::lemma_exact(n);
        double::lemma_exact(span);
        double::lemma_exact(denom);
        double::lemma_product_quotient_bounds(n, span, denom);
        let r = double::whole_quotient(double::as_double(n * span), denom) as int;
        lemma_near_end(r, n as int, span as int, denom as int);
        assert(r == spread(ecc_len, count, i));
    }
}

/// Two roundings do not carry a position behind the end, nor the last one away
/// from it.
proof fn lemma_near_end(r: int, i: int, span: int, denom: int)
    requires
        1 <= i <= denom,
        denom < span <= 0x2_0000_0000_0000,
        2 * (r * denom) * double::exact_square() <= 2 * (i * span) * (double::exact_square()
            + 0x40_0000_0000_0001) + denom * double::exact_square(),
        2 * (r * denom) * double::exact_square() + denom * double::exact_square() >= 2 * (i * span)
            * (double::exact_square() - 0x3f_ffff_ffff_ffff),
    ensures
        r <= span,
        i == denom ==> r == span,
{
    let q = double::exact_square();
    let x = i * span;
    let most = span * denom;
    assert(0 <= x <= most && most <= 0x2_0000_0000_0000 * denom) by (nonlinear_arith)
        requires
            x == i * span,
            most == span * denom,
            1 <= i <= denom,
            1 <= span <= 0x2_0000_0000_0000,
    ;
    let a = r * denom;
    assert(2 * a * q == 2 * (a * q)) by (nonlinear_arith);
    assert(2 * x * (q + 0x40_0000_0000_0001) == 2 * (x * q) + 2 * (x * 0x40_0000_0000_0001))
        by (nonlinear_arith);
    assert(x * q <= most * q) by (nonlinear_arith)
        requires
            x <= most,
            q > 0,
    ;
    assert(4 * (a * q) <= 4 * (most * q) + 3 * (denom * q));
    assert(r <= span) by (nonlinear_arith)
        requires
            4 * (a * q) <= 4 * (most * q) + 3 * (denom * q),
            a == r * denom,
            most == span * denom,
            denom > 0,
            q > 0,
    ;
    if i == denom {
        assert(x == most) by (nonlinear_arith)
            requires
                x == i * span,
                most == span * denom,
                i == denom,
        ;
        assert(2 * x * (q - 0x3f_ffff_ffff_ffff) == 2 * (x * q) - 2 * (x * 0x3f_ffff_ffff_ffff))
            by (nonlinear_arith);
        assert(4 * (a * q) + 3 * (denom * q) >= 4 * (most * q));
        assert(r >= span) by (nonlinear_arith)
            requires
                4 * (a * q) + 3 * (denom * q) >= 4 * (most * q),
                a == r * denom,
                most == span * denom,
                denom > 0,
                q > 0,
        ;
    }
}

/// Positions of a spread are far enough apart not to meet in floating point:
/// neighbours are `1 + (span - denom) / denom` apart.
pub open spec fn apart(ecc_len: int, count: int) -> bool {
    let (span, denom) = (ecc_len - 1, count - 1);
    span * denom < 0x10_0000_0000_0000 || span * denom < (span - denom) * 0x8_0000_0000_0000
}

/// Spread positions that are far enough apart increase.
proof fn lemma_spread_increases(ecc_len: int, count: int, i: int, j: int)
    requires
        2 <= count < ecc_len <= SPREAD_LIMIT,
        ecc_len <= usize::MAX,
        apart(ecc_len, count),
        0 <= i < j < count,
    ensures
        spread(ecc_len, count, i) < spread(ecc_len, count, j),
{
    let (span, denom) = (ecc_len - 1, count - 1);
    let (r, q) = (spread(ecc_len, count, i), spread(ecc_len, count, j));
    assert(0 <= i * span && i * span + span <= j * span && j * span <= span * denom)
        by (nonlinear_arith)
        requires
            0 <= i < j <= denom,
            span >= 1,
    ;
    if span * denom < 0x10_0000_0000_0000 {
        theorem_spread_exact(ecc_len, count, i);
        theorem_spread_exact(ecc_len, count, j);
        let (a, c, b) = ((i * span) as nat, (j * span) as nat, denom as nat);
        double::lemma_half_even(a, b);
        double::lemma_half_even(c, b);
        let (x, y) = (binary::half_even(a, b), binary::half_even(c, b));
        assert(x < y) by (nonlinear_arith)
            requires
                2 * (x * b) <= 2 * a + b,
                2 * c <= 2 * (y * b) + b,
                c > a + b,
        ;
    } else {
        lemma_spread_bounds(ecc_len, count, i);
        lemma_spread_bounds(ecc_len, count, j);
        lemma_far_apart(r, q, i * span, j * span, span, denom);
    }
}

/// What is far enough apart stays apart.
proof fn lemma_far_apart(r: int, s: int, x: int, y: int, span: int, denom: int)
    requires
        0 < denom < span,
        0 <= x,
        x + span <= y <= span * denom,
        span * denom < (span - denom) * 0x8_0000_0000_0000,
        2 * (r * denom) * double::exact_square() <= 2 * x * (double::exact_square()
            + 0x40_0000_0000_0001) + denom * double::exact_square(),
        2 * (s * denom) * double::exact_square() + denom * double::exact_square() >= 2 * y * (
        double::exact_square() - 0x3f_ffff_ffff_ffff),
    ensures
        r < s,
{
    let q = double::exact_square();
    let (a, b, most) = (r * denom, s * denom, span * denom);
    assert(2 * a * q == 2 * (a * q) && 2 * b * q == 2 * (b * q)) by (nonlinear_arith);
    assert(2 * x * (q + 0x40_0000_0000_0001) == 2 * (x * q) + 2 * (x * 0x40_0000_0000_0001))
        by (nonlinear_arith);
    assert(2 * y * (q - 0x3f_ffff_ffff_ffff) == 2 * (y * q) - 2 * (y * 0x3f_ffff_ffff_ffff))
        by (nonlinear_arith);
    assert(y * q >= x * q + span * q) by (nonlinear_arith)
        requires
            y >= x + span,
            q > 0,
    ;
    let gap = span - denom;
    assert(gap * q == span * q - denom * q) by (nonlinear_arith)
        requires
            gap == span - denom,
    ;
    assert(b * q - a * q >= gap * q - x * 0x40_0000_0000_0001 - y * 0x3f_ffff_ffff_ffff);
    assert(x * 0x40_0000_0000_0001 + y * 0x3f_ffff_ffff_ffff <= most * 0x80_0000_0000_0000);
    assert(most * 0x80_0000_0000_0000 < gap * q) by (nonlinear_arith)
        requires
            most < gap * 0x8_0000_0000_0000,
            q == 0x400_0000_0000_0000_0000_0000_0000,
            gap > 0,
    ;
    assert(r < s) by (nonlinear_arith)
        requires
            b * q > a * q,
            a == r * denom,
            b == s * denom,
            q > 0,
            denom > 0,
    ;
}

/// The positions lie in the stream; spread over it, they are anchored at its
/// first and its last byte. Where they are far enough apart they increase, so no
/// byte is covered twice.
pub proof fn theorem_positions(ecc_len: int, audio_byte_count: int, distributed: bool)
    requires
        0 <= ecc_len <= usize::MAX,
        0 <= audio_byte_count,
        distributed ==> ecc_len <= SPREAD_LIMIT,
    ensures
        ({
            let p = positions(ecc_len, audio_byte_count, distributed);
            &&& p.len() == covered(ecc_len, audio_byte_count)
            &&& forall|i: int| 0 <= i < p.len() ==> 0 <= #[trigger] p[i] < ecc_len
            &&& distributed && p.len() >= 2 ==> p[0] == 0 && p[p.len() - 1] == ecc_len - 1
            &&& !distributed || apart(ecc_len, p.len() as int) || p.len() == ecc_len ==> (forall|
                i: int,
                j: int,
            |
                0 <= i < j < p.len() ==> #[trigger] p[i] < #[trigger] p[j])
        }),
{
    let p = positions(ecc_len, audio_byte_count, distributed);
    let count = covered(ecc_len, audio_byte_count);
    if distributed && 2 <= count < ecc_len {
        assert forall|i: int| 0 <= i < p.len() implies 0 <= #[trigger] p[i] < ecc_len by {
            lemma_spread_bounds(ecc_len, count, i);
        }
        lemma_spread_bounds(ecc_len, count, 0);
        lemma_spread_bounds(ecc_len, count, count - 1);
        if apart(ecc_len, count) {
            assert forall|i: int, j: int| 0 <= i < j < p.len() implies #[trigger] p[i]
                < #[trigger] p[j] by {
                lemma_spread_increases(ecc_len, count, i, j);
            }
        }
    }
}

/// Rounding in floating point shows only in long streams: where the product of
/// the last position and its number is below `2^52`, every position is the
/// nearest one to an even spread, ties to even.
pub proof fn theorem_spread_exact(ecc_len: int, count: int, i: int)
    requires
        2 <= count < ecc_len <= usize::MAX,
        0 <= i < count,
        (ecc_len - 1) * (count - 1) < 0x10_0000_0000_0000,
    ensures
        spread(ecc_len, count, i) == binary::half_even(
            (i * (ecc_len - 1)) as nat,
            (count - 1) as nat,
        ),
{
    let (span, denom) = (ecc_len - 1, count - 1);
    assert(0 <= i * span <= span * denom) by (nonlinear_arith)
        requires
            0 <= i <= denom,
            span >= 1,
    ;
    double::theorem_scaled_exact(i as nat, span as nat, denom as nat);
    double::lemma_half_even((i * span) as nat, denom as nat);
    let (a, b) = (i * span, denom);
    let r = binary::half_even(a as nat, b as nat) as int;
    assert(r <= span) by (nonlinear_arith)
        requires
            2 * (r * b) <= 2 * a + b,
            a <= span * b,
            b > 0,
    ;
}

/// Which bytes ride on the audio channel: never more than are asked for, nor than there
/// are. Only the layout with the name `distributed` spreads them; with any other, or
/// with none, they are the first ones, and so are all bytes where all are asked for. A
/// single spread byte is the one in the middle.
pub proof fn theorem_layouts(ecc_len: int, count: int, layout: &str)
    requires
        0 <= ecc_len,
        0 <= count,
    ensures
        is_distributed(Some(layout)) <==> layout@ == "distributed"@,
        !is_distributed(None),
        positions(ecc_len, count, false) == Seq::new(
            (if count <= ecc_len {
                count
            } else {
                ecc_len
            }) as nat,
            |i: int| i,
        ),
        positions(ecc_len, count, true).len() == (if count <= ecc_len {
            count
        } else {
            ecc_len
        }),
        count >= ecc_len ==> positions(ecc_len, count, true) == Seq::new(
            ecc_len as nat,
            |i: int| i,
        ),
        count == 1 && ecc_len > 1 ==> positions(ecc_len, count, true) == seq![ecc_len / 2],
{
    assert(positions(ecc_len, count, false) =~= Seq::new(
        (if count <= ecc_len {
            count
        } else {
            ecc_len
        }) as nat,
        |i: int| i,
    ));
    if count >= ecc_len {
        assert(positions(ecc_len, count, true) =~= Seq::new(ecc_len as nat, |i: int| i));
    }
}

/// A spread position in words of floating point: the product of the position's number
/// and the last place, rounded, over the number of the last position, rounded, to the
/// nearest whole number.
pub proof fn theorem_spread_in_floating_point(ecc_len: int, count: int, i: int)
    requires
        2 <= count < ecc_len <= usize::MAX,
        0 <= i < count,
    ensures
        ({
            let whole = |n: nat| {
                let (m, e) = binary::rounded(n, 1);
                if e <= 0 {
                    n
                } else {
                    m * vstd::arithmetic::power2::pow2(e as nat)
                }
            };
            let product = whole(whole(i as nat) * whole((ecc_len - 1) as nat));
            let (m, e) = binary::rounded(product, whole((count - 1) as nat));
            let up = vstd::arithmetic::power2::pow2(
                if e > 0 {
                    e as nat
                } else {
                    0
                },
            );
            let down = vstd::arithmetic::power2::pow2(
                if e < 0 {
                    (-e) as nat
                } else {
                    0
                },
            );
            let nearest = binary::half_even(m * up, down);
            spread(ecc_len, count, i) == (if nearest <= usize::MAX {
                nearest
            } else {
                usize::MAX as nat
            })
        }),
{
}

/// Positions never go back, however long the stream.
pub proof fn theorem_positions_in_order(ecc_len: int, audio_byte_count: int, distributed: bool)
    requires
        0 <= ecc_len,
        0 <= audio_byte_count,
    ensures
        ({
            let p = positions(ecc_len, audio_byte_count, distributed);
            forall|i: int, j: int| 0 <= i < j < p.len() ==> #[trigger] p[i] <= #[trigger] p[j]
        }),
{
    let p = positions(ecc_len, audio_byte_count, distributed);
    let count = covered(ecc_len, audio_byte_count);
    if distributed && 2 <= count < ecc_len {
        assert forall|i: int, j: int| 0 <= i < j < p.len() implies #[trigger] p[i]
            <= #[trigger] p[j] by {
            double::theorem_scaled_monotone(
                i as nat,
                j as nat,
                (ecc_len - 1) as nat,
                (count - 1) as nat,
            );
        }
    }
}

/// Every position lies in the stream. It does for streams of any real length; in
/// floating point the last position of a spread over more than `2^49` bytes may
/// come out behind the end.
pub open spec fn in_stream(ecc_len: int, audio_byte_count: int, distributed: bool) -> bool {
    ||| !distributed
    ||| ecc_len <= SPREAD_LIMIT
    ||| forall|i: int|
        0 <= i < positions(ecc_len, audio_byte_count, distributed).len() ==> #[trigger] positions(
            ecc_len,
            audio_byte_count,
            distributed,
        )[i] < ecc_len
}

/// Positions are never negative, and there are as many as are covered.
proof fn lemma_positions_shape(ecc_len: int, audio_byte_count: int, distributed: bool)
    requires
        0 <= ecc_len <= usize::MAX,
        0 <= audio_byte_count,
    ensures
        ({
            let p = positions(ecc_len, audio_byte_count, distributed);
            &&& p.len() == covered(ecc_len, audio_byte_count)
            &&& forall|i: int| 0 <= i < p.len() ==> 0 <= #[trigger] p[i] <= usize::MAX
            &&& in_stream(ecc_len, audio_byte_count, distributed) ==> (forall|i: int|
                0 <= i < p.len() ==> 0 <= #[trigger] p[i] < ecc_len)
        }),
{
    if !distributed || ecc_len <= SPREAD_LIMIT {
        theorem_positions(ecc_len, audio_byte_count, distributed);
    }
}

/// Whether two texts are the same.
fn same_text(a: &str, b: &str) -> (same: bool)
    ensures
        same == (a@ == b@),
{
    let n: usize = a.unicode_len();
    if n != b.unicode_len() {
        return false;
    }
    let mut i: usize = 0;
    while i < n
        invariant
            0 <= i <= n,
            n == a@.len(),
            n == b@.len(),
            forall|j: int| 0 <= j < i ==> a@[j] == b@[j],
        decreases n - i,
    {
        if a.get_char(i) != b.get_char(i) {
            return false;
        }
        i = i + 1;
    }
    assert(a@ =~= b@);
    true
}

/// Position `i` of `count` positions spread evenly over `ecc_len` bytes.
pub fn spread_position(ecc_len: usize, count: usize, i: usize) -> (p: usize)
    requires
        2 <= count < ecc_len,
        i < count,
    ensures
        p == spread(ecc_len as int, count as int, i as int),
{
    let (span, denom) = ((ecc_len - 1) as u64, (count - 1) as u64);
    assert(0 <= i * span <= 0xffff_ffff_ffff_ffff * 0xffff_ffff_ffff_ffff) by (nonlinear_arith)
        requires
            0 <= i <= 0xffff_ffff_ffff_ffff,
            0 <= span <= 0xffff_ffff_ffff_ffff,
    ;
    let product: u128 = i as u128 * span as u128;
    if product < 0x10_0000_0000_0000 {
        let r: u128 = double::round_half_even(product, denom as u128);
        proof {
            double::theorem_scaled_exact(i as nat, span as nat, denom as nat);
            double::lemma_half_even(product as nat, denom as nat);
            assert(r <= span) by (nonlinear_arith)
                requires
                    2 * (r * denom) <= 2 * (i * span) + denom,
                    i <= denom,
                    denom > 0,
            ;
        }
        r as usize
    } else {
        double::scale_position(i as u64, span, denom)
    }
}

/// The numbers that a vector of positions holds.
pub open spec fn as_ints(v: Seq<usize>) -> Seq<int> {
    Seq::new(v.len(), |i: int| v[i] as int)
}

/// Positions stay what they are, one by one.
pub proof fn theorem_as_ints(v: Seq<usize>, i: int)
    ensures
        as_ints(v).len() == v.len(),
        0 <= i < v.len() ==> as_ints(v)[i] == v[i],
{
}

/// ECC byte positions that the audio channel covers. The distributed layout
/// spreads `audio_byte_count` positions evenly over the whole stream, from its
/// first to its last byte; any other covers the first ones.
pub fn compute_audio_positions(
    ecc_len: usize,
    audio_byte_count: usize,
    layout: Option<&str>,
) -> (out: Vec<usize>)
    ensures
        as_ints(out@) == positions(
            ecc_len as int,
            audio_byte_count as int,
            is_distributed(layout),
        ),
{
    let mut out: Vec<usize> = Vec::new();
    let ghost distributed = is_distributed(layout);
    let ghost want = positions(ecc_len as int, audio_byte_count as int, distributed);
    proof {
        lemma_positions_shape(ecc_len as int, audio_byte_count as int, distributed);
    }
    if ecc_len == 0 || audio_byte_count == 0 {
        assert(as_ints(out@) =~= want);
        return out;
    }
    let count: usize = if audio_byte_count <= ecc_len {
        audio_byte_count
    } else {
        ecc_len
    };
    let spread_out: bool = match layout {
        Some(l) => same_text(l, AUDIO_LAYOUT_DISTRIBUTED),
        None => false,
    };
    if spread_out && count < ecc_len && count == 1 {
        out.push(ecc_len / 2);
        assert(as_ints(out@) =~= want);
        return out;
    }
    let evenly: bool = spread_out && count < ecc_len;
    let mut i: usize = 0;
    while i < count
        invariant
            0 <= i <= count,
            0 < count,
            count == covered(ecc_len as int, audio_byte_count as int),
            distributed == is_distributed(layout),
            spread_out == distributed,
            evenly == (spread_out && count < ecc_len),
            evenly ==> count >= 2,
            want == positions(ecc_len as int, audio_byte_count as int, distributed),
            want.len() == count,
            ecc_len > 0,
            audio_byte_count > 0,
            as_ints(out@) == want.take(i as int),
        decreases count - i,
    {
        let ghost before = out@;
        if evenly {
            out.push(spread_position(ecc_len, count, i));
        } else {
            out.push(i);
        }
        assert(as_ints(out@) =~= as_ints(before).push(want[i as int]));
        assert(want.take(i + 1) =~= want.take(i as int).push(want[i as int]));
        i = i + 1;
    }
    assert(want.take(i as int) =~= want);
    out
}

/// The bytes of `s` at the given positions.
pub open spec fn picked(s: Seq<u8>, at: Seq<int>) -> Seq<u8> {
    Seq::new(at.len(), |i: int| s[at[i]])
}

/// The ECC bytes that ride on the audio channel.
pub fn select_audio_bytes(ecc_data: &[u8], audio_byte_count: usize, layout: Option<&str>) -> (out:
    Vec<u8>)
    requires
        in_stream(ecc_data@.len() as int, audio_byte_count as int, is_distributed(layout)),
    ensures
        out@ == picked(
            ecc_data@,
            positions(ecc_data@.len() as int, audio_byte_count as int, is_distributed(layout)),
        ),
{
    let at: Vec<usize> = compute_audio_positions(ecc_data.len(), audio_byte_count, layout);
    let ghost want = positions(
        ecc_data@.len() as int,
        audio_byte_count as int,
        is_distributed(layout),
    );
    proof {
        assert(ecc_data.len() <= usize::MAX);
        lemma_positions_shape(
            ecc_data@.len() as int,
            audio_byte_count as int,
            is_distributed(layout),
        );
    }
    let mut out: Vec<u8> = Vec::new();
    let mut i: usize = 0;
    while i < at.len()
        invariant
            0 <= i <= at@.len(),
            as_ints(at@) == want,
            forall|j: int| 0 <= j < want.len() ==> 0 <= #[trigger] want[j] < ecc_data@.len(),
            out@ == picked(ecc_data@, want).take(i as int),
        decreases at@.len() - i,
    {
        assert(want[i as int] == at@[i as int]);
        out.push(ecc_data[at[i]]);
        i = i + 1;
        assert(out@ =~= picked(ecc_data@, want).take(i as int));
    }
    assert(out@ =~= picked(ecc_data@, want));
    out
}

/// `s` with the bytes of `over` at the given positions, as many as there are of
/// both.
pub open spec fn overlaid(s: Seq<u8>, over: Seq<u8>, at: Seq<int>, n: nat) -> Seq<u8>
    decreases n,
{
    if n == 0 {
        s
    } else {
        overlaid(s, over, at, (n - 1) as nat).update(at[n - 1], over[n - 1])
    }
}

/// How many recovered audio bytes have a place.
pub open spec fn placed(audio: Seq<u8>, at: Seq<int>) -> nat {
    if audio.len() <= at.len() {
        audio.len()
    } else {
        at.len()
    }
}

/// Lays recovered audio bytes over the video's ECC stream, at their planned
/// positions, and says which positions were written.
pub fn merge_audio_bytes(
    ecc_video: &[u8],
    audio_bytes: &[u8],
    expected_audio_bytes: usize,
    layout: Option<&str>,
) -> (r: (Vec<u8>, Vec<usize>))
    requires
        in_stream(ecc_video@.len() as int, expected_audio_bytes as int, is_distributed(layout)),
    ensures
        ({
            let at = positions(
                ecc_video@.len() as int,
                expected_audio_bytes as int,
                is_distributed(layout),
            );
            let n = placed(audio_bytes@, at);
            r.0@ == overlaid(ecc_video@, audio_bytes@, at, n) && as_ints(r.1@) == at.take(n as int)
        }),
{
    let ghost at = positions(
        ecc_video@.len() as int,
        expected_audio_bytes as int,
        is_distributed(layout),
    );
    let ghost n = placed(audio_bytes@, at);
    proof {
        assert(ecc_video.len() <= usize::MAX);
        lemma_positions_shape(
            ecc_video@.len() as int,
            expected_audio_bytes as int,
            is_distributed(layout),
        );
    }
    let mut merged: Vec<u8> = Vec::new();
    merged.extend_from_slice(ecc_video);
    assert(merged@ =~= ecc_video@);
    let mut recovered: Vec<usize> = Vec::new();
    if audio_bytes.len() == 0 || ecc_video.len() == 0 {
        assert(as_ints(recovered@) =~= at.take(n as int));
        return (merged, recovered);
    }
    let planned: Vec<usize> = compute_audio_positions(
        ecc_video.len(),
        expected_audio_bytes,
        layout,
    );
    let take: usize = if audio_bytes.len() <= planned.len() {
        audio_bytes.len()
    } else {
        planned.len()
    };
    let mut i: usize = 0;
    assert(as_ints(recovered@) =~= at.take(0));
    while i < take
        invariant
            0 <= i <= take,
            take <= audio_bytes@.len(),
            take <= planned@.len(),
            as_ints(planned@) == at,
            forall|j: int| 0 <= j < at.len() ==> 0 <= #[trigger] at[j] < merged@.len(),
            merged@ == overlaid(ecc_video@, audio_bytes@, at, i as nat),
            as_ints(recovered@) == at.take(i as int),
        decreases take - i,
    {
        assert(at[i as int] == planned@[i as int]);
        let pos: usize = planned[i];
        merged.set(pos, audio_bytes[i]);
        let ghost before = recovered@;
        recovered.push(pos);
        assert(as_ints(recovered@) =~= as_ints(before).push(at[i as int]));
        assert(at.take(i + 1) =~= at.take(i as int).push(at[i as int]));
        i = i + 1;
    }
    (merged, recovered)
}

/// Each recovered byte stands at its place, and every other byte is the video's.
pub proof fn theorem_overlaid(s: Seq<u8>, over: Seq<u8>, at: Seq<int>, n: nat)
    requires
        n <= at.len(),
        n <= over.len(),
        forall|i: int| 0 <= i < at.len() ==> 0 <= #[trigger] at[i] < s.len(),
        forall|i: int, j: int| 0 <= i < j < at.len() ==> #[trigger] at[i] < #[trigger] at[j],
    ensures
        overlaid(s, over, at, n).len() == s.len(),
        forall|i: int| 0 <= i < n ==> overlaid(s, over, at, n)[#[trigger] at[i]] == over[i],
        forall|p: int|
            0 <= p < s.len() && !at.take(n as int).contains(p) ==> #[trigger] overlaid(
                s,
                over,
                at,
                n,
            )[p] == s[p],
    decreases n,
{
    if n > 0 {
        let m = (n - 1) as nat;
        theorem_overlaid(s, over, at, m);
        assert forall|p: int|
            0 <= p < s.len() && !at.take(n as int).contains(p) implies #[trigger] overlaid(
            s,
            over,
            at,
            n,
        )[p] == s[p] by {
            assert(at.take(n as int)[m as int] == at[m as int]);
            if at.take(m as int).contains(p) {
                let w = choose|w: int| 0 <= w < m && at.take(m as int)[w] == p;
                assert(at.take(n as int)[w] == p);
            }
        }
    }
}

/// The bytes that ride are those at the positions, in order, and laying one more over
/// changes the byte at its place and no other.
pub proof fn theorem_picked_and_laid(s: Seq<u8>, over: Seq<u8>, at: Seq<int>, n: nat)
    requires
        n < at.len(),
        n < over.len(),
    ensures
        picked(s, at).len() == at.len(),
        picked(s, at)[n as int] == s[at[n as int]],
        overlaid(s, over, at, 0) == s,
        overlaid(s, over, at, n + 1) == overlaid(s, over, at, n).update(
            at[n as int],
            over[n as int],
        ),
        placed(over, at) == (if over.len() <= at.len() {
            over.len()
        } else {
            at.len()
        }),
{
}

/// Bytes laid over themselves change nothing.
proof fn lemma_overlaid_same(s: Seq<u8>, at: Seq<int>, n: nat)
    requires
        n <= at.len(),
        forall|i: int| 0 <= i < at.len() ==> 0 <= #[trigger] at[i] < s.len(),
    ensures
        overlaid(s, picked(s, at), at, n) == s,
    decreases n,
{
    if n > 0 {
        lemma_overlaid_same(s, at, (n - 1) as nat);
        assert(0 <= at[n - 1] < s.len());
        assert(s.update(at[n - 1], s[at[n - 1]]) =~= s);
    }
}

/// Laid over the stream that they were selected from, the selected bytes change
/// nothing.
pub proof fn theorem_select_merge(ecc: Seq<u8>, count: int, distributed: bool)
    requires
        0 <= count,
        ecc.len() <= usize::MAX,
        in_stream(ecc.len() as int, count, distributed),
    ensures
        ({
            let at = positions(ecc.len() as int, count, distributed);
            overlaid(ecc, picked(ecc, at), at, placed(picked(ecc, at), at)) == ecc
        }),
{
    let at = positions(ecc.len() as int, count, distributed);
    lemma_positions_shape(ecc.len() as int, count, distributed);
    lemma_overlaid_same(ecc, at, at.len());
}

// ---------------------------------------------------------------------------
// Symbols
// ---------------------------------------------------------------------------

/// The 2-bit symbols of a byte string, most significant bits first.
pub open spec fn symbols(data: Seq<u8>) -> Seq<u8> {
    Seq::new(
        data.len() * 4,
        |p: int|
            (bits::unpacked(data)[2 * p] * 2 + bits::unpacked(data)[2 * p + 1]) as u8,
    )
}

/// The bits of symbols.
pub open spec fn symbol_bits(s: Seq<u8>) -> Seq<u8> {
    Seq::new(
        s.len() * 2,
        |i: int|
            if i % 2 == 0 {
                (s[i / 2] / 2 % 2) as u8
            } else {
                (s[i / 2] % 2) as u8
            },
    )
}

/// Bytes as 2-bit symbols, at most `max_symbols` of them.
pub fn bytes_to_symbols(data: &[u8], max_symbols: usize) -> (out: Vec<u8>)
    ensures
        out@ == (if symbols(data@).len() <= max_symbols {
            symbols(data@)
        } else {
            symbols(data@).take(max_symbols as int)
        }),
{
    let mut all: Vec<u8> = Vec::new();
    bits::unpack_bits_into(&mut all, data);
    assert(all@ =~= bits::unpacked(data@));
    proof {
        bits::lemma_unpacked_are_bits(data@);
    }
    let pairs: usize = all.len() / 2;
    let n: usize = if pairs <= max_symbols {
        pairs
    } else {
        max_symbols
    };
    let mut out: Vec<u8> = Vec::new();
    let mut p: usize = 0;
    while p < n
        invariant
            0 <= p <= n,
            n <= pairs,
            pairs == all@.len() / 2,
            all@ == bits::unpacked(data@),
            forall|i: int| 0 <= i < all@.len() ==> #[trigger] all@[i] <= 1,
            out@ == symbols(data@).take(p as int),
        decreases n - p,
    {
        assert(2 * p + 1 < all.len());
        assert(all@[2 * p] <= 1 && all@[2 * p + 1] <= 1);
        out.push(all[2 * p] * 2 + all[2 * p + 1]);
        p = p + 1;
        assert(out@ =~= symbols(data@).take(p as int));
    }
    assert(out@ =~= symbols(data@).take(n as int));
    assert(symbols(data@).take(symbols(data@).len() as int) =~= symbols(data@));
    out
}

/// The bytes that 2-bit symbols spell; symbols that do not fill a byte are
/// dropped.
pub fn symbols_to_bytes(s: &[u8]) -> (out: Vec<u8>)
    ensures
        out@ == bits::packed(symbol_bits(s@)),
{
    let mut all: Vec<u8> = Vec::new();
    let mut p: usize = 0;
    while p < s.len()
        invariant
            0 <= p <= s@.len(),
            all@ == symbol_bits(s@).take(2 * p),
        decreases s@.len() - p,
    {
        all.push(s[p] / 2 % 2);
        all.push(s[p] % 2);
        p = p + 1;
        assert(all@ =~= symbol_bits(s@).take(2 * p));
    }
    assert(all@ =~= symbol_bits(s@));
    bits::pack_bits(&all)
}

/// A byte is its four symbols, the first worth 64 and the last 1; a symbol is two
/// bits.
#[verifier::spinoff_prover]
pub proof fn theorem_symbols_add_up(data: Seq<u8>, j: int)
    requires
        0 <= j < data.len(),
    ensures
        symbols(data).len() == 4 * data.len(),
        forall|k: int| 0 <= k < 4 ==> #[trigger] symbols(data)[4 * j + k] <= 3,
        data[j] == 64 * symbols(data)[4 * j] + 16 * symbols(data)[4 * j + 1] + 4 * symbols(
            data,
        )[4 * j + 2] + symbols(data)[4 * j + 3],
{
    let u = bits::unpacked(data);
    let s = symbols(data);
    bits::theorem_bits_add_up(data, j);
    bits::lemma_unpacked_are_bits(data);
    assert forall|k: int| 0 <= k < 4 implies #[trigger] s[4 * j + k] == 2 * u[8 * j + 2 * k] + u[8
        * j + 2 * k + 1] by {
        assert(u[8 * j + 2 * k] <= 1 && u[8 * j + 2 * k + 1] <= 1);
    }
    assert(s[4 * j + 0] == 2 * u[8 * j + 0] + u[8 * j + 1]);
    assert(u[8 * j] <= 1 && u[8 * j + 1] <= 1 && u[8 * j + 2] <= 1 && u[8 * j + 3] <= 1);
    assert(u[8 * j + 4] <= 1 && u[8 * j + 5] <= 1 && u[8 * j + 6] <= 1 && u[8 * j + 7] <= 1);
}

/// Four symbols, of which only the two low bits count, make a byte, the first worth 64
/// and the last 1; symbols that do not fill a byte are dropped.
#[verifier::spinoff_prover]
pub proof fn theorem_symbols_spell(s: Seq<u8>, j: int)
    requires
        0 <= j,
        4 * j + 4 <= s.len(),
    ensures
        bits::packed(symbol_bits(s)).len() == s.len() / 4,
        bits::packed(symbol_bits(s))[j] == 64 * (s[4 * j] % 4) + 16 * (s[4 * j + 1] % 4) + 4 * (s[4
            * j + 2] % 4) + s[4 * j + 3] % 4,
{
    let t = symbol_bits(s);
    bits::theorem_packed_adds_up(t, j);
    lemma_symbol_bits(s, 4 * j);
    lemma_symbol_bits(s, 4 * j + 1);
    lemma_symbol_bits(s, 4 * j + 2);
    lemma_symbol_bits(s, 4 * j + 3);
}

/// A symbol is twice its first bit and its second.
proof fn lemma_symbol_bits(s: Seq<u8>, i: int)
    requires
        0 <= i < s.len(),
    ensures
        symbol_bits(s)[2 * i] % 2 == symbol_bits(s)[2 * i],
        symbol_bits(s)[2 * i + 1] % 2 == symbol_bits(s)[2 * i + 1],
        2 * symbol_bits(s)[2 * i] + symbol_bits(s)[2 * i + 1] == s[i] % 4,
{
    assert((2 * i) / 2 == i && (2 * i) % 2 == 0);
    assert((2 * i + 1) / 2 == i && (2 * i + 1) % 2 == 1);
    let v = s[i];
    assert(2 * (v / 2 % 2) + v % 2 == v % 4);
}

/// Symbols spell the bytes that they were made from.
pub proof fn theorem_symbols_round_trip(data: Seq<u8>)
    ensures
        bits::packed(symbol_bits(symbols(data))) == data,
{
    bits::lemma_unpacked_are_bits(data);
    let u = bits::unpacked(data);
    assert forall|i: int| 0 <= i < u.len() implies symbol_bits(symbols(data))[i] == u[i] by {
        let p = i / 2;
        assert(u[2 * p] <= 1 && u[2 * p + 1] <= 1);
    }
    assert(symbol_bits(symbols(data)) =~= u);
    bits::theorem_packed_unpacked(data);
}

} // verus!
