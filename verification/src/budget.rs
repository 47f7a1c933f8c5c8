//! Memory budget: a size in bytes, written by hand or derived from the memory of
//! the machine, and the number of Reed-Solomon blocks that it holds.

use vstd::arithmetic::power;
use vstd::arithmetic::power2;
use vstd::prelude::*;

use crate::bignum;
use crate::binary;
use crate::constants::RS_BLOCK_SIZE;
use crate::double;

verus! {

/// Floor of the derived budget.
pub const MIN_DEFAULT_BUDGET_BYTES: u64 = 67_108_864;

/// Why a text is no size.
#[derive(Debug, Clone, Copy, PartialEq, Eq)]
pub enum SizeError {
    /// Nothing but white space.
    Empty,
    /// Not a number.
    Invalid,
    /// Zero, negative, or too large for a number.
    NotPositive,
}

// ---------------------------------------------------------------------------
// What a text says
// ---------------------------------------------------------------------------

/// White space, as Unicode has it.
pub open spec fn is_space(c: char) -> bool {
    let u = c as u32;
    ||| 0x9 <= u <= 0xd
    ||| u == 0x20
    ||| u == 0x85
    ||| u == 0xa0
    ||| u == 0x1680
    ||| 0x2000 <= u <= 0x200a
    ||| u == 0x2028
    ||| u == 0x2029
    ||| u == 0x202f
    ||| u == 0x205f
    ||| u == 0x3000
}

/// The text without white space in front.
pub open spec fn trimmed_front(s: Seq<char>) -> Seq<char>
    decreases s.len(),
{
    if s.len() > 0 && is_space(s[0]) {
        trimmed_front(s.skip(1))
    } else {
        s
    }
}

/// The text without white space behind.
pub open spec fn trimmed_back(s: Seq<char>) -> Seq<char>
    decreases s.len(),
{
    if s.len() > 0 && is_space(s.last()) {
        trimmed_back(s.drop_last())
    } else {
        s
    }
}

/// The text without white space around it.
pub open spec fn trimmed(s: Seq<char>) -> Seq<char> {
    trimmed_back(trimmed_front(s))
}

/// The binary exponent of a unit, for the letters that name one.
pub open spec fn unit(c: char) -> Option<nat> {
    if c == 'k' || c == 'K' {
        Some(10)
    } else if c == 'm' || c == 'M' {
        Some(20)
    } else if c == 'g' || c == 'G' {
        Some(30)
    } else {
        None
    }
}

/// The number in front of the unit.
pub open spec fn amount(s: Seq<char>) -> Seq<char> {
    if s.len() > 0 && unit(s.last()) is Some {
        trimmed(s.drop_last())
    } else {
        trimmed(s)
    }
}

/// The binary exponent of the unit behind a number.
pub open spec fn scale(s: Seq<char>) -> nat {
    if s.len() > 0 {
        match unit(s.last()) {
            Some(k) => k,
            None => 0,
        }
    } else {
        0
    }
}

/// A decimal digit.
pub open spec fn is_digit(c: char) -> bool {
    '0' <= c <= '9'
}

/// The text is made of decimal digits.
pub open spec fn all_digits(s: Seq<char>) -> bool {
    forall|i: int| 0 <= i < s.len() ==> is_digit(#[trigger] s[i])
}

/// The number that decimal digits spell.
pub open spec fn digits_value(s: Seq<char>) -> nat
    decreases s.len(),
{
    if s.len() == 0 {
        0
    } else {
        10 * digits_value(s.drop_last()) + (s.last() as int - '0' as int) as nat
    }
}

/// Where the first of two characters stands, or the length of the text.
pub open spec fn find(s: Seq<char>, a: char, b: char) -> int
    decreases s.len(),
{
    if s.len() == 0 || s[0] == a || s[0] == b {
        0
    } else {
        1 + find(s.skip(1), a, b)
    }
}

/// A number as written in decimal: `mantissa * 10^exponent`, or a word for
/// something that is no finite number.
pub ghost enum Number {
    Finite { negative: bool, mantissa: nat, exponent: int },
    NonFinite,
}

/// The text without a sign in front.
pub open spec fn unsigned(s: Seq<char>) -> Seq<char> {
    if s.len() > 0 && (s[0] == '+' || s[0] == '-') {
        s.skip(1)
    } else {
        s
    }
}

/// There is a minus sign in front.
pub open spec fn is_negative(s: Seq<char>) -> bool {
    s.len() > 0 && s[0] == '-'
}

/// The character, as a small letter of the Latin alphabet where it is one.
pub open spec fn small(c: char) -> char {
    if 'A' <= c <= 'Z' {
        (c as u32 + 32) as char
    } else {
        c
    }
}

/// The text is the given word, in letters of either case.
pub open spec fn is_word(s: Seq<char>, word: Seq<char>) -> bool {
    s.len() == word.len() && forall|i: int| 0 <= i < s.len() ==> small(#[trigger] s[i]) == word[i]
}

/// The words for infinity and for what is no number.
pub open spec fn is_special(s: Seq<char>) -> bool {
    ||| is_word(s, seq!['i', 'n', 'f'])
    ||| is_word(s, seq!['i', 'n', 'f', 'i', 'n', 'i', 't', 'y'])
    ||| is_word(s, seq!['n', 'a', 'n'])
}

/// The digits in front of the point.
pub open spec fn whole_part(s: Seq<char>) -> Seq<char> {
    s.take(find(s, '.', '.'))
}

/// The digits behind the point.
pub open spec fn fraction_part(s: Seq<char>) -> Seq<char> {
    if find(s, '.', '.') < s.len() {
        s.skip(find(s, '.', '.') + 1)
    } else {
        Seq::empty()
    }
}

/// Digits, at least one, with at most one point among them.
pub open spec fn is_decimal(s: Seq<char>) -> bool {
    &&& all_digits(whole_part(s))
    &&& all_digits(fraction_part(s))
    &&& whole_part(s).len() + fraction_part(s).len() > 0
}

/// Digits, at least one, with or without a sign.
pub open spec fn is_exponent(s: Seq<char>) -> bool {
    unsigned(s).len() > 0 && all_digits(unsigned(s))
}

/// The value of an exponent.
pub open spec fn exponent_value(s: Seq<char>) -> int {
    if is_negative(s) {
        -digits_value(unsigned(s))
    } else {
        digits_value(unsigned(s)) as int
    }
}

/// What stands in front of the letter that begins an exponent.
pub open spec fn significand(s: Seq<char>) -> Seq<char> {
    s.take(find(s, 'e', 'E'))
}

/// The number that a text spells: an optional sign; digits with at most one
/// point; an optional exponent behind the letter `e`. Or a word.
pub open spec fn number(text: Seq<char>) -> Option<Number> {
    let s = unsigned(text);
    let at = find(s, 'e', 'E');
    let front = significand(s);
    let back = s.skip(at + 1);
    if is_special(s) {
        Some(Number::NonFinite)
    } else if !is_decimal(front) || (at < s.len() && !is_exponent(back)) {
        None
    } else {
        Some(
            Number::Finite {
                negative: is_negative(text),
                mantissa: digits_value(whole_part(front) + fraction_part(front)),
                exponent: (if at < s.len() {
                    exponent_value(back)
                } else {
                    0
                }) - fraction_part(front).len(),
            },
        )
    }
}

// ---------------------------------------------------------------------------
// The size
// ---------------------------------------------------------------------------

/// Numerator of `mantissa * 10^exponent`.
pub open spec fn decimal_num(mantissa: nat, exponent: int) -> nat {
    if exponent >= 0 {
        mantissa * power::pow(10, exponent as nat) as nat
    } else {
        mantissa
    }
}

/// Denominator of `mantissa * 10^exponent`.
pub open spec fn decimal_den(exponent: int) -> nat {
    if exponent >= 0 {
        1
    } else {
        power::pow(10, (-exponent) as nat) as nat
    }
}

/// The integer part of `m * 2^e`.
pub open spec fn integer_part(m: nat, e: int) -> nat {
    if e >= 0 {
        m * power2::pow2(e as nat)
    } else {
        m / power2::pow2((-e) as nat)
    }
}

/// The size that the floating point number `m * 2^e`, in units of `2^scale`
/// bytes, comes to: the whole bytes, at most `u64::MAX`. Zero is no size, nor is
/// a number beyond the greatest finite one.
pub open spec fn size_of(m: nat, e: int, scale: nat) -> Result<u64, SizeError> {
    if m == 0 || e > binary::MAX_EXPONENT || e == binary::MAX_EXPONENT && m
        >= 0x20_0000_0000_0000 {
        Err(SizeError::NotPositive)
    } else {
        Ok(saturated(integer_part(m, e + scale)))
    }
}

/// A number, at most `u64::MAX`.
pub open spec fn saturated(n: nat) -> u64 {
    if n > u64::MAX {
        u64::MAX
    } else {
        n as u64
    }
}

/// A quarter of `total`, taken as the nearest floating point number, in whole
/// bytes.
pub open spec fn quarter_of(total: nat) -> u64 {
    let (m, e) = binary::rounded(total, 1);
    saturated(integer_part(m, e - 2))
}

/// The size that `mantissa * 10^exponent`, taken as the nearest floating point
/// number and in units of `2^scale` bytes, comes to.
pub open spec fn decimal_size(mantissa: nat, exponent: int, scale: nat) -> Result<u64, SizeError> {
    let (m, e) = binary::rounded(decimal_num(mantissa, exponent), decimal_den(exponent));
    size_of(m, e, scale)
}

/// The size that a number, if there is one, in units of `2^scale` bytes comes
/// to.
pub open spec fn number_size(n: Option<Number>, scale: nat) -> Result<u64, SizeError> {
    match n {
        None => Err(SizeError::Invalid),
        Some(Number::NonFinite) => Err(SizeError::NotPositive),
        Some(Number::Finite { negative, mantissa, exponent }) => if negative || mantissa == 0 {
            Err(SizeError::NotPositive)
        } else {
            decimal_size(mantissa, exponent, scale)
        },
    }
}

/// The size that a text says.
pub open spec fn size_said(s: Seq<char>) -> Result<u64, SizeError> {
    let text = trimmed(s);
    if text.len() == 0 {
        Err(SizeError::Empty)
    } else {
        number_size(number(amount(text)), scale(text))
    }
}

// ---------------------------------------------------------------------------
// What sizes mean
// ---------------------------------------------------------------------------

/// White space is what Unicode calls so, and nothing else.
pub proof fn theorem_spaces(c: char)
    ensures
        is_space(c) <==> (c == '\u{9}' || c == '\u{a}' || c == '\u{b}' || c == '\u{c}' || c
            == '\u{d}' || c == ' ' || c == '\u{85}' || c == '\u{a0}' || c == '\u{1680}' || (
        '\u{2000}' <= c <= '\u{200a}') || c == '\u{2028}' || c == '\u{2029}' || c == '\u{202f}' || c
            == '\u{205f}' || c == '\u{3000}'),
{
}

/// The text from `a` up to `b`, with nothing but white space around it.
pub open spec fn bare(s: Seq<char>, a: int, b: int) -> bool {
    &&& 0 <= a <= b <= s.len()
    &&& forall|i: int| 0 <= i < a ==> is_space(#[trigger] s[i])
    &&& forall|i: int| b <= i < s.len() ==> is_space(#[trigger] s[i])
    &&& a < b ==> !is_space(s[a]) && !is_space(s[b - 1])
}

/// White space in front goes.
proof fn lemma_trimmed_front(s: Seq<char>) -> (a: int)
    ensures
        0 <= a <= s.len(),
        trimmed_front(s) == s.skip(a),
        forall|i: int| 0 <= i < a ==> is_space(#[trigger] s[i]),
        a < s.len() ==> !is_space(s[a]),
    decreases s.len(),
{
    if s.len() > 0 && is_space(s[0]) {
        let rest = s.skip(1);
        let b = lemma_trimmed_front(rest);
        assert(rest.skip(b) =~= s.skip(b + 1));
        assert forall|i: int| 0 <= i < b + 1 implies is_space(#[trigger] s[i]) by {
            if i > 0 {
                assert(rest[i - 1] == s[i]);
            }
        }
        b + 1
    } else {
        assert(s.skip(0) =~= s);
        0
    }
}

/// White space behind goes.
proof fn lemma_trimmed_back(s: Seq<char>) -> (b: int)
    ensures
        0 <= b <= s.len(),
        trimmed_back(s) == s.take(b),
        forall|i: int| b <= i < s.len() ==> is_space(#[trigger] s[i]),
        0 < b ==> !is_space(s[b - 1]),
    decreases s.len(),
{
    if s.len() > 0 && is_space(s.last()) {
        let rest = s.drop_last();
        let b = lemma_trimmed_back(rest);
        assert(rest.take(b) =~= s.take(b));
        assert forall|i: int| b <= i < s.len() implies is_space(#[trigger] s[i]) by {
            if i < s.len() - 1 {
                assert(rest[i] == s[i]);
            }
        }
        b
    } else {
        assert(s.take(s.len() as int) =~= s);
        s.len() as int
    }
}

/// All white space around a text goes, however much there is, and nothing inside it.
pub proof fn theorem_trimmed(s: Seq<char>)
    ensures
        exists|a: int, b: int| #[trigger] bare(s, a, b) && trimmed(s) == s.subrange(a, b),
{
    let a = lemma_trimmed_front(s);
    let t = s.skip(a);
    let b = lemma_trimmed_back(t);
    assert(t.take(b) =~= s.subrange(a, a + b));
    assert forall|i: int| a + b <= i < s.len() implies is_space(#[trigger] s[i]) by {
        assert(t[i - a] == s[i]);
    }
    if 0 < b {
        assert(t[b - 1] == s[a + b - 1]);
    }
    assert(bare(s, a, a + b));
}

/// A text without white space around it stays as it is.
proof fn lemma_bare(s: Seq<char>)
    requires
        s.len() > 0,
        !is_space(s[0]),
        !is_space(s.last()),
    ensures
        trimmed(s) == s,
{
}

/// Which unit a size is in: 1024 bytes for a `k` at its end, `1024^2` for an `m` and
/// `1024^3` for a `g`, in either case, and single bytes otherwise. What stands before
/// the letter, white space aside, is the number; a text of white space alone is empty.
pub proof fn theorem_units(s: Seq<char>)
    ensures
        ({
            let t = trimmed(s);
            let c = t.last();
            let body = trimmed(t.drop_last());
            &&& t.len() == 0 ==> size_said(s) == Err::<u64, SizeError>(SizeError::Empty)
            &&& t.len() > 0 && (c == 'k' || c == 'K') ==> size_said(s) == number_size(
                number(body),
                10,
            )
            &&& t.len() > 0 && (c == 'm' || c == 'M') ==> size_said(s) == number_size(
                number(body),
                20,
            )
            &&& t.len() > 0 && (c == 'g' || c == 'G') ==> size_said(s) == number_size(
                number(body),
                30,
            )
            &&& t.len() > 0 && !(c == 'k' || c == 'K' || c == 'm' || c == 'M' || c == 'g' || c
                == 'G') ==> size_said(s) == number_size(number(t), 0)
        }),
{
    let t = trimmed(s);
    if t.len() > 0 {
        theorem_trimmed(s);
        let (a, b) = choose|a: int, b: int| #[trigger] bare(s, a, b) && trimmed(s) == s.subrange(a, b);
        assert(t[0] == s[a] && t.last() == s[b - 1]);
        lemma_bare(t);
    }
}

/// A letter of either case.
proof fn lemma_small(c: char)
    ensures
        small(c) == 'a' <==> c == 'a' || c == 'A',
        small(c) == 'f' <==> c == 'f' || c == 'F',
        small(c) == 'i' <==> c == 'i' || c == 'I',
        small(c) == 'n' <==> c == 'n' || c == 'N',
        small(c) == 't' <==> c == 't' || c == 'T',
        small(c) == 'y' <==> c == 'y' || c == 'Y',
{
}

/// The words that are read as numbers, though as none that is a size: `inf`, `infinity`
/// and `nan`, in letters of either case, with or without a sign.
pub proof fn theorem_words(s: Seq<char>)
    ensures
        number(s) == Some(Number::NonFinite) <==> is_special(unsigned(s)),
        is_special(s) <==> {
            ||| (s.len() == 3 && (s[0] == 'i' || s[0] == 'I') && (s[1] == 'n' || s[1] == 'N') && (
            s[2] == 'f' || s[2] == 'F'))
            ||| (s.len() == 3 && (s[0] == 'n' || s[0] == 'N') && (s[1] == 'a' || s[1] == 'A') && (
            s[2] == 'n' || s[2] == 'N'))
            ||| (s.len() == 8 && (s[0] == 'i' || s[0] == 'I') && (s[1] == 'n' || s[1] == 'N') && (
            s[2] == 'f' || s[2] == 'F') && (s[3] == 'i' || s[3] == 'I') && (s[4] == 'n' || s[4]
                == 'N') && (s[5] == 'i' || s[5] == 'I') && (s[6] == 't' || s[6] == 'T') && (s[7]
                == 'y' || s[7] == 'Y'))
        },
{
    let inf = seq!['i', 'n', 'f'];
    let nan = seq!['n', 'a', 'n'];
    let long = seq!['i', 'n', 'f', 'i', 'n', 'i', 't', 'y'];
    assert forall|c: char| true implies {
        &&& (#[trigger] small(c) == 'a' <==> c == 'a' || c == 'A')
        &&& (small(c) == 'f' <==> c == 'f' || c == 'F')
        &&& (small(c) == 'i' <==> c == 'i' || c == 'I')
        &&& (small(c) == 'n' <==> c == 'n' || c == 'N')
        &&& (small(c) == 't' <==> c == 't' || c == 'T')
        &&& (small(c) == 'y' <==> c == 'y' || c == 'Y')
    } by {
        lemma_small(c);
    }
    if s.len() == 3 {
        assert(is_word(s, inf) <==> small(s[0]) == 'i' && small(s[1]) == 'n' && small(s[2]) == 'f');
        assert(is_word(s, nan) <==> small(s[0]) == 'n' && small(s[1]) == 'a' && small(s[2]) == 'n');
    }
    if s.len() == 8 {
        assert(is_word(s, long) <==> small(s[0]) == 'i' && small(s[1]) == 'n' && small(s[2]) == 'f'
            && small(s[3]) == 'i' && small(s[4]) == 'n' && small(s[5]) == 'i' && small(s[6]) == 't'
            && small(s[7]) == 'y');
    }
}

/// What is refused: what is no number, infinity and the like, zero, and anything
/// negative.
pub proof fn theorem_number_size(n: Option<Number>, scale: nat)
    ensures
        n is None ==> number_size(n, scale) == Err::<u64, SizeError>(SizeError::Invalid),
        n == Some(Number::NonFinite) ==> number_size(n, scale) == Err::<u64, SizeError>(
            SizeError::NotPositive,
        ),
        n matches Some(Number::Finite { negative, mantissa, exponent }) ==> (if negative || mantissa
            == 0 {
            number_size(n, scale) == Err::<u64, SizeError>(SizeError::NotPositive)
        } else {
            number_size(n, scale) == decimal_size(mantissa, exponent, scale)
        }),
{
}

/// Decimal digits: one more at the end counts as many as it says, and what was there
/// ten times as much.
pub proof fn theorem_digits(s: Seq<char>, c: char)
    requires
        '0' <= c <= '9',
    ensures
        digits_value(Seq::empty()) == 0,
        digits_value(s.push(c)) == 10 * digits_value(s) + (c as int - '0' as int),
        is_digit(c),
        c == '0' ==> digits_value(s.push(c)) == 10 * digits_value(s),
        c == '9' ==> digits_value(s.push(c)) == 10 * digits_value(s) + 9,
{
    assert(s.push(c).drop_last() =~= s);
}

/// A character that does not occur is found behind the end.
proof fn lemma_find(s: Seq<char>, a: char, b: char, at: int)
    requires
        0 <= at <= s.len(),
        forall|i: int| 0 <= i < at ==> #[trigger] s[i] != a && s[i] != b,
        at < s.len() ==> s[at] == a || s[at] == b,
    ensures
        find(s, a, b) == at,
    decreases s.len(),
{
    if at > 0 {
        assert(s[0] != a && s[0] != b);
        let rest = s.skip(1);
        assert forall|i: int| 0 <= i < at - 1 implies #[trigger] rest[i] != a && rest[i] != b by {
            assert(rest[i] == s[i + 1]);
        }
        lemma_find(rest, a, b, at - 1);
    }
}

/// Digits, a point and digits are no word and have no sign.
proof fn lemma_plain(s: Seq<char>)
    requires
        s.len() > 0,
        is_digit(s[0]) || s[0] == '.',
    ensures
        !is_special(s),
        unsigned(s) == s,
        !is_negative(s),
{
    assert(small(s[0]) == s[0]);
}

/// How numbers are written: digits, with a point before any of them, and an exponent
/// behind the letter `e` or `E`, say the digits without the point, shifted by the digits
/// behind it and by the exponent. `w` are the digits before the point, `f` those behind
/// it and `x` those of the exponent.
pub proof fn theorem_numbers_written(w: Seq<char>, f: Seq<char>, x: Seq<char>, e: char)
    requires
        all_digits(w),
        all_digits(f),
        all_digits(x),
        x.len() > 0,
        w.len() + f.len() > 0,
        e == 'e' || e == 'E',
    ensures
        w.len() > 0 ==> number(w) == Some(
            Number::Finite { negative: false, mantissa: digits_value(w), exponent: 0 },
        ),
        number(w + seq!['.'] + f) == Some(
            Number::Finite {
                negative: false,
                mantissa: digits_value(w + f),
                exponent: -(f.len() as int),
            },
        ),
        number(w + seq!['.'] + f + seq![e] + x) == Some(
            Number::Finite {
                negative: false,
                mantissa: digits_value(w + f),
                exponent: digits_value(x) - f.len(),
            },
        ),
        number(w + seq!['.'] + f + seq![e, '-'] + x) == Some(
            Number::Finite {
                negative: false,
                mantissa: digits_value(w + f),
                exponent: -(digits_value(x) as int) - f.len(),
            },
        ),
{
    let none = Seq::<char>::empty();
    if w.len() > 0 {
        lemma_written(w, w, none, w, none, e);
        assert(w + none =~= w);
    }
    let t = w + seq!['.'] + f;
    lemma_point(w, f);
    lemma_written(t, w, f, t, none, e);
    let s = t + seq![e] + x;
    lemma_written(t, w, f, s, x, e);
    let y = seq!['-'] + x;
    let r = t + seq![e, '-'] + x;
    assert(r =~= t + seq![e] + y);
    lemma_written(t, w, f, r, y, e);
    assert(unsigned(y) =~= x && unsigned(x) == x);
    assert(is_digit(x[0]));
}

/// Where the point stands.
proof fn lemma_point(w: Seq<char>, f: Seq<char>)
    requires
        all_digits(w),
        all_digits(f),
    ensures
        ({
            let t = w + seq!['.'] + f;
            &&& whole_part(t) == w
            &&& fraction_part(t) == f
        }),
{
    let t = w + seq!['.'] + f;
    assert forall|i: int| 0 <= i < w.len() implies #[trigger] t[i] != '.' by {
        assert(t[i] == w[i]);
        assert(is_digit(w[i]));
    }
    lemma_find(t, '.', '.', w.len() as int);
    assert(t.take(w.len() as int) =~= w);
    assert(t.skip((w.len() + 1) as int) =~= f);
}

/// What a text `s` says whose part before any `e` is `t`, with the digits `w` and `f`,
/// and whose part behind the `e`, if there is one, is `y`.
proof fn lemma_written(
    t: Seq<char>,
    w: Seq<char>,
    f: Seq<char>,
    s: Seq<char>,
    y: Seq<char>,
    e: char,
)
    requires
        all_digits(w),
        all_digits(f),
        w.len() + f.len() > 0,
        e == 'e' || e == 'E',
        t == w + seq!['.'] + f || (t == w && f.len() == 0),
        y.len() == 0 ==> s == t,
        y.len() > 0 ==> s == t + seq![e] + y && is_exponent(y),
    ensures
        number(s) == Some(
            Number::Finite {
                negative: false,
                mantissa: digits_value(w + f),
                exponent: (if y.len() > 0 {
                    exponent_value(y)
                } else {
                    0
                }) - f.len(),
            },
        ),
{
    assert forall|i: int| 0 <= i < t.len() implies (is_digit(#[trigger] t[i]) || t[i] == '.') && s[i]
        == t[i] by {
        if i < w.len() {
            assert(t[i] == w[i]);
            assert(is_digit(w[i]));
        } else if i > w.len() {
            assert(t[i] == f[i - w.len() - 1]);
            assert(is_digit(f[i - w.len() - 1]));
        }
    }
    assert(t.len() > 0);
    assert(is_digit(t[0]) || t[0] == '.');
    lemma_plain(s);
    assert forall|i: int| 0 <= i < t.len() implies #[trigger] s[i] != 'e' && s[i] != 'E' by {
        assert(is_digit(t[i]) || t[i] == '.');
    }
    lemma_find(s, 'e', 'E', t.len() as int);
    assert(s.take(t.len() as int) =~= t);
    if y.len() > 0 {
        assert(s.skip((t.len() + 1) as int) =~= y);
    }
    if t == w + seq!['.'] + f {
        lemma_point(w, f);
    }
    if t != w + seq!['.'] + f {
        assert forall|i: int| 0 <= i < t.len() implies #[trigger] t[i] != '.' by {
            assert(is_digit(w[i]));
        }
        lemma_find(t, '.', '.', t.len() as int);
        assert(t.take(t.len() as int) =~= t);
        assert(f =~= Seq::<char>::empty());
    }
}

/// A sign in front of an unsigned number: plus changes nothing, minus makes it negative.
pub proof fn theorem_signs(s: Seq<char>)
    requires
        s.len() > 0,
        s[0] != '+',
        s[0] != '-',
    ensures
        number(seq!['+'] + s) == number(s),
        match number(s) {
            Some(Number::Finite { negative, mantissa, exponent }) => !negative && number(
                seq!['-'] + s,
            ) == Some(Number::Finite { negative: true, mantissa, exponent }),
            other => number(seq!['-'] + s) == other,
        },
{
    let (p, m) = (seq!['+'] + s, seq!['-'] + s);
    assert(p.skip(1) =~= s && m.skip(1) =~= s);
    assert(unsigned(p) == s && unsigned(m) == s && unsigned(s) == s);
}

/// What is no number: a text with any character other than digits, signs, a point and
/// the letter `e`, unless it is a word for infinity or for what is no number.
pub proof fn theorem_strange_characters(s: Seq<char>, i: int)
    requires
        0 <= i < s.len(),
        !('0' <= s[i] <= '9'),
        s[i] != '+' && s[i] != '-' && s[i] != '.' && s[i] != 'e' && s[i] != 'E',
        !is_special(unsigned(s)),
    ensures
        number(s) is None,
{
    let u = unsigned(s);
    let k = if u.len() < s.len() {
        i - 1
    } else {
        i
    };
    assert(0 <= k < u.len() && u[k] == s[i]);
    lemma_find_bounds(u, 'e', 'E');
    let at = find(u, 'e', 'E');
    if k < at {
        let front = significand(u);
        assert(front[k] == s[i]);
        lemma_find_bounds(front, '.', '.');
        let d = find(front, '.', '.');
        if k < d {
            assert(whole_part(front)[k] == s[i]);
        } else {
            assert(k != d);
            assert(fraction_part(front)[k - d - 1] == s[i]);
        }
    } else {
        assert(k != at);
        let back = u.skip(at + 1);
        assert(back[k - at - 1] == s[i]);
        let b = unsigned(back);
        if b.len() < back.len() {
            assert(k - at - 1 > 0);
            assert(b[k - at - 2] == s[i]);
        } else {
            assert(b[k - at - 1] == s[i]);
        }
    }
}

/// What is found is there, or nothing was.
proof fn lemma_find_bounds(s: Seq<char>, a: char, b: char)
    ensures
        0 <= find(s, a, b) <= s.len(),
        find(s, a, b) < s.len() ==> s[find(s, a, b)] == a || s[find(s, a, b)] == b,
    decreases s.len(),
{
    if s.len() > 0 && s[0] != a && s[0] != b {
        lemma_find_bounds(s.skip(1), a, b);
    }
}

/// A size as one writes it: digits that spell `n`, below `2^53`, are `n` bytes, and with
/// a unit's letter behind them `n` of the units, as far as 64 bits go.
pub proof fn theorem_sizes_written(d: Seq<char>, c: char)
    requires
        all_digits(d),
        0 < digits_value(d) < 0x20_0000_0000_0000,
    ensures
        ({
            let n = digits_value(d);
            &&& size_said(d) == Ok::<u64, SizeError>(n as u64)
            &&& c == 'k' || c == 'K' ==> size_said(d.push(c)) == Ok::<u64, SizeError>(
                (n * 1024) as u64,
            )
            &&& c == 'm' || c == 'M' ==> size_said(d.push(c)) == Ok::<u64, SizeError>(
                if n * 1048576 <= u64::MAX {
                    (n * 1048576) as u64
                } else {
                    u64::MAX
                },
            )
            &&& c == 'g' || c == 'G' ==> size_said(d.push(c)) == Ok::<u64, SizeError>(
                if n * 1073741824 <= u64::MAX {
                    (n * 1073741824) as u64
                } else {
                    u64::MAX
                },
            )
        }),
{
    let n = digits_value(d);
    assert(d.len() > 0);
    assert(is_digit(d[0]) && is_digit(d.last())) by {
        assert(is_digit(d[d.len() - 1]));
    }
    lemma_bare(d);
    theorem_numbers_written(d, Seq::empty(), seq!['1'], 'e');
    theorem_whole_sizes(n, 0);
    theorem_whole_sizes(n, 10);
    theorem_whole_sizes(n, 20);
    theorem_whole_sizes(n, 30);
    power2::lemma2_to64();
    assert(n * power2::pow2(0) == n && n * power2::pow2(10) == n * 1024 && n * power2::pow2(20) == n
        * 1048576 && n * power2::pow2(30) == n * 1073741824) by (nonlinear_arith)
        requires
            power2::pow2(0) == 1,
            power2::pow2(10) == 1024,
            power2::pow2(20) == 1048576,
            power2::pow2(30) == 1073741824,
    ;
    theorem_units(d);
    let t = d.push(c);
    if unit(c) is Some {
        assert(t[0] == d[0] && t.last() == c);
        lemma_bare(t);
        assert(t.drop_last() =~= d);
        theorem_units(t);
    }
}

/// A fraction of a unit: what `mantissa * 10^exponent` units of `2^scale` bytes come to,
/// unless it is more than 64 bits hold, is the exact number of bytes, rounded down, but
/// for one part in `2^53`.
pub proof fn theorem_size_close(mantissa: nat, exponent: int, scale: nat)
    requires
        mantissa > 0,
        -19 <= exponent,
    ensures
        ({
            let num = if exponent >= 0 {
                mantissa * power::pow(10, exponent as nat)
            } else {
                mantissa as int
            };
            let den = if exponent >= 0 {
                1
            } else {
                power::pow(10, (-exponent) as nat)
            };
            let unit = power2::pow2(scale) as int;
            decimal_size(mantissa, exponent, scale) matches Ok(v) ==> {
                &&& v * den * 0x20_0000_0000_0000 <= num * unit * 0x20_0000_0000_0001
                &&& v < u64::MAX ==> (v + 1) * den * 0x20_0000_0000_0000 > num * unit
                    * 0x1f_ffff_ffff_ffff
            }
        }),
{
    let num = decimal_num(mantissa, exponent);
    let den = decimal_den(exponent);
    power::lemma_pow_positive(
        10,
        (if exponent >= 0 {
            exponent
        } else {
            -exponent
        }) as nat,
    );
    assert(num >= 1) by {
        if exponent >= 0 {
            let p = power::pow(10, exponent as nat);
            assert(mantissa * (p as nat) >= 1) by (nonlinear_arith)
                requires
                    mantissa >= 1,
                    p >= 1,
            ;
        }
    }
    assert(0 < den <= 0x1_0000_0000_0000_0000) by {
        if exponent < 0 {
            lemma_pow10_19((-exponent) as nat);
        }
    }
    binary::lemma_nearest_exists(num, den);
    let f = binary::rounded(num, den);
    double::lemma_not_smallest(num, den, f);
    double::lemma_rounding_close(num, den, f);
    let (m, e) = f;
    let (a, b) = (double::over_num(f), double::over_den(f));
    if decimal_size(mantissa, exponent, scale) is Ok {
        let full = integer_part(m, e + scale);
        lemma_scaled_part(f, scale);
        let u = power2::pow2(scale);
        let v = decimal_size(mantissa, exponent, scale)->Ok_0 as nat;
        let ed: int = 0x20_0000_0000_0000;
        assert(v * b <= a * u) by (nonlinear_arith)
            requires
                v <= full,
                full * b <= a * u,
                b >= 0,
        ;
        let (x, y) = (a * den, num * b);
        assert(v * den * ed * b <= num * u * (ed + 1) * b) by {
            assert(v * b * den <= a * u * den) by (nonlinear_arith)
                requires
                    v * b <= a * u,
                    den >= 0,
            ;
            assert(a * u * den == x * u) by (nonlinear_arith)
                requires
                    x == a * den,
            ;
            assert(x * u * ed <= y * (ed + 1) * u) by (nonlinear_arith)
                requires
                    x * ed <= y * (ed + 1),
                    u >= 0,
            ;
            assert(v * b * den * ed <= x * u * ed) by (nonlinear_arith)
                requires
                    v * b * den <= x * u,
                    ed > 0,
            ;
            assert(v * den * ed * b == v * b * den * ed) by (nonlinear_arith);
            assert(num * u * (ed + 1) * b == y * (ed + 1) * u) by (nonlinear_arith)
                requires
                    y == num * b,
            ;
        }
        assert(v * den * ed <= num * u * (ed + 1)) by (nonlinear_arith)
            requires
                v * den * ed * b <= num * u * (ed + 1) * b,
                b > 0,
        ;
        if v < u64::MAX {
            assert(v == full);
            assert((v + 1) * den * ed * b > num * u * (ed - 1) * b) by {
                assert((v + 1) * b * den > a * u * den) by (nonlinear_arith)
                    requires
                        (v + 1) * b > a * u,
                        den > 0,
                ;
                assert(a * u * den == x * u) by (nonlinear_arith)
                    requires
                        x == a * den,
                ;
                assert(x * u * ed >= y * (ed - 1) * u) by (nonlinear_arith)
                    requires
                        x * ed >= y * (ed - 1),
                        u >= 0,
                ;
                assert((v + 1) * b * den * ed > x * u * ed) by (nonlinear_arith)
                    requires
                        (v + 1) * b * den > x * u,
                        ed > 0,
                ;
                assert((v + 1) * den * ed * b == (v + 1) * b * den * ed) by (nonlinear_arith);
                assert(num * u * (ed - 1) * b == y * (ed - 1) * u) by (nonlinear_arith)
                    requires
                        y == num * b,
                ;
            }
            assert((v + 1) * den * ed > num * u * (ed - 1)) by (nonlinear_arith)
                requires
                    (v + 1) * den * ed * b > num * u * (ed - 1) * b,
                    b > 0,
            ;
        }
    }
}

/// Any number above zero and below `2^1000` is a size, as long as its exponent is no less
/// than -19.
pub proof fn theorem_sizes_there(mantissa: nat, exponent: int, scale: nat)
    requires
        mantissa > 0,
        -19 <= exponent,
        exponent >= 0 ==> mantissa * power::pow(10, exponent as nat) < power2::pow2(1000),
        exponent < 0 ==> mantissa < power::pow(10, (-exponent) as nat) * power2::pow2(1000),
    ensures
        decimal_size(mantissa, exponent, scale) is Ok,
{
    let num = decimal_num(mantissa, exponent);
    let den = decimal_den(exponent);
    power::lemma_pow_positive(
        10,
        (if exponent >= 0 {
            exponent
        } else {
            -exponent
        }) as nat,
    );
    assert(num >= 1) by {
        if exponent >= 0 {
            let p = power::pow(10, exponent as nat);
            assert(mantissa * (p as nat) >= 1) by (nonlinear_arith)
                requires
                    mantissa >= 1,
                    p >= 1,
            ;
        }
    }
    assert(0 < den <= 0x1_0000_0000_0000_0000) by {
        if exponent < 0 {
            lemma_pow10_19((-exponent) as nat);
        }
    }
    let limit = power2::pow2(1000);
    assert(num < den * limit) by {
        if exponent >= 0 {
            assert(den * limit == limit) by (nonlinear_arith)
                requires
                    den == 1,
            ;
        }
    }
    binary::lemma_nearest_exists(num, den);
    let f = binary::rounded(num, den);
    double::lemma_not_smallest(num, den, f);
    double::lemma_rounding_close(num, den, f);
    let (m, e) = f;
    if e >= 971 {
        power2::lemma2_to64();
        power2::lemma_pow2_adds(e as nat, 52);
        power2::lemma_pow2_strictly_increases(1000, (e + 52) as nat);
        let (p, q) = (power2::pow2(e as nat), power2::pow2(52));
        assert(!binary::below(num, den, e, 52));
        assert(binary::scaled_num(num, e) == num) by (nonlinear_arith)
            requires
                binary::scaled_num(num, e) == num * power2::pow2(0),
                power2::pow2(0) == 1,
        ;
        assert(num >= den * p * q);
        assert(den * p * q == den * (p * q)) by (nonlinear_arith);
        assert(den * (p * q) >= den * limit) by (nonlinear_arith)
            requires
                p * q >= limit,
                den >= 0,
        ;
    }
    assert(m > 0) by {
        let b = double::over_den(f);
        power2::lemma_pow2_pos(
            if e < 0 {
                (-e) as nat
            } else {
                0
            },
        );
        assert(num * b * 0x1f_ffff_ffff_ffff > 0) by (nonlinear_arith)
            requires
                num >= 1,
                b >= 1,
        ;
        if m == 0 {
            let x = power2::pow2(
                if e > 0 {
                    e as nat
                } else {
                    0
                },
            );
            assert(double::over_num(f) == m * x);
            assert(m * x == 0) by (nonlinear_arith)
                requires
                    m == 0,
            ;
            assert(double::over_num(f) * den * 0x20_0000_0000_0000 == 0) by (nonlinear_arith)
                requires
                    double::over_num(f) == 0,
            ;
        }
    }
}

/// Ten to the nineteenth is below `2^64`.
proof fn lemma_pow10_19(k: nat)
    requires
        k <= 19,
    ensures
        0 < power::pow(10, k) <= 0x1_0000_0000_0000_0000,
{
    power::lemma_pow_positive(10, k);
    power::lemma_pow_increases(10, k, 19);
    reveal_with_fuel(power::pow, 20);
    assert(power::pow(10, 19) == 10_000_000_000_000_000_000);
}

/// The integer part of a floating-point number in units of `2^scale`.
proof fn lemma_scaled_part(f: (nat, int), scale: nat)
    ensures
        ({
            let v = integer_part(f.0, f.1 + scale);
            let (a, b, u) = (
                double::over_num(f),
                double::over_den(f),
                power2::pow2(scale),
            );
            b > 0 && v * b <= a * u && (v + 1) * b > a * u
        }),
{
    let (m, e) = f;
    let u = power2::pow2(scale);
    power2::lemma2_to64();
    power2::lemma_pow2_pos(scale);
    let v = integer_part(m, e + scale);
    if e >= 0 {
        power2::lemma_pow2_adds(e as nat, scale);
        let p = power2::pow2(e as nat);
        assert(double::over_num(f) == m * p && double::over_den(f) == 1);
        assert(m * (p * u) == m * p * u) by (nonlinear_arith);
        assert(power2::pow2((e + scale) as nat) == p * u);
        assert(v == m * p * u);
    } else {
        let k = (-e) as nat;
        let b = power2::pow2(k);
        power2::lemma_pow2_pos(k);
        assert(double::over_num(f) == m) by (nonlinear_arith)
            requires
                double::over_num(f) == m * power2::pow2(0),
                power2::pow2(0) == 1,
        ;
        assert(double::over_den(f) == b);
        if e + scale >= 0 {
            let q = power2::pow2((e + scale) as nat);
            power2::lemma_pow2_adds(k, (e + scale) as nat);
            assert(b * q == u);
            assert(v == m * q);
            assert(m * q * b == m * u) by (nonlinear_arith)
                requires
                    b * q == u,
            ;
            assert((v + 1) * b == v * b + b) by (nonlinear_arith);
        } else {
            let q = power2::pow2((-(e + scale)) as nat);
            power2::lemma_pow2_adds(scale, (-(e + scale)) as nat);
            power2::lemma_pow2_pos((-(e + scale)) as nat);
            assert(u * q == b);
            vstd::arithmetic::div_mod::lemma_fundamental_div_mod(m as int, q as int);
            let r = m % q;
            assert(m == q * v + r && 0 <= r < q);
            assert(v * b <= m * u && (v + 1) * b > m * u) by (nonlinear_arith)
                requires
                    m == q * v + r,
                    0 <= r < q,
                    u * q == b,
                    u > 0,
            ;
        }
    }
}

/// A whole number below `2^53` comes to itself: `n` units of `2^scale` bytes are
/// that many bytes.
pub proof fn theorem_whole_sizes(n: nat, scale: nat)
    requires
        0 < n < 0x20_0000_0000_0000,
    ensures
        decimal_size(n, 0, scale) == Ok::<u64, SizeError>(saturated(n * power2::pow2(scale))),
{
    power::lemma_pow0(10);
    assert(decimal_num(n, 0) == n) by (nonlinear_arith)
        requires
            decimal_num(n, 0) == n * (power::pow(10, 0) as nat),
            power::pow(10, 0) == 1,
    ;
    binary::lemma_nearest_exists(n, 1);
    let (m, e) = binary::rounded(n, 1);
    binary::theorem_small_integers_exact(n, m, e);
    let p = power2::pow2((-e) as nat);
    power2::lemma_pow2_pos((-e) as nat);
    assert(m >= n) by (nonlinear_arith)
        requires
            m == n * p,
            p >= 1,
    ;
    if e + scale >= 0 {
        power2::lemma_pow2_adds((-e) as nat, (e + scale) as nat);
        let q = power2::pow2((e + scale) as nat);
        assert(m * q == n * (p * q)) by (nonlinear_arith)
            requires
                m == n * p,
        ;
    } else {
        let d = (-(e + scale)) as nat;
        power2::lemma_pow2_adds(d, scale);
        power2::lemma_pow2_pos(d);
        let (q, s) = (power2::pow2(d), power2::pow2(scale));
        assert(m == q * (n * s)) by (nonlinear_arith)
            requires
                m == n * p,
                p == q * s,
        ;
        vstd::arithmetic::div_mod::lemma_div_multiples_vanish((n * s) as int, q as int);
    }
}

/// A quarter of less than `2^53` bytes is the integer quotient.
pub proof fn theorem_quarter(total: nat)
    requires
        total < 0x20_0000_0000_0000,
    ensures
        quarter_of(total) == total / 4,
{
    binary::lemma_nearest_exists(total, 1);
    let (m, e) = binary::rounded(total, 1);
    binary::theorem_small_integers_exact(total, m, e);
    let p = power2::pow2((-e) as nat);
    power2::lemma_pow2_pos((-e) as nat);
    power2::lemma2_to64();
    power2::lemma_pow2_adds((-e) as nat, 2);
    assert(total * p == p * total) by (nonlinear_arith);
    assert(p * 4 > 0);
    vstd::arithmetic::div_mod::lemma_div_denominator(m as int, p as int, 4);
    vstd::arithmetic::div_mod::lemma_div_multiples_vanish(total as int, p as int);
}

/// The budget where none is given.
pub open spec fn default_budget(total: nat) -> u64 {
    if quarter_of(total) >= MIN_DEFAULT_BUDGET_BYTES {
        quarter_of(total)
    } else {
        MIN_DEFAULT_BUDGET_BYTES
    }
}

/// Over four times one is over four.
proof fn lemma_over_four(n: nat, d: nat)
    requires
        d == 1,
    ensures
        n / (4 * d) == n / 4,
{
    let k = 4 * d;
    assert(k == 4);
    assert(n / k == n / 4);
}

/// The integer part of a quarter of a floating-point number.
#[verifier::spinoff_prover]
proof fn lemma_quarter_of_float(f: (nat, int))
    ensures
        double::over_den(f) > 0,
        integer_part(f.0, f.1 - 2) == double::over_num(f) / (4 * double::over_den(f)),
{
    let (m, e) = f;
    power2::lemma2_to64();
    if e >= 2 {
        power2::lemma_pow2_adds((e - 2) as nat, 2);
        let (p, q) = (power2::pow2((e - 2) as nat), power2::pow2(e as nat));
        assert(m * q == 4 * (m * p)) by (nonlinear_arith)
            requires
                q == p * 4,
        ;
        let v = m * p;
        assert(double::over_num(f) == 4 * v && double::over_den(f) == 1);
        lemma_over_four(4 * v, double::over_den(f));
        assert((4 * v) / 4 == v);
        assert(integer_part(m, e - 2) == v);
    } else if e > 0 {
        assert(e == 1);
        assert(m * power2::pow2(1) == 2 * m) by (nonlinear_arith)
            requires
                power2::pow2(1) == 2,
        ;
        assert(double::over_num(f) == 2 * m && double::over_den(f) == 1);
        lemma_over_four(2 * m, double::over_den(f));
        assert((2 * m) / 4 == m / 2);
        assert(integer_part(m, e - 2) == m / 2);
    } else {
        let k = (-e) as nat;
        power2::lemma_pow2_adds(k, 2);
        power2::lemma_pow2_pos(k);
        assert(m * power2::pow2(0) == m) by (nonlinear_arith)
            requires
                power2::pow2(0) == 1,
        ;
        assert(power2::pow2((2 - e) as nat) == 4 * power2::pow2(k));
        assert(double::over_num(f) == m && double::over_den(f) == power2::pow2(k));
        assert(integer_part(m, e - 2) == m / (4 * power2::pow2(k)));
    }
}

/// A quarter of the memory, taken as the nearest floating-point number, whatever there
/// is; of more memory, no less.
pub proof fn theorem_quarter_of_all(total: nat, more: nat)
    requires
        total <= more,
    ensures
        quarter_of(total) == (if double::as_double(total) / 4 <= u64::MAX {
            double::as_double(total) / 4
        } else {
            u64::MAX as nat
        }),
        quarter_of(total) <= quarter_of(more),
{
    lemma_quarter_is(total);
    lemma_quarter_is(more);
    double::lemma_double_monotone(total, more);
}

/// A quarter of the memory.
proof fn lemma_quarter_is(total: nat)
    ensures
        quarter_of(total) == saturated(double::as_double(total) / 4),
{
    let f = binary::rounded(total, 1);
    lemma_quarter_of_float(f);
    double::lemma_double_fraction(total);
    let (x, d) = (double::as_double(total), double::over_den(f));
    assert(x * d == d * x) by (nonlinear_arith);
    assert(4 * d == d * 4);
    vstd::arithmetic::div_mod::lemma_div_denominator((x * d) as int, d as int, 4);
    vstd::arithmetic::div_mod::lemma_div_multiples_vanish(x as int, d as int);
}

/// Without an explicit size the budget is a quarter of the memory, however much there
/// is, but no less than 64 MiB: for less than `2^53` bytes of memory it is just that
/// quarter, in whole bytes, and with more memory it is no smaller.
pub proof fn theorem_default_budget(total: nat, more: nat)
    requires
        total <= more,
    ensures
        default_budget(total) <= default_budget(more),
        default_budget(total) >= 64 * 1024 * 1024,
        total < 0x20_0000_0000_0000 ==> default_budget(total) == (if total / 4 >= 67_108_864 {
            total / 4
        } else {
            67_108_864
        }),
        default_budget(total) == quarter_of(total) || default_budget(total) == 67_108_864,
        quarter_of(total) <= default_budget(total),
{
    theorem_quarter_of_all(total, more);
    if total < 0x20_0000_0000_0000 {
        theorem_quarter(total);
    }
}

/// Whole blocks in a budget, at least one.
pub open spec fn budget_blocks(budget_bytes: u64) -> usize {
    if (budget_bytes / 255) as usize == 0 {
        1
    } else {
        (budget_bytes / 255) as usize
    }
}

/// A budget is used up but for less than a block, and never exceeded, unless it is too
/// small for one block.
pub proof fn theorem_budget_blocks(budget_bytes: u64)
    requires
        budget_bytes / 255 <= usize::MAX,
    ensures
        budget_blocks(budget_bytes) >= 1,
        budget_bytes >= 255 ==> budget_blocks(budget_bytes) * 255 <= budget_bytes < (budget_blocks(
            budget_bytes,
        ) + 1) * 255,
        budget_bytes < 255 ==> budget_blocks(budget_bytes) == 1,
{
}

/// The characters of a text.
fn chars_of(s: &str) -> (v: Vec<char>)
    ensures
        v@ == s@,
{
    let n: usize = s.unicode_len();
    let mut v: Vec<char> = Vec::new();
    let mut i: usize = 0;
    while i < n
        invariant
            0 <= i <= n,
            n == s@.len(),
            v@ == s@.take(i as int),
        decreases n - i,
    {
        v.push(s.get_char(i));
        i = i + 1;
        assert(v@ =~= s@.take(i as int));
    }
    assert(v@ =~= s@);
    v
}

/// Whether a character is white space.
fn space(c: char) -> (b: bool)
    ensures
        b == is_space(c),
{
    let u: u32 = c as u32;
    (0x9 <= u && u <= 0xd) || u == 0x20 || u == 0x85 || u == 0xa0 || u == 0x1680 || (0x2000 <= u
        && u <= 0x200a) || u == 0x2028 || u == 0x2029 || u == 0x202f || u == 0x205f || u == 0x3000
}

/// The text without white space around it.
fn trim(s: &[char]) -> (t: &[char])
    ensures
        t@ == trimmed(s@),
{
    let mut start: usize = 0;
    assert(s@.skip(0) =~= s@);
    while start < s.len() && space(s[start])
        invariant
            0 <= start <= s@.len(),
            trimmed_front(s@) == trimmed_front(s@.skip(start as int)),
        decreases s@.len() - start,
    {
        assert(s@.skip(start as int).skip(1) =~= s@.skip(start + 1));
        start = start + 1;
    }
    let ghost front = s@.skip(start as int);
    assert(trimmed_front(s@) == front);
    let mut end: usize = s.len();
    assert(s@.subrange(start as int, end as int) =~= front);
    while end > start && space(s[end - 1])
        invariant
            0 <= start <= end <= s@.len(),
            trimmed_back(front) == trimmed_back(s@.subrange(start as int, end as int)),
        decreases end,
    {
        assert(s@.subrange(start as int, end as int).drop_last() =~= s@.subrange(
            start as int,
            end - 1,
        ));
        end = end - 1;
    }
    &s[start..end]
}

/// Where the first of two characters stands, or the length of the text.
fn find_char(s: &[char], a: char, b: char) -> (at: usize)
    ensures
        at == find(s@, a, b),
        at <= s@.len(),
{
    let mut at: usize = 0;
    assert(s@.skip(0) =~= s@);
    while at < s.len() && s[at] != a && s[at] != b
        invariant
            0 <= at <= s@.len(),
            find(s@, a, b) == at + find(s@.skip(at as int), a, b),
        decreases s@.len() - at,
    {
        assert(s@.skip(at as int).skip(1) =~= s@.skip(at + 1));
        at = at + 1;
    }
    at
}

/// Whether a text is made of decimal digits.
fn only_digits(s: &[char]) -> (b: bool)
    ensures
        b == all_digits(s@),
{
    let mut i: usize = 0;
    while i < s.len()
        invariant
            0 <= i <= s@.len(),
            forall|j: int| 0 <= j < i ==> is_digit(#[trigger] s@[j]),
        decreases s@.len() - i,
    {
        if s[i] < '0' || s[i] > '9' {
            assert(!is_digit(s@[i as int]));
            return false;
        }
        i = i + 1;
    }
    true
}

/// Whether a text is the given word, in letters of either case.
fn word(s: &[char], w: &[char]) -> (b: bool)
    ensures
        b == is_word(s@, w@),
{
    if s.len() != w.len() {
        return false;
    }
    let mut i: usize = 0;
    while i < s.len()
        invariant
            0 <= i <= s@.len(),
            s@.len() == w@.len(),
            forall|j: int| 0 <= j < i ==> small(#[trigger] s@[j]) == w@[j],
        decreases s@.len() - i,
    {
        let c: char = s[i];
        let x: char = w[i];
        let same: bool = if 'A' <= c && c <= 'Z' {
            'a' <= x && x <= 'z' && c as u32 + 32 == x as u32
        } else {
            c == x
        };
        if !same {
            assert(small(s@[i as int]) != w@[i as int]);
            return false;
        }
        i = i + 1;
    }
    true
}

/// Whether a text is a word for infinity or for what is no number.
fn special(s: &[char]) -> (b: bool)
    ensures
        b == is_special(s@),
{
    let inf: [char; 3] = ['i', 'n', 'f'];
    let infinity: [char; 8] = ['i', 'n', 'f', 'i', 'n', 'i', 't', 'y'];
    let nan: [char; 3] = ['n', 'a', 'n'];
    assert(inf@ =~= seq!['i', 'n', 'f']);
    assert(infinity@ =~= seq!['i', 'n', 'f', 'i', 'n', 'i', 't', 'y']);
    assert(nan@ =~= seq!['n', 'a', 'n']);
    word(s, &inf) || word(s, &infinity) || word(s, &nan)
}

/// The text without a sign in front, and whether the sign is a minus.
fn sign(s: &[char]) -> (r: (bool, &[char]))
    ensures
        r.0 == is_negative(s@),
        r.1@ == unsigned(s@),
{
    if s.len() > 0 && (s[0] == '+' || s[0] == '-') {
        let rest: &[char] = &s[1..s.len()];
        assert(rest@ =~= s@.skip(1));
        (s[0] == '-', rest)
    } else {
        (false, s)
    }
}

/// More than any exponent that matters.
const EXPONENT_CAP: u128 = 1_000_000_000_000_000_000_000_000_000_000;

/// The number that decimal digits spell, at most [`EXPONENT_CAP`].
fn capped_value(s: &[char]) -> (v: u128)
    requires
        all_digits(s@),
    ensures
        v == (if digits_value(s@) <= EXPONENT_CAP {
            digits_value(s@)
        } else {
            EXPONENT_CAP as nat
        }),
{
    let mut v: u128 = 0;
    let mut i: usize = 0;
    while i < s.len()
        invariant
            0 <= i <= s@.len(),
            all_digits(s@),
            v <= EXPONENT_CAP,
            v == (if digits_value(s@.take(i as int)) <= EXPONENT_CAP {
                digits_value(s@.take(i as int))
            } else {
                EXPONENT_CAP as nat
            }),
        decreases s@.len() - i,
    {
        assert(s@.take(i + 1).drop_last() =~= s@.take(i as int));
        assert(is_digit(s@[i as int]));
        let d: u128 = (s[i] as u32 - '0' as u32) as u128;
        let next: u128 = 10 * v + d;
        v = if next <= EXPONENT_CAP {
            next
        } else {
            EXPONENT_CAP
        };
        i = i + 1;
    }
    assert(s@.take(i as int) =~= s@);
    v
}

/// Zeros in front do not count.
proof fn lemma_leading_zero(s: Seq<char>)
    requires
        s.len() > 0,
        s[0] == '0',
    ensures
        digits_value(s) == digits_value(s.skip(1)),
    decreases s.len(),
{
    if s.len() == 1 {
        assert(s.drop_last() =~= Seq::<char>::empty());
        assert(s.skip(1) =~= Seq::<char>::empty());
    } else {
        lemma_leading_zero(s.drop_last());
        assert(s.drop_last().skip(1) =~= s.skip(1).drop_last());
    }
}

/// `n` digits, the first of them not zero, are between two powers of ten.
proof fn lemma_digits_bounds(s: Seq<char>)
    requires
        all_digits(s),
    ensures
        digits_value(s) < power::pow(10, s.len()),
        s.len() > 0 && s[0] != '0' ==> digits_value(s) >= power::pow(10, (s.len() - 1) as nat),
    decreases s.len(),
{
    power::lemma_pow0(10);
    if s.len() > 0 {
        let front = s.drop_last();
        assert forall|i: int| 0 <= i < front.len() implies is_digit(#[trigger] front[i]) by {
            assert(is_digit(s[i]));
        }
        lemma_digits_bounds(front);
        assert(is_digit(s[s.len() - 1]));
        assert(power::pow(10, s.len()) == 10 * power::pow(10, (s.len() - 1) as nat)) by {
            reveal(power::pow);
        }
        if s[0] != '0' && s.len() > 1 {
            assert(front[0] == s[0]);
            assert(power::pow(10, (s.len() - 1) as nat) == 10 * power::pow(
                10,
                (s.len() - 2) as nat,
            )) by {
                reveal(power::pow);
            }
        }
    }
}

/// Powers of ten lie between those of eight and those of sixteen.
proof fn lemma_pow10(k: nat)
    ensures
        power2::pow2(3 * k) <= power::pow(10, k) <= power2::pow2(4 * k),
        power::pow(10, k) > 0,
    decreases k,
{
    power::lemma_pow0(10);
    power2::lemma2_to64();
    if k > 0 {
        lemma_pow10((k - 1) as nat);
        assert(power::pow(10, k) == 10 * power::pow(10, (k - 1) as nat)) by {
            reveal(power::pow);
        }
        power2::lemma_pow2_adds(3, (3 * (k - 1)) as nat);
        power2::lemma_pow2_adds(4, (4 * (k - 1)) as nat);
    }
}

/// The text without zeros in front.
fn skip_zeros(s: &[char]) -> (t: &[char])
    requires
        all_digits(s@),
    ensures
        all_digits(t@),
        digits_value(t@) == digits_value(s@),
        t@.len() > 0 ==> t@[0] != '0',
        t@.len() <= s@.len(),
{
    let mut i: usize = 0;
    assert(s@.skip(0) =~= s@);
    while i < s.len() && s[i] == '0'
        invariant
            0 <= i <= s@.len(),
            digits_value(s@) == digits_value(s@.skip(i as int)),
        decreases s@.len() - i,
    {
        proof {
            lemma_leading_zero(s@.skip(i as int));
            assert(s@.skip(i as int).skip(1) =~= s@.skip(i + 1));
        }
        i = i + 1;
    }
    let t: &[char] = &s[i..s.len()];
    assert(t@ =~= s@.skip(i as int));
    assert forall|j: int| 0 <= j < t@.len() implies is_digit(#[trigger] t@[j]) by {
        assert(is_digit(s@[i + j]));
    }
    t
}

/// The number that decimal digits spell.
fn big_value(s: &[char]) -> (n: Vec<u32>)
    requires
        all_digits(s@),
    ensures
        bignum::value(n@) == digits_value(s@),
{
    let mut n: Vec<u32> = Vec::new();
    let mut i: usize = 0;
    while i < s.len()
        invariant
            0 <= i <= s@.len(),
            all_digits(s@),
            bignum::value(n@) == digits_value(s@.take(i as int)),
        decreases s@.len() - i,
    {
        assert(s@.take(i + 1).drop_last() =~= s@.take(i as int));
        assert(is_digit(s@[i as int]));
        bignum::mul_add(&mut n, 10, s[i] as u32 - '0' as u32);
        i = i + 1;
    }
    assert(s@.take(i as int) =~= s@);
    n
}

/// Multiplies a number by `10^k`.
fn times_ten(n: &mut Vec<u32>, k: u128)
    ensures
        bignum::value(final(n)@) == bignum::value(old(n)@) * power::pow(10, k as nat),
{
    let ghost v = bignum::value(n@);
    let mut i: u128 = 0;
    proof {
        power::lemma_pow0(10);
        assert(v * power::pow(10, 0) == v) by (nonlinear_arith)
            requires
                power::pow(10, 0) == 1,
        ;
    }
    while i < k
        invariant
            0 <= i <= k,
            bignum::value(n@) == v * power::pow(10, i as nat),
        decreases k - i,
    {
        bignum::mul_add(n, 10, 0);
        proof {
            assert(power::pow(10, (i + 1) as nat) == 10 * power::pow(10, i as nat)) by {
                reveal(power::pow);
            }
            let p = power::pow(10, i as nat);
            assert(v * p * 10 == v * (10 * p)) by (nonlinear_arith);
        }
        i = i + 1;
    }
}

/// The size that `m * 2^e`, in units of `2^scale` bytes, comes to.
fn size_from(m: u64, e: i64, scale: u32) -> (r: Result<u64, SizeError>)
    requires
        m <= 0x20_0000_0000_0000,
        binary::MIN_EXPONENT <= e <= 1400,
        scale <= 30,
    ensures
        r == size_of(m as nat, e as int, scale as nat),
{
    if m == 0 || e > binary::MAX_EXPONENT || (e == binary::MAX_EXPONENT && m
        >= 0x20_0000_0000_0000) {
        return Err(SizeError::NotPositive);
    }
    Ok(whole_part_of(m, e + scale as i64))
}

/// The integer part of `m * 2^t`, at most `u64::MAX`.
fn whole_part_of(m: u64, t: i64) -> (v: u64)
    requires
        m <= 0x20_0000_0000_0000,
        -1100 <= t <= 1500,
    ensures
        v == saturated(integer_part(m as nat, t as int)),
{
    if m == 0 {
        proof {
            if t >= 0 {
                assert(0 * power2::pow2(t as nat) == 0) by (nonlinear_arith);
            } else {
                power2::lemma_pow2_pos((-t) as nat);
                vstd::arithmetic::div_mod::lemma_div_basics(power2::pow2((-t) as nat) as int);
            }
        }
        return 0;
    }
    proof {
        power2::lemma2_to64();
        power2::lemma2_to64_rest();
    }
    if t >= 64 {
        proof {
            if t > 64 {
                power2::lemma_pow2_strictly_increases(64, t as nat);
            }
            let p = power2::pow2(t as nat);
            assert(m * p >= p) by (nonlinear_arith)
                requires
                    m >= 1,
            ;
        }
        return u64::MAX;
    }
    if t >= 0 {
        let mut v: u128 = m as u128;
        let mut i: i64 = 0;
        assert(m * power2::pow2(0) == m) by (nonlinear_arith)
            requires
                power2::pow2(0) == 1,
        ;
        while i < t
            invariant
                0 <= i <= t < 64,
                m <= 0x20_0000_0000_0000,
                v == m * power2::pow2(i as nat),
                power2::pow2(i as nat) <= 0x8000_0000_0000_0000,
                i < t ==> power2::pow2(i as nat) <= 0x4000_0000_0000_0000,
            decreases t - i,
        {
            proof {
                let p = power2::pow2(i as nat);
                assert(m * p <= 0x20_0000_0000_0000 * 0x4000_0000_0000_0000) by (nonlinear_arith)
                    requires
                        m <= 0x20_0000_0000_0000,
                        p <= 0x4000_0000_0000_0000,
                ;
                power2::lemma_pow2_unfold((i + 1) as nat);
                assert(m * (2 * p) == 2 * (m * p)) by (nonlinear_arith);
                power2::lemma2_to64();
                power2::lemma2_to64_rest();
                if i + 1 < 62 {
                    power2::lemma_pow2_strictly_increases((i + 1) as nat, 62);
                }
            }
            v = v * 2;
            i = i + 1;
        }
        if v > u64::MAX as u128 {
            u64::MAX
        } else {
            v as u64
        }
    } else {
        let mut v: u64 = m;
        let mut i: i64 = 0;
        assert(m as nat / power2::pow2(0) == m);
        while i < -t
            invariant
                0 <= i <= -t,
                -1100 <= t < 0,
                v == m as nat / power2::pow2(i as nat),
            decreases -t - i,
        {
            proof {
                power2::lemma_pow2_unfold((i + 1) as nat);
                power2::lemma_pow2_pos(i as nat);
                vstd::arithmetic::div_mod::lemma_div_denominator(
                    m as int,
                    power2::pow2(i as nat) as int,
                    2,
                );
                assert(power2::pow2((i + 1) as nat) == power2::pow2(i as nat) * 2);
            }
            v = v / 2;
            i = i + 1;
        }
        v
    }
}

/// A number far above the greatest finite one is no size.
proof fn lemma_too_great(mantissa: nat, exponent: int, n: nat, scale: nat)
    requires
        n > 0,
        mantissa >= power::pow(10, (n - 1) as nat),
        exponent + n - 1 >= 342,
    ensures
        decimal_size(mantissa, exponent, scale) == Err::<u64, SizeError>(SizeError::NotPositive),
{
    let num = decimal_num(mantissa, exponent);
    let den = decimal_den(exponent);
    let k = (exponent + n - 1) as nat;
    lemma_pow10(k);
    lemma_pow10(if exponent < 0 {
        (-exponent) as nat
    } else {
        exponent as nat
    });
    if exponent >= 0 {
        power::lemma_pow_adds(10, (n - 1) as nat, exponent as nat);
        let (a, b) = (power::pow(10, (n - 1) as nat), power::pow(10, exponent as nat));
        assert(mantissa * b >= a * b) by (nonlinear_arith)
            requires
                mantissa >= a,
                b >= 0,
        ;
        assert(num >= power::pow(10, k));
        assert(den * power2::pow2(1024) == power2::pow2(1024)) by (nonlinear_arith)
            requires
                den == 1,
        ;
    } else {
        power::lemma_pow_adds(10, k, (-exponent) as nat);
        let (a, b) = (power::pow(10, k), power::pow(10, (-exponent) as nat));
        assert(a * b >= power2::pow2(3 * k) * b) by (nonlinear_arith)
            requires
                a >= power2::pow2(3 * k),
                b >= 0,
        ;
        assert(num >= den * power2::pow2(3 * k)) by (nonlinear_arith)
            requires
                num >= a * b,
                a * b >= power2::pow2(3 * k) * b,
                den == b,
        ;
    }
    assert(power2::pow2(3 * k) >= power2::pow2(1024)) by {
        if 3 * k > 1024 {
            power2::lemma_pow2_strictly_increases(1024, 3 * k);
        }
    }
    assert(den * power2::pow2(3 * k) >= den * power2::pow2(1024)) by (nonlinear_arith)
        requires
            power2::pow2(3 * k) >= power2::pow2(1024),
    ;
    assert(num >= den * power2::pow2(1024));
    binary::lemma_nearest_exists(num, den);
    let (m, e) = binary::rounded(num, den);
    binary::lemma_great(num, den, m, e);
}

/// A number far below the least one is no size.
proof fn lemma_too_small(mantissa: nat, exponent: int, n: nat, scale: nat)
    requires
        mantissa < power::pow(10, n),
        exponent + n <= -360,
    ensures
        decimal_size(mantissa, exponent, scale) == Err::<u64, SizeError>(SizeError::NotPositive),
{
    let num = decimal_num(mantissa, exponent);
    let den = decimal_den(exponent);
    let k = (-exponent - n) as nat;
    lemma_pow10(k);
    lemma_pow10(n);
    power::lemma_pow_adds(10, n, k);
    let (a, b) = (power::pow(10, n), power::pow(10, k));
    assert(den == a * b);
    assert(power2::pow2(3 * k) >= power2::pow2(1080)) by {
        if 3 * k > 1080 {
            power2::lemma_pow2_strictly_increases(1080, 3 * k);
        }
    }
    power2::lemma_pow2_strictly_increases(1075, 1080);
    power2::lemma_pow2_pos(1075);
    power2::lemma_pow2_unfold(1075);
    let (p, p1) = (power2::pow2(1074), power2::pow2(1075));
    assert(num * p1 < den) by (nonlinear_arith)
        requires
            num < a,
            den == a * b,
            p1 < b,
            0 < p1,
            0 < a,
            0 <= num,
    ;
    assert(num * p1 == 2 * (num * p)) by (nonlinear_arith)
        requires
            p1 == 2 * p,
    ;
    power2::lemma2_to64();
    power2::lemma2_to64_rest();
    let x = binary::scaled_num(num, -1074);
    let y = binary::scaled_den(den, -1074);
    assert(x == num * p);
    assert(y == den) by (nonlinear_arith)
        requires
            y == den * power2::pow2(0),
            power2::pow2(0) == 1,
    ;
    let b53 = power2::pow2(53);
    assert(y * b53 >= y) by (nonlinear_arith)
        requires
            b53 >= 1,
            y >= 0,
    ;
    vstd::arithmetic::div_mod::lemma_basic_div(x as int, y as int);
    vstd::arithmetic::div_mod::lemma_small_mod(x, y);
    assert(binary::half_even(x, y) == 0);
    binary::lemma_rounded(num, den, 0, -1074);
}

/// In between, the fraction is within what can be rounded here.
proof fn lemma_in_range(mantissa: nat, exponent: int, n: nat)
    requires
        mantissa < power::pow(10, n),
        exponent + n <= 342,
    ensures
        decimal_den(exponent) > 0,
        decimal_num(mantissa, exponent) < decimal_den(exponent) * power2::pow2(1400),
{
    let num = decimal_num(mantissa, exponent);
    let den = decimal_den(exponent);
    lemma_pow10(342);
    power2::lemma_pow2_strictly_increases(1368, 1400);
    let top = power::pow(10, 342);
    let limit = power2::pow2(1400);
    lemma_pow10(n);
    if exponent >= 0 {
        lemma_pow10(exponent as nat);
        power::lemma_pow_adds(10, n, exponent as nat);
        let (a, b) = (power::pow(10, n), power::pow(10, exponent as nat));
        assert(mantissa * b < a * b) by (nonlinear_arith)
            requires
                mantissa < a,
                b > 0,
        ;
        if exponent + n < 342 {
            power::lemma_pow_strictly_increases(10, (exponent + n) as nat, 342);
        }
        assert(den * limit == limit) by (nonlinear_arith)
            requires
                den == 1,
        ;
    } else {
        let k = (-exponent) as nat;
        lemma_pow10(k);
        power::lemma_pow_adds(10, 342, k);
        if n < 342 + k {
            power::lemma_pow_strictly_increases(10, n, 342 + k);
        }
        assert(top * den < limit * den) by (nonlinear_arith)
            requires
                top < limit,
                den > 0,
        ;
        assert(limit * den == den * limit) by (nonlinear_arith);
    }
}

/// The size that `digits * 10^exponent`, in units of `2^scale` bytes, comes to.
/// The exponent is the difference of `exp`, negative where `exp_negative` says
/// so, and `fraction`.
fn size_of_decimal(
    digits: &[char],
    exp_negative: bool,
    exp: u128,
    fraction: usize,
    scale: u32,
    exponent: Ghost<int>,
) -> (r: Result<u64, SizeError>)
    requires
        all_digits(digits@),
        digits_value(digits@) > 0,
        scale <= 30,
        exp <= EXPONENT_CAP,
        ({
            let signed: int = if exp_negative {
                -(exp as int)
            } else {
                exp as int
            };
            &&& exp < EXPONENT_CAP ==> exponent@ == signed - fraction
            &&& exp_negative ==> exponent@ <= signed - fraction
            &&& !exp_negative ==> exponent@ >= signed - fraction
        }),
    ensures
        r == decimal_size(digits_value(digits@), exponent@, scale as nat),
{
    let ghost mantissa = digits_value(digits@);
    let sig: &[char] = skip_zeros(digits);
    let ghost n = sig@.len();
    proof {
        lemma_digits_bounds(sig@);
    }
    let signed: i128 = if exp_negative {
        -(exp as i128)
    } else {
        exp as i128
    };
    let least: i128 = signed - fraction as i128;
    let place: i128 = least + sig.len() as i128;
    if place >= 343 {
        proof {
            lemma_too_great(mantissa, exponent@, n, scale as nat);
        }
        return Err(SizeError::NotPositive);
    }
    if place <= -360 {
        proof {
            lemma_too_small(mantissa, exponent@, n, scale as nat);
        }
        return Err(SizeError::NotPositive);
    }
    assert(exponent@ == least);
    proof {
        lemma_pow10(if least >= 0 {
            least as nat
        } else {
            (-least) as nat
        });
    }
    let mut num: Vec<u32> = big_value(sig);
    let mut den: Vec<u32> = Vec::new();
    bignum::mul_add(&mut den, 1, 1);
    if least >= 0 {
        times_ten(&mut num, least as u128);
    } else {
        times_ten(&mut den, (-least) as u128);
        assert(1 * power::pow(10, (-least) as nat) == power::pow(10, (-least) as nat));
    }
    proof {
        lemma_in_range(mantissa, exponent@, n);
    }
    let (m, e) = binary::round(num, den);
    size_from(m, e, scale)
}

/// The size that the number in a text, in units of `2^scale` bytes, comes to.
fn size_of_number(text: &[char], scale: u32) -> (r: Result<u64, SizeError>)
    requires
        scale <= 30,
    ensures
        r == number_size(number(text@), scale as nat),
{
    let (negative, s) = sign(text);
    if special(s) {
        return Err(SizeError::NotPositive);
    }
    let at: usize = find_char(s, 'e', 'E');
    let front: &[char] = &s[0..at];
    assert(front@ =~= significand(s@));
    let point: usize = find_char(front, '.', '.');
    let whole: &[char] = &front[0..point];
    assert(whole@ =~= whole_part(front@));
    let fraction: &[char] = if point < front.len() {
        &front[point + 1..front.len()]
    } else {
        &front[point..point]
    };
    assert(fraction@ =~= fraction_part(front@));
    if !only_digits(whole) || !only_digits(fraction) || (whole.len() == 0 && fraction.len() == 0) {
        return Err(SizeError::Invalid);
    }
    let mut exp_negative: bool = false;
    let mut exp: u128 = 0;
    let ghost mut true_exp: int = 0;
    if at < s.len() {
        let back: &[char] = &s[at + 1..s.len()];
        assert(back@ =~= s@.skip(at + 1));
        let (minus, tail) = sign(back);
        if tail.len() == 0 || !only_digits(tail) {
            return Err(SizeError::Invalid);
        }
        exp_negative = minus;
        exp = capped_value(tail);
        proof {
            true_exp = exponent_value(back@);
        }
    }
    let mut digits: Vec<char> = Vec::new();
    digits.extend_from_slice(whole);
    digits.extend_from_slice(fraction);
    assert(digits@ =~= whole@ + fraction@);
    assert forall|i: int| 0 <= i < digits@.len() implies is_digit(#[trigger] digits@[i]) by {
        if i < whole@.len() {
            assert(is_digit(whole@[i]));
        } else {
            assert(is_digit(fraction@[i - whole@.len()]));
        }
    }
    if negative {
        return Err(SizeError::NotPositive);
    }
    let sig: &[char] = skip_zeros(&digits);
    if sig.len() == 0 {
        return Err(SizeError::NotPositive);
    }
    proof {
        lemma_digits_bounds(sig@);
        lemma_pow10((sig@.len() - 1) as nat);
    }
    assert(number(text@) == Some(
        Number::Finite {
            negative: false,
            mantissa: digits_value(digits@),
            exponent: true_exp - fraction@.len(),
        },
    ));
    size_of_decimal(
        &digits,
        exp_negative,
        exp,
        fraction.len(),
        scale,
        Ghost(true_exp - fraction@.len()),
    )
}

/// Parses a size: a number of bytes, or of units of 1024 (`K`), 1024^2 (`M`) or
/// 1024^3 (`G`) bytes. The number may have a fraction and an exponent. Zero,
/// negative and non-numeric sizes are rejected.
pub fn parse_size(s: &str) -> (r: Result<u64, SizeError>)
    ensures
        r == size_said(s@),
{
    let chars: Vec<char> = chars_of(s);
    let text: &[char] = trim(&chars);
    if text.len() == 0 {
        return Err(SizeError::Empty);
    }
    let last: char = text[text.len() - 1];
    let scale: u32 = if last == 'k' || last == 'K' {
        10
    } else if last == 'm' || last == 'M' {
        20
    } else if last == 'g' || last == 'G' {
        30
    } else {
        0
    };
    let body: &[char] = if scale > 0 {
        &text[0..text.len() - 1]
    } else {
        text
    };
    assert(scale > 0 ==> body@ =~= text@.drop_last());
    size_of_number(trim(body), scale)
}

/// A quarter of `total`, in whole bytes.
fn quarter(total: u64) -> (d: u64)
    ensures
        d == quarter_of(total as nat),
{
    let mut num: Vec<u32> = Vec::new();
    bignum::mul_add(&mut num, 1, (total / 0x1_0000_0000) as u32);
    bignum::mul_add(&mut num, 0x1_0000, 0);
    bignum::mul_add(&mut num, 0x1_0000, (total % 0x1_0000_0000) as u32);
    let mut one: Vec<u32> = Vec::new();
    bignum::mul_add(&mut one, 1, 1);
    proof {
        power2::lemma2_to64();
        power2::lemma_pow2_strictly_increases(64, 1400);
        power2::lemma2_to64_rest();
        assert(1 * power2::pow2(1400) == power2::pow2(1400));
    }
    let (m, e) = binary::round(num, one);
    whole_part_of(m, e - 2)
}

/// The budget in bytes: the size that is given, or a quarter of `total_memory`
/// bytes of memory, and then at least [`MIN_DEFAULT_BUDGET_BYTES`].
pub fn resolve_budget_bytes(explicit: Option<&str>, total_memory: u64) -> (r: Result<
    u64,
    SizeError,
>)
    ensures
        match explicit {
            Some(s) => r == size_said(s@),
            None => r == Ok::<u64, SizeError>(default_budget(total_memory as nat)),
        },
        explicit is None ==> r == Ok::<u64, SizeError>(
            if quarter_of(total_memory as nat) >= MIN_DEFAULT_BUDGET_BYTES {
                quarter_of(total_memory as nat)
            } else {
                MIN_DEFAULT_BUDGET_BYTES
            },
        ),
        explicit is None ==> r is Ok && r->Ok_0 >= 67_108_864,
{
    match explicit {
        Some(s) => parse_size(s),
        None => {
            let derived: u64 = quarter(total_memory);
            Ok(
                if derived >= MIN_DEFAULT_BUDGET_BYTES {
                    derived
                } else {
                    MIN_DEFAULT_BUDGET_BYTES
                },
            )
        },
    }
}

/// Whole Reed-Solomon blocks in a budget, at least one.
pub fn blocks_for_budget(budget_bytes: u64) -> (blocks: usize)
    ensures
        blocks == budget_blocks(budget_bytes),
        blocks == (if (budget_bytes / 255) as usize == 0 {
            1
        } else {
            (budget_bytes / 255) as usize
        }),
{
    let blocks: usize = (budget_bytes / RS_BLOCK_SIZE as u64) as usize;
    if blocks == 0 {
        1
    } else {
        blocks
    }
}

} // verus!
