//! Natural numbers of any size, as little-endian sequences of 32-bit limbs.

use vstd::arithmetic::power2;
use vstd::prelude::*;

verus! {

/// Weight of limb `i`.
pub open spec fn weight(i: nat) -> nat {
    power2::pow2(32 * i)
}

/// The number that limbs stand for.
pub open spec fn value(limbs: Seq<u32>) -> nat
    decreases limbs.len(),
{
    if limbs.len() == 0 {
        0
    } else {
        value(limbs.drop_last()) + (limbs.last() as nat) * weight((limbs.len() - 1) as nat)
    }
}

/// The weight of the next limb is `2^32` times as great.
proof fn lemma_weight(i: nat)
    ensures
        weight(0) == 1,
        weight(i) >= 1,
        weight(i + 1) == 0x1_0000_0000 * weight(i),
{
    power2::lemma2_to64();
    power2::lemma_pow2_pos(32 * i);
    power2::lemma_pow2_adds(32, 32 * i);
}

/// `n` limbs stand for less than the weight of limb `n`.
proof fn lemma_value_bound(limbs: Seq<u32>)
    ensures
        value(limbs) < weight(limbs.len()),
    decreases limbs.len(),
{
    lemma_weight(0);
    if limbs.len() > 0 {
        let n = (limbs.len() - 1) as nat;
        lemma_value_bound(limbs.drop_last());
        lemma_weight(n);
        let (x, w) = (limbs.last(), weight(n));
        assert(x * w + w <= 0x1_0000_0000 * w) by (nonlinear_arith)
            requires
                x < 0x1_0000_0000,
        ;
    }
}

/// One more limb adds its part.
proof fn lemma_take(limbs: Seq<u32>, i: int)
    requires
        0 <= i < limbs.len(),
    ensures
        value(limbs.take(i + 1)) == value(limbs.take(i)) + limbs[i] * weight(i as nat),
{
    assert(limbs.take(i + 1).drop_last() =~= limbs.take(i));
}

/// Replaces `n` by `n * k + a`.
pub fn mul_add(n: &mut Vec<u32>, k: u32, a: u32)
    ensures
        value(final(n)@) == value(old(n)@) * k + a,
{
    let ghost before = n@;
    let mut carry: u64 = a as u64;
    let mut i: usize = 0;
    proof {
        lemma_weight(0);
        assert(carry * weight(0) == a) by (nonlinear_arith)
            requires
                weight(0) == 1,
                carry == a,
        ;
        assert(value(before.take(0)) * k == 0) by (nonlinear_arith)
            requires
                value(before.take(0)) == 0,
        ;
    }
    while i < n.len()
        invariant
            0 <= i <= n@.len(),
            n@.len() == before.len(),
            carry <= 0xffff_ffff,
            forall|j: int| i <= j < n@.len() ==> n@[j] == before[j],
            value(n@.take(i as int)) + carry * weight(i as nat) == value(before.take(i as int)) * k
                + a,
        decreases n@.len() - i,
    {
        let ghost start = n@;
        let x: u64 = n[i] as u64;
        assert(x * k <= 0xffff_ffff * 0xffff_ffff) by (nonlinear_arith)
            requires
                x <= 0xffff_ffff,
                k <= 0xffff_ffff,
        ;
        let t: u64 = x * k as u64 + carry;
        let low: u32 = (t % 0x1_0000_0000) as u32;
        let high: u64 = t / 0x1_0000_0000;
        n.set(i, low);
        proof {
            let w = weight(i as nat);
            lemma_weight(i as nat);
            lemma_take(n@, i as int);
            lemma_take(before, i as int);
            assert(n@.take(i as int) =~= start.take(i as int));
            let b = value(before.take(i as int));
            assert(low * w + high * (0x1_0000_0000 * w) == t * w) by (nonlinear_arith)
                requires
                    t == low + 0x1_0000_0000 * high,
            ;
            assert((b + x * w) * k == b * k + (x * k) * w) by (nonlinear_arith);
            assert(t * w == (x * k) * w + carry * w) by (nonlinear_arith)
                requires
                    t == x * k + carry,
            ;
        }
        carry = high;
        i = i + 1;
    }
    proof {
        assert(n@.take(i as int) =~= n@);
        assert(before.take(i as int) =~= before);
    }
    if carry > 0 {
        let ghost start = n@;
        n.push(carry as u32);
        assert(n@.drop_last() =~= start);
    } else {
        assert(carry * weight(i as nat) == 0) by (nonlinear_arith)
            requires
                carry == 0,
        ;
    }
}

/// The limbs, with zeros behind them.
spec fn limb(limbs: Seq<u32>, i: int) -> u32 {
    if i < limbs.len() {
        limbs[i]
    } else {
        0
    }
}

/// The first `n` limbs, with zeros where there are fewer.
spec fn padded(limbs: Seq<u32>, n: nat) -> Seq<u32> {
    Seq::new(n, |i: int| limb(limbs, i))
}

/// Zeros behind a number do not change it.
proof fn lemma_padded(limbs: Seq<u32>, n: nat)
    requires
        limbs.len() <= n,
    ensures
        value(padded(limbs, n)) == value(limbs),
    decreases n,
{
    if n == limbs.len() {
        assert(padded(limbs, n) =~= limbs);
    } else {
        lemma_padded(limbs, (n - 1) as nat);
        assert(padded(limbs, n).drop_last() =~= padded(limbs, (n - 1) as nat));
        let w = weight((n - 1) as nat);
        assert(0 * w == 0) by (nonlinear_arith);
    }
}

/// Takes `b` from `a` where `a` is at least `b`, and says whether it was.
pub fn sub_if_ge(a: &mut Vec<u32>, b: &Vec<u32>) -> (ge: bool)
    ensures
        ge == (value(old(a)@) >= value(b@)),
        ge ==> value(final(a)@) == value(old(a)@) - value(b@),
        !ge ==> final(a)@ == old(a)@,
{
    let ghost va = value(a@);
    let ghost vb = value(b@);
    let n: usize = if a.len() >= b.len() {
        a.len()
    } else {
        b.len()
    };
    let ghost pa = padded(a@, n as nat);
    let ghost pb = padded(b@, n as nat);
    proof {
        lemma_padded(a@, n as nat);
        lemma_padded(b@, n as nat);
        lemma_weight(0);
    }
    let mut diff: Vec<u32> = Vec::new();
    let mut borrow: u64 = 0;
    let mut i: usize = 0;
    assert(borrow * weight(0) == 0) by (nonlinear_arith)
        requires
            borrow == 0,
    ;
    while i < n
        invariant
            0 <= i <= n,
            a@ == old(a)@,
            a@.len() <= n,
            b@.len() <= n,
            pa == padded(a@, n as nat),
            pb == padded(b@, n as nat),
            diff@.len() == i,
            borrow <= 1,
            value(diff@) + value(pb.take(i as int)) == value(pa.take(i as int)) + borrow * weight(
                i as nat,
            ),
        decreases n - i,
    {
        let x: u64 = if i < a.len() {
            a[i] as u64
        } else {
            0
        };
        let y: u64 = if i < b.len() {
            b[i] as u64
        } else {
            0
        };
        let t: u64 = 0x1_0000_0000 + x - y - borrow;
        let low: u32 = (t % 0x1_0000_0000) as u32;
        let next: u64 = 1 - t / 0x1_0000_0000;
        let ghost start = diff@;
        diff.push(low);
        proof {
            let w = weight(i as nat);
            lemma_weight(i as nat);
            lemma_take(pa, i as int);
            lemma_take(pb, i as int);
            assert(diff@.drop_last() =~= start);
            assert(low * w + y * w + borrow * w == x * w + next * (0x1_0000_0000 * w))
                by (nonlinear_arith)
                requires
                    low + y + borrow == x + next * 0x1_0000_0000,
            ;
        }
        borrow = next;
        i = i + 1;
    }
    proof {
        assert(pa.take(i as int) =~= pa);
        assert(pb.take(i as int) =~= pb);
        lemma_value_bound(diff@);
        lemma_weight(n as nat);
        if borrow == 1 {
            assert(borrow * weight(n as nat) == weight(n as nat)) by (nonlinear_arith)
                requires
                    borrow == 1,
            ;
        } else {
            assert(borrow * weight(n as nat) == 0) by (nonlinear_arith)
                requires
                    borrow == 0,
            ;
        }
    }
    if borrow == 0 {
        *a = diff;
        true
    } else {
        false
    }
}

/// Whether a number is zero.
pub fn is_zero(n: &Vec<u32>) -> (b: bool)
    ensures
        b == (value(n@) == 0),
{
    let mut i: usize = 0;
    while i < n.len()
        invariant
            0 <= i <= n@.len(),
            value(n@.take(i as int)) == 0,
        decreases n@.len() - i,
    {
        proof {
            lemma_take(n@, i as int);
            lemma_weight(i as nat);
            let (x, w) = (n@[i as int], weight(i as nat));
            assert(x == 0 ==> x * w == 0) by (nonlinear_arith);
            assert(x > 0 ==> x * w > 0) by (nonlinear_arith)
                requires
                    w >= 1,
            ;
        }
        if n[i] != 0 {
            proof {
                lemma_prefix(n@, i + 1);
            }
            return false;
        }
        i = i + 1;
    }
    assert(n@.take(i as int) =~= n@);
    true
}

/// The first limbs stand for no more than all of them.
proof fn lemma_prefix(limbs: Seq<u32>, i: int)
    requires
        0 <= i <= limbs.len(),
    ensures
        value(limbs.take(i)) <= value(limbs),
    decreases limbs.len() - i,
{
    if i == limbs.len() {
        assert(limbs.take(i) =~= limbs);
    } else {
        lemma_take(limbs, i);
        lemma_prefix(limbs, i + 1);
        let (x, w) = (limbs[i], weight(i as nat));
        assert(0 <= x * w) by (nonlinear_arith);
    }
}

} // verus!
