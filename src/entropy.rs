//! Entropy accounting in exact integer arithmetic.
//!
//! Drawing `k` distinct words from a list of `n` words gives `k * log2(n)` bits.
//! That reaches a target of `bits` exactly when `n^k >= 2^bits`, so the number of
//! words needed, `ceil(bits / log2(n))`, is the least `k` with `n^k >= 2^bits`.
//! Powers of `n` are computed exactly, as little-endian vectors of 64-bit limbs.
use vstd::prelude::*;
use vstd::arithmetic::power::pow;
use vstd::arithmetic::power::lemma_pow0;
use vstd::arithmetic::power::lemma_pow1;
use vstd::arithmetic::power::lemma_pow_positive;
use vstd::arithmetic::power2::pow2;
use vstd::arithmetic::power2::lemma_pow2_unfold;
use vstd::arithmetic::power2::lemma_pow2_adds;
use vstd::arithmetic::power2::lemma_pow2_strictly_increases;
use vstd::arithmetic::power2::lemma2_to64;
use vstd::arithmetic::power2::lemma_pow2_pos;

verus! {

/// The number denoted by little-endian 64-bit limbs.
pub open spec fn limbs_value(d: Seq<u64>) -> nat
    decreases d.len(),
{
    if d.len() == 0 {
        0
    } else {
        limbs_value(d.drop_last()) + (d.last() as nat) * pow2((64 * (d.len() - 1)) as nat)
    }
}

/// The highest limb, if there is one, is not zero.
pub open spec fn is_trimmed(d: Seq<u64>) -> bool {
    d.len() > 0 ==> d.last() != 0
}

/// `k` words drawn from a list of `n` give at least `bits` bits of entropy:
/// `k * log2(n) >= bits`, that is `n^k >= 2^bits`.
pub open spec fn covers(n: nat, k: nat, bits: nat) -> bool {
    pow(n as int, k) >= pow2(bits)
}

/// `k` is the word count for a list of `n` words and a target of `bits` bits:
/// the least count that covers the target (`ceil(bits / log2(n))`), clamped to `n`.
pub open spec fn is_word_count(n: nat, bits: nat, k: nat) -> bool {
    &&& k <= n
    &&& (k == n || covers(n, k, bits))
    &&& forall|j: nat| j < k ==> !covers(n, j, bits)
}

proof fn lemma_limbs_below(d: Seq<u64>)
    ensures
        limbs_value(d) < pow2((64 * d.len()) as nat),
    decreases d.len(),
{
    if d.len() == 0 {
        lemma_pow0(2);
    } else {
        lemma_limbs_below(d.drop_last());
        lemma2_to64();
        let e = (64 * (d.len() - 1)) as nat;
        assert(64 + e == 64 * d.len()) by (nonlinear_arith)
            requires
                e == 64 * (d.len() - 1),
                d.len() >= 1,
        ;
        lemma_pow2_adds(64, e);
        let v = limbs_value(d.drop_last()) as int;
        let t = d.last() as int;
        let p = pow2(e) as int;
        assert(t * p <= 0xffff_ffff_ffff_ffff * p) by (nonlinear_arith)
            requires
                0 <= t <= 0xffff_ffff_ffff_ffff,
                p >= 0,
        ;
    }
}

/// A number below `2^d` has its `j`-th power below `2^(d*j)`.
proof fn lemma_pow_below(n: nat, d: nat, j: nat)
    requires
        1 <= n < pow2(d),
        j >= 1,
    ensures
        pow(n as int, j) < pow2(d * j),
    decreases j,
{
    if j == 1 {
        lemma_pow1(n as int);
        assert(d * 1 == d);
    } else {
        lemma_pow_below(n, d, (j - 1) as nat);
        reveal(pow);
        assert(pow(n as int, j) == n * pow(n as int, (j - 1) as nat));
        assert(d + d * (j - 1) == d * j) by (nonlinear_arith);
        lemma_pow2_adds(d, d * (j - 1) as nat);
        lemma_pow_positive(n as int, (j - 1) as nat);
        let x = pow(n as int, (j - 1) as nat);
        let y = pow2(d * (j - 1) as nat) as int;
        let p = pow2(d) as int;
        assert(n * x < p * y) by (nonlinear_arith)
            requires
                1 <= n < p,
                1 <= x < y,
        ;
    }
}

/// The number of binary digits of `n`; in particular `n < 2^d`.
fn digit_count(n: usize) -> (d: u64)
    ensures
        n < pow2(d as nat),
        d <= 64,
{
    let mut m: usize = n;
    let mut d: u64 = 0;
    proof {
        lemma_pow0(2);
        assert(pow2(0) == 1);
        assert(n < (m + 1) * 1);
        assert(1 * m <= n);
    }
    while m > 0
        invariant
            n < (m + 1) * pow2(d as nat),
            pow2(d as nat) * m <= n,
            d <= 64,
        decreases m,
    {
        let ghost p = pow2(d as nat) as int;
        proof {
            lemma_pow2_unfold((d + 1) as nat);
            assert(p <= n) by (nonlinear_arith)
                requires
                    p * m <= n,
                    m >= 1,
                    p >= 0,
            ;
            if d >= 64 {
                lemma2_to64();
                if d > 64 {
                    lemma_pow2_strictly_increases(64, d as nat);
                }
            }
        }
        let half = m / 2;
        assert((half + 1) * (2 * p) >= (m + 1) * p && (2 * p) * half <= p * m) by (nonlinear_arith)
            requires
                half == m / 2,
                p >= 0,
        ;
        m = half;
        d = d + 1;
    }
    assert((m + 1) * pow2(d as nat) == pow2(d as nat)) by (nonlinear_arith)
        requires
            m == 0,
    ;
    d
}

/// Multiplies a number in limbs by `n`.
fn times(a: &Vec<u64>, n: usize) -> (r: Vec<u64>)
    ensures
        limbs_value(r@) == n * limbs_value(a@),
        is_trimmed(r@),
{
    let mut out: Vec<u64> = Vec::new();
    let mut carry: u128 = 0;
    let mut i: usize = 0;
    proof {
        lemma2_to64();
        lemma_pow0(2);
    }
    assert(a@.subrange(0, 0) =~= Seq::<u64>::empty());
    assert(out@ =~= Seq::<u64>::empty());
    assert(limbs_value(Seq::<u64>::empty()) == 0);
    while i < a.len()
        invariant
            i <= a.len(),
            out.len() == i,
            carry <= 0xffff_ffff_ffff_ffff,
            pow2(64) == 0x1_0000_0000_0000_0000,
            limbs_value(out@) + carry * pow2((64 * i) as nat) == n * limbs_value(
                a@.subrange(0, i as int),
            ),
        decreases a.len() - i,
    {
        assert((a[i as int] as u128) * (n as u128) + carry <= 0xffff_ffff_ffff_ffff_ffff_ffff_ffff_ffff)
            by (nonlinear_arith)
            requires
                a[i as int] <= 0xffff_ffff_ffff_ffff,
                n <= 0xffff_ffff_ffff_ffff,
                carry <= 0xffff_ffff_ffff_ffff,
        ;
        let t: u128 = (a[i] as u128) * (n as u128) + carry;
        let lo: u64 = (t % 0x1_0000_0000_0000_0000) as u64;
        let ghost v = limbs_value(out@) as int;
        let ghost c = carry as int;
        let ghost e = (64 * i) as nat;
        let ghost p = pow2(e) as int;
        let ghost ai = a[i as int] as int;
        let ghost ap = limbs_value(a@.subrange(0, i as int)) as int;
        let ghost before = out@;
        out.push(lo);
        carry = t / 0x1_0000_0000_0000_0000;
        i = i + 1;
        proof {
            assert(out@.drop_last() =~= before);
            assert(a@.subrange(0, i as int).drop_last() =~= a@.subrange(0, i - 1));
            assert(64 + e == 64 * i);
            lemma_pow2_adds(64, e);
            assert(limbs_value(out@) == v + (lo as int) * p);
            assert(limbs_value(a@.subrange(0, i as int)) == ap + ai * p);
            assert((lo as int) + 0x1_0000_0000_0000_0000 * (carry as int) == t);
            assert(v + (lo as int) * p + (carry as int) * (0x1_0000_0000_0000_0000 * p) == n * (ap
                + ai * p)) by (nonlinear_arith)
                requires
                    v + c * p == n * ap,
                    t == ai * n + c,
                    (lo as int) + 0x1_0000_0000_0000_0000 * (carry as int) == t,
            ;
        }
    }
    assert(a@.subrange(0, a.len() as int) =~= a@);
    if carry > 0 {
        let ghost before = out@;
        out.push(carry as u64);
        assert(out@.drop_last() =~= before);
    }
    while out.len() > 0 && out[out.len() - 1] == 0
        invariant
            limbs_value(out@) == n * limbs_value(a@),
        decreases out.len(),
    {
        let ghost before = out@;
        out.pop();
        assert(out@ =~= before.drop_last());
    }
    out
}

/// `2^r` for `r` below 64.
fn power_of_two(r: u32) -> (p: u64)
    requires
        r < 64,
    ensures
        p == pow2(r as nat),
{
    let mut p: u64 = 1;
    let mut j: u32 = 0;
    proof {
        lemma_pow0(2);
        lemma2_to64();
    }
    while j < r
        invariant
            j <= r < 64,
            p == pow2(j as nat),
            pow2(64) == 0x1_0000_0000_0000_0000,
        decreases r - j,
    {
        proof {
            lemma_pow2_unfold((j + 1) as nat);
            lemma_pow2_strictly_increases((j + 1) as nat, 64);
        }
        p = p * 2;
        j = j + 1;
    }
    p
}

/// Whether a number in trimmed limbs is at least `2^bits`.
fn reaches(d: &Vec<u64>, bits: u32) -> (r: bool)
    requires
        is_trimmed(d@),
    ensures
        r == (limbs_value(d@) >= pow2(bits as nat)),
{
    let len = d.len();
    if len == 0 {
        proof {
            lemma_pow2_pos(bits as nat);
        }
        return false;
    }
    let base: u128 = 64 * (len as u128 - 1);
    let ghost top = d@.last() as int;
    let ghost p = pow2(base as nat) as int;
    proof {
        lemma_limbs_below(d@);
        assert(limbs_value(d@) == limbs_value(d@.drop_last()) + top * p);
        lemma_limbs_below(d@.drop_last());
        assert(top * p <= limbs_value(d@) < (top + 1) * p) by (nonlinear_arith)
            requires
                limbs_value(d@) == limbs_value(d@.drop_last()) + top * p,
                limbs_value(d@.drop_last()) < p,
        ;
    }
    if bits as u128 >= base + 64 {
        proof {
            assert(base + 64 == 64 * len);
            if bits > base + 64 {
                lemma_pow2_strictly_increases((base + 64) as nat, bits as nat);
            }
        }
        return false;
    }
    if (bits as u128) < base {
        proof {
            lemma_pow2_strictly_increases(bits as nat, base as nat);
            assert(top * p >= p) by (nonlinear_arith)
                requires
                    top >= 1,
                    p >= 0,
            ;
        }
        return true;
    }
    let r = (bits as u128 - base) as u32;
    let q = power_of_two(r);
    proof {
        lemma_pow2_adds(r as nat, base as nat);
        assert(pow2(bits as nat) == (q as int) * p);
        assert(top >= q ==> top * p >= (q as int) * p) by (nonlinear_arith)
            requires
                p >= 0,
        ;
        assert(top < q ==> (top + 1) * p <= (q as int) * p) by (nonlinear_arith)
            requires
                p >= 0,
        ;
    }
    d[len - 1] >= q
}

/// Number of distinct words to draw from a list of `n` words so that the draw
/// holds at least `bits` bits of entropy, clamped to `n`.
pub fn word_count(n: usize, bits: u32) -> (k: usize)
    ensures
        is_word_count(n as nat, bits as nat, k as nat),
{
    if bits > 0 && n > 0 {
        // No count below n reaches the target when (n - 1) * digits(n) <= bits:
        // the whole list is drawn without computing any power.
        let d = digit_count(n);
        assert((n as u128 - 1) * (d as u128) <= 0xffff_ffff_ffff_ffff * 64) by (nonlinear_arith)
            requires
                n as u128 - 1 <= 0xffff_ffff_ffff_ffff,
                d <= 64,
        ;
        if (n as u128 - 1) * (d as u128) <= bits as u128 {
            proof {
                assert(d * (n - 1) == (n - 1) * d) by (nonlinear_arith);
                assert forall|j: nat| j < n implies !covers(n as nat, j, bits as nat) by {
                    if j == 0 {
                        lemma_pow0(n as int);
                        lemma_pow0(2);
                        lemma_pow2_strictly_increases(0, bits as nat);
                    } else {
                        lemma_pow_below(n as nat, d as nat, j);
                        assert(d * j <= d * (n - 1)) by (nonlinear_arith)
                            requires
                                j <= n - 1,
                        ;
                        if d * j < bits {
                            lemma_pow2_strictly_increases((d * j) as nat, bits as nat);
                        }
                        assert(pow2((d * j) as nat) <= pow2(bits as nat));
                        assert(pow(n as int, j) < pow2(bits as nat));
                    }
                }
            }
            return n;
        }
    }
    let mut power: Vec<u64> = vec![1];
    let mut k: usize = 0;
    proof {
        lemma_pow0(2);
        lemma_pow0(n as int);
        assert(power@ =~= seq![1u64]);
        assert(power@.drop_last() =~= Seq::<u64>::empty());
        assert(limbs_value(power@) == limbs_value(Seq::<u64>::empty()) + 1 * pow2(0));
    }
    while k < n && !reaches(&power, bits)
        invariant
            k <= n,
            is_trimmed(power@),
            limbs_value(power@) == pow(n as int, k as nat),
            forall|j: nat| j < k ==> !covers(n as nat, j, bits as nat),
        decreases n - k,
    {
        power = times(&power, n);
        proof {
            reveal(pow);
            assert(pow(n as int, (k + 1) as nat) == n * pow(n as int, k as nat));
        }
        k = k + 1;
    }
    k
}

} // verus!
