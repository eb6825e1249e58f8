//! Binary significand arithmetic: base-2 logarithm, powers of two, and
//! round-to-nearest-even scaling of an unbounded significand.

use vstd::prelude::*;
use vstd::arithmetic::div_mod::{
    lemma_fundamental_div_mod, lemma_fundamental_div_mod_converse_div,
    lemma_fundamental_div_mod_converse_mod,
};
use vstd::arithmetic::mul::{
    lemma_mul_inequality, lemma_mul_is_distributive_add, lemma_mul_is_distributive_sub,
    lemma_mul_strict_inequality,
};
use vstd::arithmetic::power2::{
    lemma2_to64, lemma_pow2_adds, lemma_pow2_pos, lemma_pow2_strictly_increases,
    lemma_pow2_unfold, pow2,
};

verus! {

/// Floor of the base-2 logarithm. `log2(0)` is defined as 0.
pub open spec fn log2(n: nat) -> nat
    decreases n,
{
    if n <= 1 {
        0
    } else {
        log2(n / 2) + 1
    }
}

/// For positive `n`, `log2(n)` is the position of the most significant set bit.
pub proof fn lemma_log2_bounds(n: nat)
    requires
        n >= 1,
    ensures
        pow2(log2(n)) <= n < pow2(log2(n) + 1),
    decreases n,
{
    lemma2_to64();
    if n > 1 {
        lemma_log2_bounds(n / 2);
        lemma_pow2_unfold(log2(n));
        lemma_pow2_unfold(log2(n) + 1);
        lemma_fundamental_div_mod(n as int, 2);
    }
}

/// The bounds `pow2(k) <= n < pow2(k + 1)` determine `log2(n)`.
pub proof fn lemma_log2_unique(n: nat, k: nat)
    requires
        pow2(k) <= n < pow2(k + 1),
    ensures
        log2(n) == k,
{
    lemma_pow2_pos(k);
    lemma_log2_bounds(n);
    let l = log2(n);
    if l < k {
        lemma_pow2_strictly_increases(l + 1, k + 1);
        if l + 1 < k {
            lemma_pow2_strictly_increases(l + 1, k);
        }
        assert(pow2(l + 1) <= pow2(k));
        assert(false);
    }
    if l > k {
        if k + 1 < l {
            lemma_pow2_strictly_increases(k + 1, l);
        }
        assert(pow2(k + 1) <= pow2(l));
        assert(false);
    }
}

/// Appending `t` lower-order bits below a positive significand shifts its
/// most significant bit up by exactly `t`.
pub proof fn lemma_log2_scale(a: nat, t: nat, r: nat)
    requires
        a >= 1,
        r < pow2(t),
    ensures
        log2(a * pow2(t) + r) == log2(a) + t,
{
    let l = log2(a);
    lemma_log2_bounds(a);
    lemma_pow2_adds(l, t);
    lemma_pow2_adds(l + 1, t);
    lemma_mul_inequality(pow2(l) as int, a as int, pow2(t) as int);
    assert(pow2(l) * pow2(t) <= a * pow2(t));
    lemma_mul_inequality((a + 1) as int, pow2(l + 1) as int, pow2(t) as int);
    lemma_mul_is_distributive_add((pow2(t)) as int, a as int, 1);
    assert((a + 1) * pow2(t) == a * pow2(t) + pow2(t)) by {
        lemma_mul_is_distributive_add(pow2(t) as int, a as int, 1);
        vstd::arithmetic::mul::lemma_mul_is_commutative((a + 1) as int, pow2(t) as int);
        vstd::arithmetic::mul::lemma_mul_is_commutative(a as int, pow2(t) as int);
    }
    assert(a * pow2(t) + r < (a + 1) * pow2(t));
    assert((a + 1) * pow2(t) <= pow2(l + 1) * pow2(t));
    lemma_log2_unique(a * pow2(t) + r, l + t);
}

/// A value below `2^k` has its most significant bit below position `k`.
pub proof fn lemma_log2_lt(n: nat, k: nat)
    requires
        1 <= n < pow2(k),
    ensures
        log2(n) < k,
{
    lemma_log2_bounds(n);
    if log2(n) >= k {
        if k < log2(n) {
            lemma_pow2_strictly_increases(k, log2(n));
        }
        assert(false);
    }
}

/// A value at or above `2^k` has its most significant bit at or above `k`.
pub proof fn lemma_log2_ge(n: nat, k: nat)
    requires
        pow2(k) <= n,
    ensures
        log2(n) >= k,
{
    lemma_pow2_pos(k);
    lemma_log2_bounds(n);
    if log2(n) < k {
        if log2(n) + 1 < k {
            lemma_pow2_strictly_increases(log2(n) + 1, k);
        }
        assert(false);
    }
}

/// Round `m / 2^sh` to the nearest integer, ties to even. A non-positive
/// `sh` scales up exactly.
pub open spec fn rne(m: nat, sh: int) -> nat {
    if sh <= 0 {
        m * pow2((-sh) as nat)
    } else {
        let p = pow2(sh as nat);
        let q = m / p;
        let r = m % p;
        if 2 * r > p || (2 * r == p && q % 2 == 1) {
            (q + 1) as nat
        } else {
            q
        }
    }
}

/// A significand whose discarded bits are exactly half the weight of the
/// least retained bit rounds to an even result: the tie goes to the even
/// neighbour, never always up. The parser's contract rounds every literal
/// through `rne`, so this is the tie-break rule of parsing itself.
pub proof fn lemma_rne_tie_is_even(m: nat, sh: int)
    requires
        sh >= 1,
        2 * (m % pow2(sh as nat)) == pow2(sh as nat),
    ensures
        rne(m, sh) % 2 == 0,
{
    let p = pow2(sh as nat);
    lemma_pow2_pos(sh as nat);
    let q = m / p;
    assert(2 * (m % p) == p);
    assert(!(2 * (m % p) > p));
    if q % 2 == 1 {
        assert(rne(m, sh) == q + 1);
        assert((q + 1) % 2 == 0) by {
            lemma_fundamental_div_mod(q as int, 2);
        }
    } else {
        assert(rne(m, sh) == q);
    }
}

/// Rounding a significand split as `mant * 2^t + r` (with `r` occupying the
/// low `t` bits) at a cut `s + t` depends on `r` only through whether it is
/// zero: the guard and tie positions lie inside `mant`.
pub proof fn lemma_rne_split(mant: nat, t: nat, r: nat, s: nat)
    requires
        r < pow2(t),
        s >= 1,
    ensures
        rne(mant * pow2(t) + r, s as int + t) == ({
            let p = pow2(s);
            let kept = mant / p;
            let x = mant % p;
            if 2 * x > p || (2 * x == p && (r != 0 || kept % 2 == 1)) {
                (kept + 1) as nat
            } else {
                kept
            }
        }),
{
    let p = pow2(s);
    let pt = pow2(t);
    let pst = pow2(s + t);
    lemma_pow2_pos(s);
    lemma_pow2_pos(t);
    lemma_pow2_adds(s, t);
    assert(pst == p * pt);
    let kept = mant / p;
    let x = mant % p;
    lemma_fundamental_div_mod(mant as int, p as int);
    assert(mant == p * kept + x);
    let bigm = mant * pow2(t) + r;
    let bigr = x * pt + r;
    // bigm == kept * pst + bigr
    assert(mant * pt == (p * kept + x) * pt);
    assert((p * kept + x) * pt == (p * kept) * pt + x * pt) by {
        lemma_mul_is_distributive_add(pt as int, (p * kept) as int, x as int);
        vstd::arithmetic::mul::lemma_mul_is_commutative((p * kept + x) as int, pt as int);
        vstd::arithmetic::mul::lemma_mul_is_commutative((p * kept) as int, pt as int);
        vstd::arithmetic::mul::lemma_mul_is_commutative(x as int, pt as int);
    }
    assert((p * kept) * pt == kept * (p * pt)) by {
        vstd::arithmetic::mul::lemma_mul_is_associative(p as int, kept as int, pt as int);
        vstd::arithmetic::mul::lemma_mul_is_commutative(p as int, kept as int);
        vstd::arithmetic::mul::lemma_mul_is_associative(kept as int, p as int, pt as int);
    }
    assert(bigm == kept * pst + bigr);
    // 0 <= bigr < pst
    assert(x * pt <= (p - 1) * pt) by {
        lemma_mul_inequality(x as int, (p - 1) as int, pt as int);
    }
    assert((p - 1) * pt == p * pt - pt) by {
        lemma_mul_is_distributive_sub(pt as int, p as int, 1);
        vstd::arithmetic::mul::lemma_mul_is_commutative((p - 1) as int, pt as int);
        vstd::arithmetic::mul::lemma_mul_is_commutative(p as int, pt as int);
    }
    assert(bigr < pst);
    lemma_fundamental_div_mod_converse_div(bigm as int, pst as int, kept as int, bigr as int);
    lemma_fundamental_div_mod_converse_mod(bigm as int, pst as int, kept as int, bigr as int);
    assert(bigm / pst == kept);
    assert(bigm % pst == bigr);
    // Relate the rounding decision on bigr to the one on x and (r != 0).
    assert(2 * bigr == (2 * x) * pt + 2 * r) by {
        lemma_mul_is_distributive_add(pt as int, x as int, x as int);
        vstd::arithmetic::mul::lemma_mul_is_commutative(x as int, pt as int);
        vstd::arithmetic::mul::lemma_mul_is_commutative((2 * x) as int, pt as int);
    }
    if 2 * x > p {
        assert((p + 1) * pt <= (2 * x) * pt) by {
            lemma_mul_inequality((p + 1) as int, (2 * x) as int, pt as int);
        }
        assert((p + 1) * pt == p * pt + pt) by {
            lemma_mul_is_distributive_add(pt as int, p as int, 1);
            vstd::arithmetic::mul::lemma_mul_is_commutative((p + 1) as int, pt as int);
            vstd::arithmetic::mul::lemma_mul_is_commutative(p as int, pt as int);
        }
        assert(2 * bigr > pst);
    } else if 2 * x == p {
        assert(2 * bigr == pst + 2 * r);
        if r != 0 {
            assert(2 * bigr > pst);
        } else {
            assert(2 * bigr == pst);
        }
    } else {
        // p is even (s >= 1) and 2x is even, so 2x < p forces 2x <= p - 2.
        lemma_pow2_unfold(s);
        assert(p == 2 * pow2((s - 1) as nat));
        assert(2 * x <= p - 2);
        assert((2 * x) * pt <= (p - 2) * pt) by {
            lemma_mul_inequality((2 * x) as int, (p - 2) as int, pt as int);
        }
        assert((p - 2) * pt == p * pt - 2 * pt) by {
            lemma_mul_is_distributive_sub(pt as int, p as int, 2);
            vstd::arithmetic::mul::lemma_mul_is_commutative((p - 2) as int, pt as int);
            vstd::arithmetic::mul::lemma_mul_is_commutative(p as int, pt as int);
        }
        assert(2 * bigr <= p * pt - 2 * pt + 2 * r);
        assert(2 * bigr < pst);
    }
}

/// `2^k` as a machine word.
pub fn pow2_u64(k: u64) -> (r: u64)
    requires
        k <= 63,
    ensures
        r as nat == pow2(k as nat),
{
    let mut i: u64 = 0;
    let mut r: u64 = 1;
    proof {
        lemma2_to64();
    }
    while i < k
        invariant
            i <= k,
            k <= 63,
            r as nat == pow2(i as nat),
        decreases k - i,
    {
        proof {
            lemma_pow2_unfold(i as nat + 1);
            if (i as nat) < 63 {
                lemma_pow2_strictly_increases(i as nat, 63);
                lemma2_to64_more();
            }
        }
        r = r * 2;
        i = i + 1;
    }
    r
}

/// Concrete powers of two above the range `lemma2_to64` covers.
pub proof fn lemma2_to64_more()
    ensures
        pow2(63) == 0x8000000000000000,
        pow2(64) == 0x10000000000000000,
{
    lemma2_to64();
    lemma_pow2_adds(32, 31);
    lemma_pow2_adds(32, 32);
}

} // verus!
