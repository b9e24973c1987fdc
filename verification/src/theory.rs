//! The arithmetic facts behind the composing division algorithms, stated
//! over unbounded integers so that every width instantiates them.

use crate::bits::{lemma_div_bound_u, lemma_div_lower_u, lemma_div_mul_le};
use vstd::arithmetic::div_mod::*;
use vstd::arithmetic::mul::*;
use vstd::arithmetic::power2::*;
use vstd::prelude::*;

verus! {

/// Schoolbook short division: dividing a three-limb dividend limb by limb
/// by a one-limb divisor, carrying each remainder into the next limb,
/// produces the quotient and remainder of the whole dividend.
///
/// `b` is the limb base, `hi` the wide top limb and `mid`, `lo` the two
/// lower limbs; `q2, r2`, `q1, r1`, `q0, r0` are the per-limb quotients and
/// remainders.
pub proof fn lemma_short_division(
    hi: int,
    mid: int,
    lo: int,
    d: int,
    b: int,
    q2: int,
    r2: int,
    q1: int,
    r1: int,
    q0: int,
    r0: int,
)
    requires
        0 < d < b,
        0 <= hi,
        0 <= mid < b,
        0 <= lo < b,
        hi == d * q2 + r2,
        0 <= r2 < d,
        r2 * b + mid == d * q1 + r1,
        0 <= r1 < d,
        r1 * b + lo == d * q0 + r0,
        0 <= r0 < d,
    ensures
        0 <= q1 < b,
        0 <= q0 < b,
        0 <= q2,
        (hi * b + mid) * b + lo == d * ((q2 * b + q1) * b + q0) + r0,
{
    assert(0 <= q2) by (nonlinear_arith)
        requires
            0 < d,
            0 <= hi,
            hi == d * q2 + r2,
            r2 < d,
    ;
    assert(0 <= q1 && d * q1 <= d * b - 1) by (nonlinear_arith)
        requires
            0 < d < b,
            0 <= mid < b,
            0 <= r2 < d,
            r2 * b + mid == d * q1 + r1,
            0 <= r1 < d,
    ;
    assert(q1 < b) by (nonlinear_arith)
        requires
            0 < d,
            d * q1 <= d * b - 1,
    ;
    assert(0 <= q0 && d * q0 <= d * b - 1) by (nonlinear_arith)
        requires
            0 < d < b,
            0 <= lo < b,
            0 <= r1 < d,
            r1 * b + lo == d * q0 + r0,
            0 <= r0 < d,
    ;
    assert(q0 < b) by (nonlinear_arith)
        requires
            0 < d,
            d * q0 <= d * b - 1,
    ;
    assert((hi * b + mid) * b + lo == d * ((q2 * b + q1) * b + q0) + r0) by (nonlinear_arith)
        requires
            hi == d * q2 + r2,
            r2 * b + mid == d * q1 + r1,
            r1 * b + lo == d * q0 + r0,
    ;
}

/// The "mul or mul - 1" bound: estimating a quotient from the dividend and
/// divisor truncated by the same power of two can only overshoot the true
/// quotient, and by at most one.
///
/// `s` is the truncation unit, `big_u` and `big_d` the truncated operands,
/// and `m` the estimate; the side condition `m <= big_d + 1` is what the
/// algorithms' magnitude gap guarantees.
pub proof fn lemma_mul_or_mul_minus_one(u: int, d: int, s: int, big_u: int, big_d: int, m: int)
    requires
        0 < s,
        0 < d,
        0 <= u,
        big_u == u / s,
        big_d == d / s,
        0 < big_d,
        m == big_u / big_d,
        m <= big_d + 1,
    ensures
        m - 1 <= u / d <= m,
{
    let q = u / d;
    lemma_div_mul_le(u, d);
    lemma_div_mul_le(u, s);
    lemma_div_mul_le(d, s);
    lemma_div_mul_le(big_u, big_d);
    lemma_div_pos_is_pos(u, d);
    lemma_div_pos_is_pos(u, s);
    // upper bound: q * big_d * s <= q * d <= u < (big_u + 1) * s
    assert(q * (big_d * s) <= q * d) by (nonlinear_arith)
        requires
            0 <= q,
            big_d * s <= d,
    ;
    assert(q * (big_d * s) == (q * big_d) * s) by (nonlinear_arith);
    assert((q * big_d) * s < (big_u + 1) * s ==> q * big_d < big_u + 1) by (nonlinear_arith)
        requires
            0 < s,
    ;
    assert(big_d * q <= big_u) by (nonlinear_arith)
        requires
            q * big_d <= big_u,
    ;
    lemma_div_lower_u(big_u, big_d, q);
    // lower bound: (m - 1) * d < (m - 1) * (big_d + 1) * s <= big_u * s <= u
    if m >= 1 {
        assert((m - 1) * (big_d + 1) <= big_u) by (nonlinear_arith)
            requires
                big_d * m <= big_u,
                m <= big_d + 1,
                1 <= m,
        ;
        assert((m - 1) * d <= (m - 1) * ((big_d + 1) * s)) by (nonlinear_arith)
            requires
                0 <= m - 1,
                d < (big_d + 1) * s,
        ;
        assert((m - 1) * ((big_d + 1) * s) == ((m - 1) * (big_d + 1)) * s) by (nonlinear_arith);
        assert(((m - 1) * (big_d + 1)) * s <= big_u * s) by (nonlinear_arith)
            requires
                (m - 1) * (big_d + 1) <= big_u,
                0 < s,
        ;
        lemma_div_lower_u(u, d, m - 1);
    }
}

/// Dropping the low bits of the divisor (an "undersized" divisor `d - r`)
/// lets the estimated quotient exceed the true one by at most one, as long
/// as the dropped part is small against the divisor's square.
pub proof fn lemma_estimate_quotient(u: int, d: int, r: int, q: int)
    requires
        0 <= r,
        r < d,
        0 <= u,
        q == u / d,
        r * (u + 2 * d) <= d * d,
    ensures
        q <= u / (d - r),
        u / (d - r) <= q + 1,
{
    lemma_div_is_ordered_by_denominator(u, d - r, d);
    lemma_div_mul_le(u, d);
    lemma_div_pos_is_pos(u, d);
    if r > 0 {
        // (q + 1) * r <= d - r, because (q + 1) * d <= u + d and
        // r * (u + d) <= d * (d - r)
        assert(r * (u + d) <= d * (d - r)) by (nonlinear_arith)
            requires
                r * (u + 2 * d) <= d * d,
        ;
        assert((q + 1) * d <= u + d) by (nonlinear_arith)
            requires
                q * d <= u,
        ;
        assert(((q + 1) * r) * d == (q + 1) * d * r) by (nonlinear_arith);
        assert((q + 1) * d * r <= (u + d) * r) by (nonlinear_arith)
            requires
                (q + 1) * d <= u + d,
                0 <= r,
        ;
        assert((u + d) * r <= d * (d - r)) by (nonlinear_arith)
            requires
                r * (u + d) <= d * (d - r),
        ;
        assert(d * (d - r) == (d - r) * d) by (nonlinear_arith);
        assert(((q + 1) * r) * d <= (d - r) * d ==> (q + 1) * r <= d - r) by (nonlinear_arith)
            requires
                0 < d,
        ;
        // so u < (q + 2) * (d - r)
        assert(u < (q + 2) * (d - r)) by (nonlinear_arith)
            requires
                u < (q + 1) * d,
                d == (d - r) + r,
                (q + 1) * r <= d - r,
                0 <= q,
        ;
        lemma_div_bound_u(u, d - r, q + 2);
    } else {
        assert(u / (d - r) == q);
    }
}

/// Establishes the side condition of `lemma_estimate_quotient` for a
/// divisor with its top bit in position `n + k - 1` and a dividend of at
/// most `2n` bits, where `r` is the part of the divisor below bit `k`.
pub proof fn lemma_estimate_hypothesis(u: int, d: int, k: nat, n: nat)
    requires
        4 <= n,
        1 <= k <= n,
        pow2((n + k - 1) as nat) <= d,
        d < pow2((n + k) as nat),
        0 <= u,
        u < pow2(2 * n),
    ensures
        (d % pow2(k) as int) * (u + 2 * d) <= d * d,
{
    let r = d % pow2(k) as int;
    lemma_pow2_pos(k);
    lemma_pow2_pos(n);
    lemma_pow2_pos((n + k - 1) as nat);
    lemma_mod_bound(d, pow2(k) as int);
    lemma2_to64();
    if r == 0 {
        assert(0 * (u + 2 * d) == 0) by (nonlinear_arith);
        assert(0 <= d * d) by (nonlinear_arith);
    } else if k == 1 {
        // the divisor is odd and at least pow2(n) + 1
        lemma_pow2_unfold(n);
        assert(r == 1);
        assert(pow2(n) % 2 == 0) by (nonlinear_arith)
            requires
                pow2(n) == 2 * pow2((n - 1) as nat),
        ;
        lemma_mod_multiples_basic(pow2((n - 1) as nat) as int, 2);
        if d == pow2(n) {
            assert(d % 2 == 0);
            assert(false);
        }
        lemma_pow2_adds(n, n);
        assert((pow2(n) + 1) * (pow2(n) - 1) == pow2(n) * pow2(n) - 1) by (nonlinear_arith);
        assert(d * (d - 2) >= (pow2(n) + 1) * (pow2(n) - 1)) by (nonlinear_arith)
            requires
                d >= pow2(n) + 1,
                pow2(n) >= 2,
        ;
        assert(1 * (u + 2 * d) == u + 2 * d) by (nonlinear_arith);
        assert(d * (d - 2) == d * d - 2 * d) by (nonlinear_arith);
    } else if k == 2 {
        // r is at most 3 and the divisor is at least pow2(n + 1)
        assert(r <= 3);
        lemma_pow2_adds(n, n);
        assert(pow2(2 * n) == pow2(n) * pow2(n));
        lemma_pow2_unfold((n + 1) as nat);
        assert(pow2((n + 1) as nat) >= 7) by {
            lemma_pow2_strictly_increases(3, (n + 1) as nat);
        }
        assert(pow2(n) >= 16) by {
            if n > 4 {
                lemma_pow2_strictly_increases(4, n);
            }
        }
        assert(d < pow2(2 * n)) by {
            lemma_pow2_strictly_increases((n + k) as nat, 2 * n);
        }
        assert(pow2(n) * pow2(n) >= 16 * pow2(n)) by (nonlinear_arith)
            requires
                pow2(n) >= 16,
        ;
        assert(d * (d - 6) >= pow2((n + 1) as nat) * (pow2((n + 1) as nat) - 6))
            by (nonlinear_arith)
            requires
                d >= pow2((n + 1) as nat),
                pow2((n + 1) as nat) >= 7,
        ;
        assert(pow2((n + 1) as nat) * (pow2((n + 1) as nat) - 6) == 4 * (pow2(n) * pow2(n)) - 6
            * pow2((n + 1) as nat)) by (nonlinear_arith)
            requires
                pow2((n + 1) as nat) == 2 * pow2(n),
        ;
        assert(r * (u + 2 * d) <= 3 * u + 6 * d) by (nonlinear_arith)
            requires
                0 <= r <= 3,
                0 <= u,
                0 < d,
        ;
        assert(3 * u + 6 * d <= d * d) by (nonlinear_arith)
            requires
                u < pow2(n) * pow2(n),
                d * (d - 6) >= 4 * (pow2(n) * pow2(n)) - 6 * pow2((n + 1) as nat),
                pow2(n) * pow2(n) >= 16 * pow2(n),
                pow2((n + 1) as nat) == 2 * pow2(n),
                d < pow2(n) * pow2(n),
                pow2(n) >= 16,
        ;
    } else {
        // k >= 3: r * (u + 2d) < pow2(k) * (pow2(2n) + pow2(n + k + 1))
        //                      <= pow2(2n + 2k - 2) <= d * d
        lemma_pow2_adds(k, 2 * n);
        lemma_pow2_adds(k, (n + k + 1) as nat);
        lemma_pow2_adds((n + k) as nat, 1);
        lemma_pow2_adds((n + k - 1) as nat, (n + k - 1) as nat);
        if 2 * n + k < 2 * n + 2 * k - 3 {
            lemma_pow2_strictly_increases((2 * n + k) as nat, (2 * n + 2 * k - 3) as nat);
        }
        if n + 2 * k + 1 < 2 * n + 2 * k - 3 {
            lemma_pow2_strictly_increases((n + 2 * k + 1) as nat, (2 * n + 2 * k - 3) as nat);
        }
        lemma_pow2_adds((2 * n + 2 * k - 3) as nat, 1);
        assert(r * (u + 2 * d) <= pow2(k) * (u + 2 * d)) by (nonlinear_arith)
            requires
                0 <= r,
                r < pow2(k),
                0 <= u,
                0 < d,
        ;
        assert(2 * d < pow2((n + k + 1) as nat)) by {
            lemma_pow2_adds((n + k) as nat, 1);
            lemma2_to64();
        }
        assert(pow2(k) * (u + 2 * d) < pow2(k) * (pow2(2 * n) + pow2((n + k + 1) as nat)))
            by (nonlinear_arith)
            requires
                0 < pow2(k),
                u + 2 * d < pow2(2 * n) + pow2((n + k + 1) as nat),
        ;
        assert(pow2(k) * (pow2(2 * n) + pow2((n + k + 1) as nat)) == pow2((2 * n + k) as nat)
            + pow2((n + 2 * k + 1) as nat)) by (nonlinear_arith)
            requires
                pow2(k) * pow2(2 * n) == pow2((2 * n + k) as nat),
                pow2(k) * pow2((n + k + 1) as nat) == pow2((n + 2 * k + 1) as nat),
        ;
        assert(pow2((2 * n + k) as nat) + pow2((n + 2 * k + 1) as nat) <= pow2(
            (2 * n + 2 * k - 2) as nat,
        ));
        assert(d * d >= pow2((n + k - 1) as nat) * pow2((n + k - 1) as nat)) by (nonlinear_arith)
            requires
                d >= pow2((n + k - 1) as nat),
                pow2((n + k - 1) as nat) > 0,
        ;
        assert(pow2((n + k - 1) as nat) * pow2((n + k - 1) as nat) == pow2(
            (2 * n + 2 * k - 2) as nat,
        ));
    }
}

} // verus!
