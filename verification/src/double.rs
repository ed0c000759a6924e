//! How a double quotient rounds: to the nearest double, a tie to the one
//! with an even significand. The double nearest to a positive `n / d` is
//! `near_sig(n, d) * near_down(n, d) / near_up(n, d)`: a 53-bit significand
//! scaled by a power of two.

use vstd::prelude::*;

use crate::stats::{round_half_even, two_to};

verus! {

/// The first `k` from `k` on, up to 128, at which `n * 2^k >= d * 2^52`.
pub open spec fn up_from(n: int, d: int, k: nat) -> nat
    decreases 128 - k,
{
    if k >= 128 || n * two_to(k) >= d * 4503599627370496 {
        k
    } else {
        up_from(n, d, k + 1)
    }
}

/// The first `j` from `j` on, up to 128, at which `n < d * 2^j * 2^53`.
pub open spec fn down_from(n: int, d: int, j: nat) -> nat
    decreases 128 - j,
{
    if j >= 128 || n < d * two_to(j) * 9007199254740992 {
        j
    } else {
        down_from(n, d, j + 1)
    }
}

/// Whether `n / d` is below 2^53, where doubles are no further apart than 1.
pub open spec fn below_2_53(n: int, d: int) -> bool {
    n < d * 9007199254740992
}

/// The power of two the significand of the double nearest to `n / d` is
/// divided by: 1 from 2^53 on.
pub open spec fn near_up(n: int, d: int) -> int {
    if below_2_53(n, d) {
        two_to(up_from(n, d, 0))
    } else {
        1
    }
}

/// The power of two the significand of the double nearest to `n / d` is
/// multiplied by: 1 below 2^53.
pub open spec fn near_down(n: int, d: int) -> int {
    if below_2_53(n, d) {
        1
    } else {
        two_to(down_from(n, d, 1))
    }
}

/// The significand of the double nearest to `n / d`.
pub open spec fn near_sig(n: int, d: int) -> int {
    if below_2_53(n, d) {
        round_half_even(n * near_up(n, d), d)
    } else {
        round_half_even(n, d * near_down(n, d))
    }
}

/// The whole part of the double nearest to `n / d`: what `as` makes of it.
pub open spec fn near_floor(n: int, d: int) -> int {
    near_sig(n, d) * near_down(n, d) / near_up(n, d)
}

pub proof fn lemma_two_to_add(a: nat, b: nat)
    ensures
        two_to(a + b) == two_to(a) * two_to(b),
    decreases b,
{
    if b > 0 {
        lemma_two_to_add(a, (b - 1) as nat);
        assert(two_to(a + b) == 2 * two_to((a + b - 1) as nat));
        assert(two_to(a) * two_to(b) == two_to(a) * (2 * two_to((b - 1) as nat)));
        assert(two_to(a) * (2 * two_to((b - 1) as nat)) == 2 * (two_to(a) * two_to((b - 1) as nat)))
            by (nonlinear_arith);
    }
}

pub proof fn lemma_two_to_large()
    ensures
        two_to(67) == 0x8_0000_0000_0000_0000,
        two_to(116) == 0x10_0000_0000_0000_0000_0000_0000_0000,
{
    reveal_with_fuel(two_to, 68);
    assert(two_to(58) == 0x400_0000_0000_0000) by {
        reveal_with_fuel(two_to, 59);
    }
    lemma_two_to_add(58, 58);
}

pub proof fn lemma_two_to_mono(j: nat, k: nat)
    requires
        j <= k,
    ensures
        1 <= two_to(j) <= two_to(k),
    decreases k,
{
    if k > 0 {
        if j < k {
            lemma_two_to_mono(j, (k - 1) as nat);
        } else {
            lemma_two_to_mono((j - 1) as nat, (k - 1) as nat);
        }
    }
}

/// A rounding to the nearest whole number, a tie to even, never puts a
/// smaller quotient above a larger one.
pub proof fn lemma_rne_mono(a: int, b: int, c: int, e: int)
    requires
        b > 0,
        e > 0,
        a >= 0,
        c >= 0,
        a * e <= c * b,
    ensures
        round_half_even(a, b) <= round_half_even(c, e),
{
    let q1 = a / b;
    let r1 = a % b;
    let q2 = c / e;
    let r2 = c % e;
    assert(a == q1 * b + r1 && 0 <= r1 < b) by (nonlinear_arith)
        requires
            b > 0,
            q1 == a / b,
            r1 == a % b,
    ;
    assert(c == q2 * e + r2 && 0 <= r2 < e) by (nonlinear_arith)
        requires
            e > 0,
            q2 == c / e,
            r2 == c % e,
    ;
    assert(q1 <= q2) by (nonlinear_arith)
        requires
            b > 0,
            e > 0,
            a == q1 * b + r1,
            0 <= r1 < b,
            c == q2 * e + r2,
            0 <= r2 < e,
            a * e <= c * b,
    ;
    if q1 == q2 {
        assert(r1 * e <= r2 * b) by (nonlinear_arith)
            requires
                a == q1 * b + r1,
                c == q1 * e + r2,
                a * e <= c * b,
        ;
        if 2 * r1 > b {
            assert(2 * r2 > e) by (nonlinear_arith)
                requires
                    r1 * e <= r2 * b,
                    2 * r1 > b,
                    e > 0,
                    b > 0,
            ;
        } else if 2 * r1 == b {
            assert(2 * r2 >= e) by (nonlinear_arith)
                requires
                    r1 * e <= r2 * b,
                    2 * r1 == b,
                    e > 0,
                    b > 0,
            ;
        }
    }
}

/// The nearest double, as its significand and the powers of two it is
/// divided and multiplied by.
pub struct Rounded {
    pub sig: u128,
    pub up: u128,
    pub down: u128,
}

/// The double nearest to `n / d`.
pub fn round_ratio(n: u128, d: u128) -> (r: Rounded)
    requires
        1 <= n <= 0x40_0000_0000_0000_0000_0000_0000_0000,
        1 <= d <= 0x1_0000_0000_0000_0000,
    ensures
        r.sig == near_sig(n as int, d as int),
        r.up == near_up(n as int, d as int),
        r.down == near_down(n as int, d as int),
        1 <= r.up <= 0x20_0000_0000_0000_0000_0000_0000_0000,
        1 <= r.down <= 0x8_0000_0000_0000_0000,
        r.sig <= 9007199254740992,
{
    if n < d * 9007199254740992 {
        let mut k: u32 = 0;
        let mut p: u128 = 1;
        while k < 128 && n * p < d * 4503599627370496
            invariant
                k <= 128,
                p == two_to(k as nat),
                1 <= p,
                1 <= n,
                1 <= d <= 0x1_0000_0000_0000_0000,
                n * p < d * 9007199254740992,
                up_from(n as int, d as int, 0) == up_from(n as int, d as int, k as nat),
            decreases 128 - k,
        {
            proof {
                assert(two_to((k + 1) as nat) == 2 * two_to(k as nat));
                assert(p <= n * p) by (nonlinear_arith)
                    requires
                        n >= 1,
                        p >= 1,
                ;
                assert(n * (p * 2) == (n * p) * 2) by (nonlinear_arith);
            }
            k = k + 1;
            p = p * 2;
        }
        proof {
            assert(up_from(n as int, d as int, k as nat) == k);
            assert(p <= n * p) by (nonlinear_arith)
                requires
                    n >= 1,
                    p >= 1,
            ;
        }
        let num = n * p;
        let q = num / d;
        let rem = num % d;
        let sig = if 2 * rem > d || (2 * rem == d && q % 2 == 1) {
            q + 1
        } else {
            q
        };
        proof {
            assert(q < 9007199254740992) by (nonlinear_arith)
                requires
                    q == (num as int) / (d as int),
                    num < d * 9007199254740992,
                    d >= 1,
                    num >= 0,
            ;
        }
        Rounded { sig, up: p, down: 1 }
    } else {
        let mut j: u32 = 1;
        let mut big: u128 = d * 2;
        proof {
            assert(two_to(1) == 2 * two_to(0));
        }
        while j < 128 && n >= big * 9007199254740992
            invariant
                1 <= j <= 128,
                big == d * two_to(j as nat),
                1 <= d <= 0x1_0000_0000_0000_0000,
                big * 4503599627370496 <= n,
                n <= 0x40_0000_0000_0000_0000_0000_0000_0000,
                down_from(n as int, d as int, 1) == down_from(n as int, d as int, j as nat),
            decreases 128 - j,
        {
            proof {
                assert(two_to((j + 1) as nat) == 2 * two_to(j as nat));
                assert(d * (2 * two_to(j as nat)) == (d * two_to(j as nat)) * 2) by (nonlinear_arith);
            }
            j = j + 1;
            big = big * 2;
        }
        proof {
            lemma_two_to_large();
            lemma_two_to_mono(0, j as nat);
            assert(two_to(j as nat) <= big) by (nonlinear_arith)
                requires
                    big == d * two_to(j as nat),
                    d >= 1,
                    two_to(j as nat) >= 1,
            ;
            if j >= 67 {
                lemma_two_to_mono(67, j as nat);
                assert(false);
            }
            assert(down_from(n as int, d as int, j as nat) == j);
            assert(big / d == two_to(j as nat)) by (nonlinear_arith)
                requires
                    big == d * two_to(j as nat),
                    d >= 1,
            ;
        }
        let q = n / big;
        let rem = n % big;
        let sig = if 2 * rem > big || (2 * rem == big && q % 2 == 1) {
            q + 1
        } else {
            q
        };
        proof {
            assert(q < 9007199254740992) by (nonlinear_arith)
                requires
                    q == (n as int) / (big as int),
                    n < big * 9007199254740992,
                    big >= 1,
            ;
        }
        Rounded { sig, up: 1, down: big / d }
    }
}

/// Where `up_from` stops below 2^53: the first scale that brings `n / d`
/// to 2^52 or more, and so below 2^53.
proof fn lemma_up_from(n: int, d: int, k: nat)
    requires
        1 <= n,
        1 <= d <= 0x1_0000_0000_0000_0000,
        k <= 128,
        n * two_to(k) < d * 9007199254740992,
        k == 0 || n * two_to((k - 1) as nat) < d * 4503599627370496,
    ensures
        ({
            let r = up_from(n, d, k);
            &&& k <= r < 128
            &&& d * 4503599627370496 <= n * two_to(r) < d * 9007199254740992
            &&& r == 0 || n * two_to((r - 1) as nat) < d * 4503599627370496
        }),
    decreases 128 - k,
{
    lemma_two_to_large();
    lemma_two_to_mono(0, k);
    if k >= 116 {
        lemma_two_to_mono(116, k);
        assert(n * two_to(k) >= two_to(k)) by (nonlinear_arith)
            requires
                n >= 1,
                two_to(k) >= 1,
        ;
    }
    if k >= 117 {
        lemma_two_to_mono(117, k);
        assert(two_to(117) == 2 * two_to(116));
        assert(false);
    }
    if n * two_to(k) < d * 4503599627370496 {
        assert(two_to(k + 1) == 2 * two_to(k));
        assert(n * two_to(k + 1) == 2 * (n * two_to(k))) by (nonlinear_arith)
            requires
                two_to(k + 1) == 2 * two_to(k),
        ;
        lemma_up_from(n, d, k + 1);
    }
}

/// Where `down_from` stops from 2^53 on: the first scale that brings
/// `n / d` below 2^53.
proof fn lemma_down_from(n: int, d: int, j: nat)
    requires
        1 <= d,
        n <= 0x40_0000_0000_0000_0000_0000_0000_0000,
        1 <= j <= 128,
        d * two_to(j) * 4503599627370496 <= n,
    ensures
        ({
            let r = down_from(n, d, j);
            &&& j <= r <= 66
            &&& d * two_to(r) * 4503599627370496 <= n < d * two_to(r) * 9007199254740992
        }),
    decreases 128 - j,
{
    lemma_two_to_large();
    lemma_two_to_mono(0, j);
    assert(two_to(j) <= d * two_to(j)) by (nonlinear_arith)
        requires
            d >= 1,
            two_to(j) >= 1,
    ;
    if j >= 67 {
        lemma_two_to_mono(67, j);
        assert(false);
    }
    if n >= d * two_to(j) * 9007199254740992 {
        assert(two_to(j + 1) == 2 * two_to(j));
        assert(d * two_to(j + 1) * 4503599627370496 == d * two_to(j) * 9007199254740992)
            by (nonlinear_arith)
            requires
                two_to(j + 1) == 2 * two_to(j),
        ;
        lemma_down_from(n, d, j + 1);
    }
}

/// What the nearest double to `n / d` is made of: below 2^53, a scale up
/// that puts `n / d` in [2^52, 2^53), the first such; from 2^53 on, a scale
/// down that does, the first such; and a significand in [2^52, 2^53].
pub proof fn lemma_near(n: int, d: int)
    requires
        1 <= n <= 0x40_0000_0000_0000_0000_0000_0000_0000,
        1 <= d <= 0x1_0000_0000_0000_0000,
    ensures
        1 <= near_up(n, d),
        1 <= near_down(n, d),
        4503599627370496 <= near_sig(n, d) <= 9007199254740992,
        below_2_53(n, d) ==> near_down(n, d) == 1 && ({
            let k = up_from(n, d, 0);
            &&& near_up(n, d) == two_to(k)
            &&& d * 4503599627370496 <= n * two_to(k) < d * 9007199254740992
            &&& k == 0 || n * two_to((k - 1) as nat) < d * 4503599627370496
        }),
        !below_2_53(n, d) ==> near_up(n, d) == 1 && ({
            let j = down_from(n, d, 1);
            &&& 1 <= j
            &&& near_down(n, d) == two_to(j)
            &&& d * two_to(j) * 4503599627370496 <= n < d * two_to(j) * 9007199254740992
        }),
{
    if below_2_53(n, d) {
        assert(two_to(0) == 1);
        lemma_up_from(n, d, 0);
        let k = up_from(n, d, 0);
        let p = two_to(k);
        lemma_two_to_mono(0, k);
        let x = n * p;
        assert(4503599627370496 <= x / d < 9007199254740992) by (nonlinear_arith)
            requires
                d * 4503599627370496 <= x < d * 9007199254740992,
                d >= 1,
        ;
    } else {
        assert(two_to(1) == 2 * two_to(0));
        lemma_down_from(n, d, 1);
        let j = down_from(n, d, 1);
        let q = d * two_to(j);
        lemma_two_to_mono(0, j);
        assert(q >= 1) by (nonlinear_arith)
            requires
                q == d * two_to(j),
                d >= 1,
                two_to(j) >= 1,
        ;
        assert(4503599627370496 <= n / q < 9007199254740992) by (nonlinear_arith)
            requires
                q * 4503599627370496 <= n < q * 9007199254740992,
                q >= 1,
        ;
    }
}

/// Rounding to the nearest double never puts a smaller quotient above a
/// larger one: `n1 / d1 <= n2 / d2` keeps the order of the doubles.
pub proof fn lemma_near_mono(n1: int, d1: int, n2: int, d2: int)
    requires
        1 <= n1 <= 0x40_0000_0000_0000_0000_0000_0000_0000,
        1 <= d1 <= 0x1_0000_0000_0000_0000,
        1 <= n2 <= 0x40_0000_0000_0000_0000_0000_0000_0000,
        1 <= d2 <= 0x1_0000_0000_0000_0000,
        n1 * d2 <= n2 * d1,
    ensures
        near_sig(n1, d1) * near_down(n1, d1) * near_up(n2, d2) <= near_sig(n2, d2) * near_down(
            n2,
            d2,
        ) * near_up(n1, d1),
{
    lemma_near(n1, d1);
    lemma_near(n2, d2);
    let s1 = near_sig(n1, d1);
    let s2 = near_sig(n2, d2);
    if below_2_53(n1, d1) && below_2_53(n2, d2) {
        let k1 = up_from(n1, d1, 0);
        let k2 = up_from(n2, d2, 0);
        let p1 = two_to(k1);
        let p2 = two_to(k2);
        if k1 == k2 {
            assert((n1 * p1) * d2 <= (n2 * p1) * d1) by (nonlinear_arith)
                requires
                    n1 * d2 <= n2 * d1,
                    p1 >= 1,
            ;
            lemma_rne_mono(n1 * p1, d1, n2 * p1, d2);
            assert(s1 * p1 <= s2 * p1) by (nonlinear_arith)
                requires
                    s1 <= s2,
                    p1 >= 1,
            ;
        } else if k1 > k2 {
            lemma_two_to_mono(k2 + 1, k1);
            assert(two_to(k2 + 1) == 2 * two_to(k2));
            assert(s1 * p2 <= s2 * p1) by (nonlinear_arith)
                requires
                    s1 <= 9007199254740992,
                    s2 >= 4503599627370496,
                    p1 >= 2 * p2,
                    p2 >= 1,
            ;
        } else {
            lemma_two_to_mono(k1, (k2 - 1) as nat);
            assert(n2 * p1 * d1 >= n1 * p1 * d2) by (nonlinear_arith)
                requires
                    n1 * d2 <= n2 * d1,
                    p1 >= 1,
            ;
            assert(n2 * p1 >= d2 * 4503599627370496) by (nonlinear_arith)
                requires
                    n2 * p1 * d1 >= n1 * p1 * d2,
                    d1 * 4503599627370496 <= n1 * p1,
                    d1 >= 1,
                    d2 >= 1,
            ;
            assert(n2 * p1 <= n2 * two_to((k2 - 1) as nat)) by (nonlinear_arith)
                requires
                    p1 <= two_to((k2 - 1) as nat),
                    n2 >= 1,
            ;
            assert(false);
        }
    } else if below_2_53(n1, d1) {
        let j2 = down_from(n2, d2, 1);
        lemma_two_to_mono(1, j2);
        assert(two_to(1) == 2 * two_to(0));
        let p1 = near_up(n1, d1);
        let q2 = two_to(j2);
        assert(s1 * 1 * 1 <= s2 * q2 * p1) by (nonlinear_arith)
            requires
                s1 <= 9007199254740992,
                s2 >= 4503599627370496,
                q2 >= 2,
                p1 >= 1,
        ;
    } else if below_2_53(n2, d2) {
        assert(n1 * d2 >= d1 * 9007199254740992 * d2) by (nonlinear_arith)
            requires
                n1 >= d1 * 9007199254740992,
                d2 >= 1,
        ;
        assert(n2 * d1 < d2 * 9007199254740992 * d1) by (nonlinear_arith)
            requires
                n2 < d2 * 9007199254740992,
                d1 >= 1,
        ;
        assert(d1 * 9007199254740992 * d2 == d2 * 9007199254740992 * d1) by (nonlinear_arith);
        assert(false);
    } else {
        let j1 = down_from(n1, d1, 1);
        let j2 = down_from(n2, d2, 1);
        let q1 = two_to(j1);
        let q2 = two_to(j2);
        if j1 == j2 {
            assert(n1 * (d2 * q1) <= n2 * (d1 * q1)) by (nonlinear_arith)
                requires
                    n1 * d2 <= n2 * d1,
                    q1 >= 1,
            ;
            lemma_rne_mono(n1, d1 * q1, n2, d2 * q1);
            assert(s1 * q1 * 1 <= s2 * q1 * 1) by (nonlinear_arith)
                requires
                    s1 <= s2,
                    q1 >= 1,
            ;
        } else if j1 < j2 {
            lemma_two_to_mono(j1 + 1, j2);
            assert(two_to(j1 + 1) == 2 * two_to(j1));
            assert(s1 * q1 * 1 <= s2 * q2 * 1) by (nonlinear_arith)
                requires
                    s1 <= 9007199254740992,
                    s2 >= 4503599627370496,
                    q2 >= 2 * q1,
                    q1 >= 1,
            ;
        } else {
            lemma_two_to_mono(j2 + 1, j1);
            assert(two_to(j2 + 1) == 2 * two_to(j2));
            assert(n2 * d1 >= n1 * d2);
            assert(n2 * d1 >= d1 * q1 * 4503599627370496 * d2) by (nonlinear_arith)
                requires
                    n2 * d1 >= n1 * d2,
                    d1 * q1 * 4503599627370496 <= n1,
                    d2 >= 1,
            ;
            assert(n2 >= d2 * q1 * 4503599627370496) by (nonlinear_arith)
                requires
                    n2 * d1 >= d1 * q1 * 4503599627370496 * d2,
                    d1 >= 1,
            ;
            assert(d2 * q1 * 4503599627370496 >= d2 * q2 * 9007199254740992) by (nonlinear_arith)
                requires
                    q1 >= 2 * q2,
                    d2 >= 1,
            ;
            assert(false);
        }
    }
}

/// A whole part of a smaller quotient is no larger.
pub proof fn lemma_div_mono(a: int, b: int, c: int, e: int)
    requires
        b > 0,
        e > 0,
        a >= 0,
        c >= 0,
        a * e <= c * b,
    ensures
        a / b <= c / e,
{
    let q = a / b;
    assert(q * b <= a) by (nonlinear_arith)
        requires
            q == a / b,
            b > 0,
            a >= 0,
    ;
    assert(q * e <= c) by (nonlinear_arith)
        requires
            q * b <= a,
            a * e <= c * b,
            b > 0,
            e > 0,
    ;
    assert(q <= c / e) by (nonlinear_arith)
        requires
            q * e <= c,
            e > 0,
    ;
}

} // verus!
