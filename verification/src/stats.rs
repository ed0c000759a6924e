//! The numbers a report's row carries: a phase's TPS, Min, Avg, Max and TPN, and the
//! server's memory columns; and the text the console shows them in.

use vstd::prelude::*;

use crate::sorting::{
    le_i64, ascending_i64, ascending_u64, lemma_is_ascending_i64, lemma_is_ascending_u64, sort_i64,
    sort_u64,
};
use crate::double::{lemma_div_mono, lemma_near, lemma_near_mono, lemma_two_to_mono, near_floor, near_sig, near_up, round_ratio};
use crate::text::{decimal, push_char, push_decimal};

verus! {

/// `n / d` rounded toward zero, as Rust divides integers.
pub open spec fn div_trunc(n: int, d: int) -> int {
    if n >= 0 {
        n / d
    } else {
        -((-n) / d)
    }
}

/// `v` held to the range of an `i64`, as a float cast to `i64` is.
pub open spec fn clamp_i64(v: int) -> int {
    if v > i64::MAX {
        i64::MAX as int
    } else if v < i64::MIN {
        i64::MIN as int
    } else {
        v
    }
}

pub open spec fn sum_i64(s: Seq<i64>) -> int
    decreases s.len(),
{
    if s.len() == 0 {
        0
    } else {
        sum_i64(s.drop_last()) + s.last()
    }
}

pub open spec fn sum_u64(s: Seq<u64>) -> int
    decreases s.len(),
{
    if s.len() == 0 {
        0
    } else {
        sum_u64(s.drop_last()) + s.last()
    }
}

/// The first `j` from `j` on, up to 128, at which `m < 2^53 * 2^j`: how
/// many low bits of the whole number `m` a double's 53-bit significand has
/// no room for.
pub open spec fn over53(m: int, j: nat) -> nat
    decreases 128 - j,
{
    if j >= 128 || m < 9007199254740992 * two_to(j) {
        j
    } else {
        over53(m, j + 1)
    }
}

/// The significand of a double that `m` fills: the double nearest the
/// whole number `m` is `round_half_even(m, p) * p` for this `p`.
pub open spec fn over53_pow(m: int) -> int {
    two_to(over53(m, 0))
}

/// The double nearest `nanos / 10^9`, for `nanos` below 10^9: the
/// significand over `frac_up(nanos)`; 0 over 1 for none.
pub open spec fn frac_sig(nanos: int) -> int {
    if nanos == 0 {
        0
    } else {
        near_sig(nanos, 1_000_000_000)
    }
}

/// The power of two `frac_sig(nanos)` is divided by.
pub open spec fn frac_up(nanos: int) -> int {
    if nanos == 0 {
        1
    } else {
        near_up(nanos, 1_000_000_000)
    }
}

/// The seconds of `used` nanoseconds as `Duration::as_secs_f64` makes them,
/// `secs as f64 + (nanos as f64) / 1e9`: the whole seconds plus the double
/// nearest the fraction, that sum rounded to the nearest double. The sum
/// is `secs_sum(used) / frac_up(nanos)`, a binary fraction, so its nearest
/// double is its numerator rounded to 53 bits over the same power of two.
pub open spec fn secs_sum(used: int) -> int {
    (used / 1_000_000_000) * frac_up(used % 1_000_000_000) + frac_sig(used % 1_000_000_000)
}

/// That double as `secs_num(used) / secs_den(used)`, the denominator a
/// power of two and the numerator below 2^54.
pub open spec fn secs_num(used: int) -> int {
    let m = secs_sum(used);
    let p = over53_pow(m);
    let fu = frac_up(used % 1_000_000_000);
    if fu >= p {
        round_half_even(m, p)
    } else {
        round_half_even(m, p) * (p / fu)
    }
}

/// The power of two `secs_num(used)` is divided by.
pub open spec fn secs_den(used: int) -> int {
    let m = secs_sum(used);
    let p = over53_pow(m);
    let fu = frac_up(used % 1_000_000_000);
    if fu >= p {
        fu / p
    } else {
        1
    }
}

/// The whole part of `count / seconds` as doubles divide, for `count` a
/// double: the double nearest `count / secs_num(used)`, times
/// `secs_den(used)` (a power of two, which scales a double exactly),
/// rounded down.
pub open spec fn per_second_floor(count: int, used: int) -> int {
    let n = secs_num(used);
    near_sig(count, n) * crate::double::near_down(count, n) * secs_den(used) / near_up(count, n)
}

/// Successes per second of a phase that took `used` nanoseconds, as
/// `(success as f64 / used.as_secs_f64()) as i64` computes it: 0 for a
/// phase that took no time; otherwise the quotient of the doubles, rounded
/// toward zero and held to an `i64`.
pub open spec fn tps_of(success: int, used: int) -> int {
    if used <= 0 || success == 0 {
        0
    } else if success > 0 {
        clamp_i64(per_second_floor(as_double(success), used))
    } else {
        clamp_i64(-per_second_floor(as_double(-success), used))
    }
}

/// The index of the `percent`th percentile among `len` costs: the whole
/// part of `percent / 100 * len` as doubles compute it (the nearest double
/// to `percent / 100`, times the nearest double to `len`, rounded to the
/// nearest double), or the last index.
pub open spec fn tpn_index(percent: int, len: int) -> int {
    let f = if percent <= 0 {
        0
    } else {
        near_floor(near_sig(percent, 100) * as_double(len), near_up(percent, 100))
    };
    if f < len - 1 {
        f
    } else {
        len - 1
    }
}

/// A phase's outcome: how long it took and what each successful operation
/// cost, in nanoseconds.
pub struct Calc {
    pub success: i64,
    pub failed: i64,
    /// How long the phase took, in nanoseconds.
    pub used: u64,
    costs: Vec<i64>,
}

impl Calc {
    /// The successes' costs, in ascending order.
    pub closed spec fn costs(self) -> Seq<i64> {
        self.costs@
    }

    /// `success`.
    pub closed spec fn successes(self) -> int {
        self.success as int
    }

    /// `failed`.
    pub closed spec fn failures(self) -> int {
        self.failed as int
    }

    /// `used`.
    pub closed spec fn used_nanos(self) -> int {
        self.used as int
    }

    /// A phase that took `used` nanoseconds, whose successes cost `costs`
    /// nanoseconds each, and with `failed` failures.
    pub fn new(used: u64, costs: Vec<i64>, failed: i64) -> (r: Calc)
        requires
            costs@.len() <= i64::MAX,
        ensures
            r.successes() == costs@.len(),
            r.failures() == failed,
            r.used_nanos() == used,
            r.costs() == ascending_i64(costs@),
    {
        let ghost given = costs@;
        let mut costs = costs;
        sort_i64(&mut costs);
        proof {
            lemma_is_ascending_i64(costs@, given);
            vstd::seq_lib::to_multiset_len(costs@);
            vstd::seq_lib::to_multiset_len(given);
        }
        Calc { success: costs.len() as i64, failed, used, costs }
    }

    /// The phase's duration, in nanoseconds.
    pub fn used(&self) -> (r: u64)
        ensures
            r == self.used_nanos(),
    {
        self.used
    }

    /// How many operations succeeded.
    pub fn success(&self) -> (r: i64)
        ensures
            r == self.successes(),
    {
        self.success
    }

    /// How many operations failed.
    pub fn failed(&self) -> (r: i64)
        ensures
            r == self.failures(),
    {
        self.failed
    }

    /// Successes a second over the whole phase, as doubles divide them,
    /// rounded toward zero.
    pub fn tps(&self) -> (r: i64)
        ensures
            r == tps_of(self.successes(), self.used_nanos()),
    {
        if self.used == 0 || self.success == 0 {
            return 0;
        }
        let neg = self.success < 0;
        let mag: u64 = if neg {
            (-(self.success as i128)) as u64
        } else {
            self.success as u64
        };
        let count = as_double_of(mag);
        proof {
            lemma_as_double_bounds(mag as int);
        }
        let (sn, sd) = secs_double(self.used);
        let q = round_ratio(count, sn);
        proof {
            assert(q.sig * q.down <= 9007199254740992 * 0x8_0000_0000_0000_0000) by (nonlinear_arith)
                requires
                    q.sig <= 9007199254740992,
                    q.down <= 0x8_0000_0000_0000_0000,
            ;
            lemma_near(count as int, sn as int);
            if crate::double::below_2_53(count as int, sn as int) {
                assert(is_pow2(q.up as int));
            } else {
                assert(q.up == two_to(0));
            }
        }
        let v = scaled_floor(q.sig * q.down, sd, q.up);
        if neg {
            if v >= 0x8000_0000_0000_0000 {
                i64::MIN
            } else {
                -(v as i64)
            }
        } else if v > 0x7fff_ffff_ffff_ffff {
            i64::MAX
        } else {
            v as i64
        }
    }

    /// The cheapest success, 0 with none.
    pub fn min(&self) -> (r: i64)
        ensures
            r == (if self.costs().len() == 0 {
                0
            } else {
                self.costs()[0]
            }),
    {
        if self.costs.len() == 0 {
            0
        } else {
            self.costs[0]
        }
    }

    /// The dearest success, 0 with none.
    pub fn max(&self) -> (r: i64)
        ensures
            r == (if self.costs().len() == 0 {
                0
            } else {
                self.costs().last()
            }),
    {
        if self.costs.len() == 0 {
            0
        } else {
            self.costs[self.costs.len() - 1]
        }
    }

    /// The mean cost of a success, rounded toward zero; 0 with none.
    pub fn avg(&self) -> (r: i64)
        ensures
            r == (if self.costs().len() == 0 {
                0
            } else {
                div_trunc(sum_i64(self.costs()), self.costs().len() as int)
            }),
    {
        let n = self.costs.len();
        if n == 0 {
            return 0;
        }
        let mut sum: i128 = 0;
        let mut i: usize = 0;
        while i < n
            invariant
                n == self.costs@.len(),
                i <= n,
                sum == sum_i64(self.costs@.subrange(0, i as int)),
                -0x8000_0000_0000_0000 * i <= sum <= 0x7fff_ffff_ffff_ffff * i,
            decreases n - i,
        {
            proof {
                assert(self.costs@.subrange(0, i + 1).drop_last() =~= self.costs@.subrange(
                    0,
                    i as int,
                ));
            }
            sum = sum + self.costs[i] as i128;
            i = i + 1;
        }
        assert(self.costs@.subrange(0, n as int) =~= self.costs@);
        let q: i128 = if sum >= 0 {
            sum / (n as i128)
        } else {
            -((-sum) / (n as i128))
        };
        proof {
            lemma_mean_in_range(sum as int, n as int);
        }
        q as i64
    }

    /// The `percent`th percentile: the cost at index `percent / 100 * count`
    /// (as doubles compute it) of the successes in ascending order, or the
    /// last one; 0 with none.
    pub fn tpn(&self, percent: u32) -> (r: i64)
        ensures
            r == (if self.costs().len() == 0 {
                0
            } else {
                self.costs()[tpn_index(percent as int, self.costs().len() as int)]
            }),
    {
        let n = self.costs.len();
        if n == 0 {
            return 0;
        }
        let idx: u128 = if percent == 0 {
            0
        } else {
            let a = round_ratio(percent as u128, 100);
            let b = as_double_of(n as u64);
            proof {
                lemma_percent_double(percent as int);
                assert(a.sig * b <= 9007199254740992 * (n as u64 + 2048)) by (nonlinear_arith)
                    requires
                        a.sig <= 9007199254740992,
                        b <= n as u64 + 2048,
                ;
                assert(a.sig * b >= 1) by (nonlinear_arith)
                    requires
                        a.sig >= 4503599627370496,
                        b >= 1,
                ;
            }
            let c = round_ratio(a.sig * b, a.up);
            proof {
                assert(c.sig * c.down <= 9007199254740992 * 0x8_0000_0000_0000_0000) by (nonlinear_arith)
                    requires
                        c.sig <= 9007199254740992,
                        c.down <= 0x8_0000_0000_0000_0000,
                ;
            }
            c.sig * c.down / c.up
        };
        let at: usize = if idx < (n - 1) as u128 {
            idx as usize
        } else {
            n - 1
        };
        self.costs[at]
    }
}

/// `percent / 100` is below 2^53, so its double is a significand over a
/// power of two no larger than 2^64.
proof fn lemma_percent_double(percent: int)
    requires
        1 <= percent <= 0xffff_ffff,
    ensures
        crate::double::below_2_53(percent, 100),
        crate::double::near_down(percent, 100) == 1,
        1 <= near_up(percent, 100) <= 0x1_0000_0000_0000_0000,
        4503599627370496 <= near_sig(percent, 100) <= 9007199254740992,
{
    lemma_near(percent, 100);
    let p = near_up(percent, 100);
    assert(p <= percent * p) by (nonlinear_arith)
        requires
            percent >= 1,
            p >= 1,
    ;
}

/// The mean of `n` values of an `i64` is an `i64`.
proof fn lemma_mean_in_range(sum: int, n: int)
    requires
        n >= 1,
        -0x8000_0000_0000_0000 * n <= sum <= 0x7fff_ffff_ffff_ffff * n,
    ensures
        i64::MIN <= div_trunc(sum, n) <= i64::MAX,
{
    if sum >= 0 {
        assert(sum / n <= 0x7fff_ffff_ffff_ffff) by (nonlinear_arith)
            requires
                0 <= sum <= 0x7fff_ffff_ffff_ffff * n,
                n >= 1,
        ;
        assert(sum / n >= 0) by (nonlinear_arith)
            requires
                0 <= sum,
                n >= 1,
        ;
    } else {
        assert((-sum) / n <= 0x8000_0000_0000_0000) by (nonlinear_arith)
            requires
                0 < -sum <= 0x8000_0000_0000_0000 * n,
                n >= 1,
        ;
        assert((-sum) / n >= 0) by (nonlinear_arith)
            requires
                0 < -sum,
                n >= 1,
        ;
    }
}

/// The server's memory columns, from its resident memory samples.
#[derive(Clone, Copy, Debug, PartialEq, Eq, Structural)]
pub struct MemColumns {
    pub min: u64,
    pub avg: u64,
    pub max: u64,
}

/// The memory columns of `rss`, as the suite's resource counter reports them,
/// its quirk included: it sorts the samples before the minimum and the
/// average are read, and takes both from every sample but the smallest.
pub fn mem_columns(rss: &[u64]) -> (r: MemColumns)
    ensures
        ({
            let t = ascending_u64(rss@);
            let n = t.len();
            if n == 0 {
                r == MemColumns { min: 0, avg: 0, max: 0 }
            } else if n == 1 {
                r == MemColumns { min: t[0], avg: t[0], max: t[0] }
            } else {
                &&& r.min == t[1]
                &&& r.avg == sum_u64(t.subrange(1, n as int)) / (n - 1)
                &&& r.max == t[n - 1]
            }
        }),
{
    let mut mem: Vec<u64> = vstd::slice::slice_to_vec(rss);
    sort_u64(&mut mem);
    proof {
        lemma_is_ascending_u64(mem@, rss@);
    }
    let n = mem.len();
    if n == 0 {
        return MemColumns { min: 0, avg: 0, max: 0 };
    }
    if n == 1 {
        return MemColumns { min: mem[0], avg: mem[0], max: mem[0] };
    }
    let ghost t = mem@;
    let mut sum: u128 = 0;
    let mut i: usize = 1;
    assert(t.subrange(1, 1) =~= Seq::<u64>::empty());
    while i < n
        invariant
            t == mem@,
            n == t.len(),
            1 <= i <= n,
            sum == sum_u64(t.subrange(1, i as int)),
            sum <= 0xffff_ffff_ffff_ffff * (i - 1),
        decreases n - i,
    {
        proof {
            assert(t.subrange(1, i + 1).drop_last() =~= t.subrange(1, i as int));
        }
        sum = sum + mem[i] as u128;
        i = i + 1;
    }
    let avg: u128 = sum / ((n - 1) as u128);
    proof {
        assert(avg <= 0xffff_ffff_ffff_ffff) by (nonlinear_arith)
            requires
                sum <= 0xffff_ffff_ffff_ffff * (n - 1),
                n >= 2,
                avg == (sum as int) / ((n - 1) as int),
        ;
    }
    MemColumns { min: mem[1], avg: avg as u64, max: mem[n - 1] }
}

} // verus!

verus! {

/// `n / d` rounded to the nearest whole number, a tie to the even one.
pub open spec fn round_half_even(n: int, d: int) -> int {
    let q = n / d;
    let r = n % d;
    if 2 * r > d || (2 * r == d && q % 2 == 1) {
        q + 1
    } else {
        q
    }
}

/// Two digits for `v`, which is below 100.
pub open spec fn two_digits(v: int) -> Seq<char> {
    seq![crate::text::digit_char(v / 10), crate::text::digit_char(v % 10)]
}

/// `n / d` with two decimals, rounded to the nearest hundredth, a tie to
/// the even one.
pub open spec fn fixed2(n: int, d: int) -> Seq<char> {
    let h = round_half_even(n * 100, d);
    decimal((h / 100) as nat) + seq!['.'] + two_digits(h % 100)
}

/// `v` in decimal, with a `-` when it is negative.
pub open spec fn signed_decimal(v: int) -> Seq<char> {
    if v < 0 {
        seq!['-'] + decimal((-v) as nat)
    } else {
        decimal(v as nat)
    }
}

/// 2 to the `k`.
pub open spec fn two_to(k: nat) -> int
    decreases k,
{
    if k == 0 {
        1
    } else {
        2 * two_to((k - 1) as nat)
    }
}

/// The first `j` from `from` on, up to 11, at which `n < 2^(53 + j)`: how
/// many low bits of `n` a double's 53-bit significand has no room for.
pub open spec fn excess_from(n: int, j: nat) -> nat
    decreases 11 - j,
{
    if j >= 11 || n < 9007199254740992 * two_to(j) {
        j
    } else {
        excess_from(n, j + 1)
    }
}

/// `n as f64` for `0 <= n < 2^64`: the double nearest to `n`, a tie to
/// the one with an even significand.
pub open spec fn as_double(n: int) -> int {
    if n < 9007199254740992 {
        n
    } else {
        let p = two_to(excess_from(n, 0));
        round_half_even(n, p) * p
    }
}

/// The first `k` from `from` on, up to 53, at which
/// `n * 2^k >= d * 2^52`: how far `n / d` is scaled up to fill a double's
/// 53-bit significand.
pub open spec fn scale_from(n: int, d: int, k: nat) -> nat
    decreases 53 - k,
{
    if k >= 53 || n * two_to(k) >= d * 4503599627370496 {
        k
    } else {
        scale_from(n, d, k + 1)
    }
}

/// The power of two `n / d` is scaled up by.
pub open spec fn quotient_scale(n: int, d: int) -> int {
    two_to(scale_from(n, d, 0))
}

/// `n / d` as a double division rounds it, for `1 <= n / d < 2^53`: the
/// significand `m` of the nearest double, `m / quotient_scale(n, d)`, a
/// tie to the even one.
pub open spec fn quotient_significand(n: int, d: int) -> int {
    round_half_even(n * quotient_scale(n, d), d)
}

/// `format!("{:.2}", n as f64 / d as f64)`, for `n >= d` and `d` a double
/// itself: the double quotient of the double nearest to `n`, written with
/// two decimals, its exact value rounded to the nearest hundredth, a tie to
/// the even one.
pub open spec fn float_fixed2(n: int, d: int) -> Seq<char> {
    let v = as_double(n);
    fixed2(quotient_significand(v, d), quotient_scale(v, d))
}

/// A duration in nanoseconds as the reports write it: in seconds,
/// milliseconds or microseconds with two decimals, as the double quotient
/// formats, or in whole nanoseconds below a microsecond.
pub open spec fn time_text(ns: int) -> Seq<char> {
    if ns >= 1_000_000_000 {
        float_fixed2(ns, 1_000_000_000) + "s"@
    } else if ns >= 1_000_000 {
        float_fixed2(ns, 1_000_000) + "ms"@
    } else if ns >= 1_000 {
        float_fixed2(ns, 1_000) + "us"@
    } else {
        signed_decimal(ns) + "ns"@
    }
}

/// A size in bytes as the reports write it: in GiB, MiB or KiB with
/// two decimals of the size as a double, which the power of two divides
/// exactly.
pub open spec fn mem_text(bytes: int) -> Seq<char> {
    if bytes >= 0x4000_0000 {
        fixed2(as_double(bytes), 0x4000_0000) + "G"@
    } else if bytes >= 0x10_0000 {
        fixed2(as_double(bytes), 0x10_0000) + "M"@
    } else {
        fixed2(as_double(bytes), 1024) + "K"@
    }
}

/// Appends `n / d` with two decimals.
fn push_fixed2(s: &mut String, n: u128, d: u128)
    requires
        d > 0,
        d <= 0x10_0000_0000_0000_0000_0000_0000,
        n <= 0x10_0000_0000_0000_0000_0000_0000,
        n / d <= 0x3fff_ffff_ffff_ffff,
    ensures
        final(s)@ == old(s)@ + fixed2(n as int, d as int),
{
    let num: u128 = n * 100;
    let q: u128 = num / d;
    let r: u128 = num % d;
    let h: u128 = if 2 * r > d || (2 * r == d && q % 2 == 1) {
        q + 1
    } else {
        q
    };
    proof {
        let w = n / d;
        assert(q <= 100 * w + 99) by (nonlinear_arith)
            requires
                q == (num as int) / (d as int),
                num == n * 100,
                w == (n as int) / (d as int),
                d >= 1,
                n >= 0,
        ;
    }
    let whole: u128 = h / 100;
    let cents: u128 = h % 100;
    push_decimal(s, whole as u64);
    push_char(s, '.');
    push_char(s, ((cents / 10) as u8 + 48) as char);
    push_char(s, ((cents % 10) as u8 + 48) as char);
    proof {
        assert(final(s)@ =~= old(s)@ + fixed2(n as int, d as int));
    }
}

/// `n as f64`, exactly: `n` below 2^53, and otherwise `n` rounded to the
/// 53 bits a double's significand has.
fn as_double_of(n: u64) -> (r: u128)
    ensures
        r == as_double(n as int),
        n >= 9007199254740992 ==> r >= 9007199254740992 - 2048,
        r <= n + 2048,
{
    if n < 9007199254740992 {
        return n as u128;
    }
    let mut j: u32 = 0;
    let mut p: u128 = 1;
    while j < 11 && (n as u128) >= 9007199254740992u128 * p
        invariant
            j <= 11,
            p == two_to(j as nat),
            1 <= p <= 2048,
            excess_from(n as int, 0) == excess_from(n as int, j as nat),
        decreases 11 - j,
    {
        proof {
            assert(two_to((j + 1) as nat) == 2 * two_to(j as nat));
            lemma_two_to_values();
            lemma_two_to_mono((j + 1) as nat, 11);
        }
        j = j + 1;
        p = p * 2;
    }
    proof {
        assert(excess_from(n as int, j as nat) == j);
    }
    let m = n as u128;
    let q = m / p;
    let rem = m % p;
    let rhe = if 2 * rem > p || (2 * rem == p && q % 2 == 1) {
        q + 1
    } else {
        q
    };
    proof {
        assert(q * p + rem == m && 0 <= rem < p) by (nonlinear_arith)
            requires
                q == (m as int) / (p as int),
                rem == (m as int) % (p as int),
                p >= 1,
        ;
        assert(rhe * p <= m + p && rhe * p >= m - p) by (nonlinear_arith)
            requires
                q * p + rem == m,
                0 <= rem < p,
                rhe == q || rhe == q + 1,
                p >= 1,
        ;
    }
    rhe * p
}

proof fn lemma_two_to_values()
    ensures
        two_to(11) == 2048,
        two_to(52) == 4503599627370496,
        two_to(53) == 9007199254740992,
{
    reveal_with_fuel(two_to, 54);
}

/// A double quotient: the significand `m` and the power of two `p` of the
/// double `m / p`.
struct Quotient {
    m: u128,
    p: u128,
}

/// `n / d` as a double division rounds it, for `1 <= n / d < 2^53`.
fn quotient_of(n: u128, d: u128) -> (r: Quotient)
    requires
        1 <= d <= 1_000_000_000,
        d <= n,
        n < d * 9007199254740992,
    ensures
        r.m == quotient_significand(n as int, d as int),
        r.p == quotient_scale(n as int, d as int),
        1 <= r.p <= 9007199254740992,
        r.m <= 9007199254740992,
{
    let mut k: u32 = 0;
    let mut p: u128 = 1;
    while k < 53 && n * p < d * 4503599627370496
        invariant
            k <= 53,
            p == two_to(k as nat),
            1 <= p,
            1 <= d <= 1_000_000_000,
            n * p < d * 9007199254740992,
            scale_from(n as int, d as int, 0) == scale_from(n as int, d as int, k as nat),
        decreases 53 - k,
    {
        proof {
            assert(two_to((k + 1) as nat) == 2 * two_to(k as nat));
            lemma_two_to_values();
            lemma_two_to_mono((k + 1) as nat, 53);
            assert(n * (p * 2) == (n * p) * 2) by (nonlinear_arith);
        }
        k = k + 1;
        p = p * 2;
    }
    proof {
        assert(scale_from(n as int, d as int, k as nat) == k);
        lemma_two_to_values();
        lemma_two_to_mono(k as nat, 53);
    }
    let num = n * p;
    let q = num / d;
    let rem = num % d;
    let m = if 2 * rem > d || (2 * rem == d && q % 2 == 1) {
        q + 1
    } else {
        q
    };
    proof {
        assert(q < 9007199254740992) by (nonlinear_arith)
            requires
                q == (num as int) / (d as int),
                num < d * 9007199254740992,
                d >= 1,
                num >= 0,
        ;
    }
    Quotient { m, p }
}

/// Appends `{:.2}` of `n as f64 / d as f64`.
fn push_float_fixed2(s: &mut String, n: u64, d: u128)
    requires
        1 <= d <= 1_000_000_000,
        d <= n,
        n as int <= 0x8000_0000_0000_0000,
        n + 2048 < d * 9007199254740992,
    ensures
        final(s)@ == old(s)@ + float_fixed2(n as int, d as int),
{
    let v = as_double_of(n);
    let q = quotient_of(v, d);
    push_fixed2(s, q.m, q.p);
}

/// A duration in nanoseconds as the reports write it.
pub fn time_string(ns: i64) -> (r: String)
    ensures
        r@ == time_text(ns as int),
{
    let mut s = String::new();
    if ns >= 1_000_000_000 {
        push_float_fixed2(&mut s, ns as u64, 1_000_000_000);
        s.append("s");
    } else if ns >= 1_000_000 {
        push_float_fixed2(&mut s, ns as u64, 1_000_000);
        s.append("ms");
    } else if ns >= 1_000 {
        push_float_fixed2(&mut s, ns as u64, 1_000);
        s.append("us");
    } else {
        if ns < 0 {
            push_char(&mut s, '-');
            push_decimal(&mut s, (-(ns as i128)) as u64);
        } else {
            push_decimal(&mut s, ns as u64);
        }
        s.append("ns");
    }
    proof {
        assert(s@ =~= time_text(ns as int));
    }
    s
}

/// A size in bytes as the reports write it.
pub fn mem_string(bytes: u64) -> (r: String)
    ensures
        r@ == mem_text(bytes as int),
{
    let mut s = String::new();
    let v = as_double_of(bytes);
    if bytes >= 0x4000_0000 {
        push_fixed2(&mut s, v, 0x4000_0000);
        s.append("G");
    } else if bytes >= 0x10_0000 {
        push_fixed2(&mut s, v, 0x10_0000);
        s.append("M");
    } else {
        push_fixed2(&mut s, v, 1024);
        s.append("K");
    }
    proof {
        assert(s@ =~= mem_text(bytes as int));
    }
    s
}

} // verus!

verus! {

/// The `percent`-th percentile of the ascending costs `s`, as `Calc::tpn`
/// picks it: 0 when there are none.
pub open spec fn percentile(s: Seq<i64>, percent: int) -> int {
    if s.len() == 0 {
        0
    } else {
        s[tpn_index(percent, s.len() as int)] as int
    }
}

/// A run's percentiles rise with the percent, from its fastest cost to its
/// slowest: for the costs a `Calc` is made of, in the ascending order it
/// keeps them, `Min <= TP(p) <= TP(q) <= Max` whenever `p <= q`.
pub proof fn law_percentiles_ordered(costs: Seq<i64>, p: int, q: int)
    requires
        0 <= p <= q <= 0xffff_ffff,
        costs.len() <= usize::MAX,
    ensures
        ({
            let s = ascending_i64(costs);
            s.len() > 0 ==> s[0] <= percentile(s, p) <= percentile(s, q) <= s.last()
        }),
{
    let s = ascending_i64(costs);
    costs.lemma_sort_by_ensures(le_i64());
    if s.len() > 0 {
        let n = s.len() as int;
        assert(usize::MAX <= 0xffff_ffff_ffff_ffff);
        vstd::seq_lib::to_multiset_len(costs);
        vstd::seq_lib::to_multiset_len(s);
        lemma_index_rises(p, q, n);
        let i = tpn_index(p, n);
        let j = tpn_index(q, n);
        assert(0 <= i <= j < n);
        assert(le_i64()(s[0], s[i]) || i == 0);
        assert(le_i64()(s[i], s[j]) || i == j);
        assert(le_i64()(s[j], s[n - 1]) || j == n - 1);
    }
}

/// The whole part `tpn_index` takes of `percent / 100 * len` is never
/// negative.
proof fn lemma_whole_part_nonneg(percent: int, len: int)
    requires
        1 <= percent <= 0xffff_ffff,
        1 <= len <= 0xffff_ffff_ffff_ffff,
    ensures
        near_floor(near_sig(percent, 100) * as_double(len), near_up(percent, 100)) >= 0,
{
    lemma_percent_double(percent);
    lemma_as_double_bounds(len);
    let b = as_double(len);
    let a = near_sig(percent, 100);
    let x = a * b;
    assert(1 <= x <= 9007199254740992 * (0xffff_ffff_ffff_ffff + 2048)) by (nonlinear_arith)
        requires
            4503599627370496 <= a <= 9007199254740992,
            1 <= b <= 0xffff_ffff_ffff_ffff + 2048,
            x == a * b,
    ;
    lemma_near(x, near_up(percent, 100));
    let t = near_sig(x, near_up(percent, 100)) * crate::double::near_down(x, near_up(percent, 100));
    assert(t >= 0) by (nonlinear_arith)
        requires
            t == near_sig(x, near_up(percent, 100)) * crate::double::near_down(
                x,
                near_up(percent, 100),
            ),
            near_sig(x, near_up(percent, 100)) >= 0,
            crate::double::near_down(x, near_up(percent, 100)) >= 1,
    ;
}

/// A larger percent never picks an earlier index, and each index is one
/// of the `len` there are.
proof fn lemma_index_rises(p: int, q: int, len: int)
    requires
        0 <= p <= q <= 0xffff_ffff,
        1 <= len <= 0xffff_ffff_ffff_ffff,
    ensures
        0 <= tpn_index(p, len) <= tpn_index(q, len) < len,
{
    if q >= 1 {
        lemma_whole_part_nonneg(q, len);
    }
    if p >= 1 {
        lemma_whole_part_nonneg(p, len);
        lemma_percent_double(p);
        lemma_percent_double(q);
        lemma_as_double_bounds(len);
        let b = as_double(len);
        let sp = near_sig(p, 100);
        let sq = near_sig(q, 100);
        let up = near_up(p, 100);
        let uq = near_up(q, 100);
        assert(p * 100 <= q * 100);
        lemma_near_mono(p, 100, q, 100);
        assert(sp * uq <= sq * up);
        let xp = sp * b;
        let xq = sq * b;
        assert(xp * uq <= xq * up) by (nonlinear_arith)
            requires
                sp * uq <= sq * up,
                xp == sp * b,
                xq == sq * b,
                b >= 1,
        ;
        assert(1 <= xp <= 0x40_0000_0000_0000_0000_0000_0000_0000) by (nonlinear_arith)
            requires
                4503599627370496 <= sp <= 9007199254740992,
                1 <= b <= 0xffff_ffff_ffff_ffff + 2048,
                xp == sp * b,
        ;
        assert(1 <= xq <= 0x40_0000_0000_0000_0000_0000_0000_0000) by (nonlinear_arith)
            requires
                4503599627370496 <= sq <= 9007199254740992,
                1 <= b <= 0xffff_ffff_ffff_ffff + 2048,
                xq == sq * b,
        ;
        lemma_near_mono(xp, up, xq, uq);
        lemma_near(xp, up);
        lemma_near(xq, uq);
        let tp = near_sig(xp, up) * crate::double::near_down(xp, up);
        let tq = near_sig(xq, uq) * crate::double::near_down(xq, uq);
        assert(tp >= 0 && tq >= 0) by (nonlinear_arith)
            requires
                tp == near_sig(xp, up) * crate::double::near_down(xp, up),
                tq == near_sig(xq, uq) * crate::double::near_down(xq, uq),
                near_sig(xp, up) >= 0,
                near_sig(xq, uq) >= 0,
                crate::double::near_down(xp, up) >= 1,
                crate::double::near_down(xq, uq) >= 1,
        ;
        lemma_div_mono(tp, near_up(xp, up), tq, near_up(xq, uq));
    }
}

/// `n as f64` is no more than 2048 away from `n`, and at least 1.
proof fn lemma_as_double_bounds(n: int)
    requires
        1 <= n <= 0xffff_ffff_ffff_ffff,
    ensures
        1 <= as_double(n) <= n + 2048,
{
    if n >= 9007199254740992 {
        lemma_excess_bound(n, 0);
        let k = excess_from(n, 0);
        lemma_two_to_values();
        lemma_two_to_mono(k, 11);
        let p = two_to(k);
        let q = n / p;
        let r = n % p;
        assert(q * p + r == n && 0 <= r < p) by (nonlinear_arith)
            requires
                q == n / p,
                r == n % p,
                p >= 1,
        ;
        let h = round_half_even(n, p);
        assert(h == q || h == q + 1);
        assert(h * p <= n + p && h * p >= n - p) by (nonlinear_arith)
            requires
                q * p + r == n,
                0 <= r < p,
                h == q || h == q + 1,
                p >= 1,
        ;
    }
}

/// `excess_from` stops at 11 at the latest.
proof fn lemma_excess_bound(n: int, j: nat)
    requires
        j <= 11,
    ensures
        j <= excess_from(n, j) <= 11,
    decreases 11 - j,
{
    if j < 11 && n >= 9007199254740992 * two_to(j) {
        lemma_excess_bound(n, j + 1);
    }
}

/// A sum of `n` numbers, each between `lo` and `hi`, is between `n * lo`
/// and `n * hi`.
proof fn lemma_sum_between(s: Seq<i64>, lo: int, hi: int)
    requires
        forall|i: int| 0 <= i < s.len() ==> lo <= #[trigger] s[i] <= hi,
    ensures
        s.len() * lo <= sum_i64(s) <= s.len() * hi,
    decreases s.len(),
{
    if s.len() > 0 {
        let t = s.drop_last();
        assert forall|i: int| 0 <= i < t.len() implies lo <= #[trigger] t[i] <= hi by {
            assert(t[i] == s[i]);
        }
        lemma_sum_between(t, lo, hi);
        assert(s.len() * lo == t.len() * lo + lo) by (nonlinear_arith)
            requires
                s.len() == t.len() + 1,
        ;
        assert(s.len() * hi == t.len() * hi + hi) by (nonlinear_arith)
            requires
                s.len() == t.len() + 1,
        ;
    }
}

/// A run's average cost is between its fastest and its slowest: for the
/// costs a `Calc` is made of, `Min <= Avg <= Max`.
pub proof fn law_average_between(costs: Seq<i64>)
    ensures
        ({
            let s = ascending_i64(costs);
            s.len() > 0 ==> s[0] <= div_trunc(sum_i64(s), s.len() as int) <= s.last()
        }),
{
    let s = ascending_i64(costs);
    costs.lemma_sort_by_ensures(le_i64());
    if s.len() > 0 {
        let n = s.len() as int;
        let lo = s[0] as int;
        let hi = s[n - 1] as int;
        assert forall|i: int| 0 <= i < s.len() implies lo <= #[trigger] s[i] <= hi by {
            assert(le_i64()(s[0], s[i]) || i == 0);
            assert(le_i64()(s[i], s[n - 1]) || i == n - 1);
        }
        lemma_sum_between(s, lo, hi);
        let t = sum_i64(s);
        assert(lo <= div_trunc(t, n) <= hi) by (nonlinear_arith)
            requires
                n > 0,
                n * lo <= t <= n * hi,
                div_trunc(t, n) == if t >= 0 {
                    t / n
                } else {
                    -((-t) / n)
                },
        ;
    }
}

/// Whether `x` is a power of two.
pub open spec fn is_pow2(x: int) -> bool {
    exists|a: nat| x == two_to(a)
}

/// `2^a / 2^b` is `2^(a - b)`, with nothing left over, for `b <= a`.
proof fn lemma_two_to_quotient(a: nat, b: nat)
    requires
        b <= a,
    ensures
        two_to(a) == two_to((a - b) as nat) * two_to(b),
        two_to(a) / two_to(b) == two_to((a - b) as nat),
{
    crate::double::lemma_two_to_add((a - b) as nat, b);
    lemma_two_to_mono(0, b);
    vstd::arithmetic::div_mod::lemma_fundamental_div_mod_converse(
        two_to(a),
        two_to(b),
        two_to((a - b) as nat),
        0,
    );
}

/// A larger power of two has the larger exponent.
proof fn lemma_two_to_order(a: nat, b: nat)
    requires
        two_to(a) < two_to(b),
    ensures
        a < b,
{
    if a >= b {
        lemma_two_to_mono(b, a);
    }
}

/// `min(t * sd / up, 2^64)`, for powers of two `sd` and `up`.
fn scaled_floor(t: u128, sd: u128, up: u128) -> (r: u128)
    requires
        is_pow2(sd as int),
        is_pow2(up as int),
    ensures
        r == if (t * sd) / (up as int) > 0x1_0000_0000_0000_0000 {
            0x1_0000_0000_0000_0000
        } else {
            (t * sd) / (up as int)
        },
{
    let ghost a = choose|a: nat| sd == two_to(a);
    let ghost b = choose|b: nat| up == two_to(b);
    proof {
        lemma_two_to_mono(0, a);
        lemma_two_to_mono(0, b);
    }
    if sd >= up {
        proof {
            if a < b {
                lemma_two_to_mono(a, b);
            }
            if a < b {
                assert(two_to(b) >= two_to(a));
            }
            if b > a {
                lemma_two_to_order(a, b);
            }
            if a < b {
                lemma_two_to_mono((a + 1) as nat, b);
                assert(two_to((a + 1) as nat) == 2 * two_to(a));
                assert(false);
            }
            lemma_two_to_quotient(a, b);
        }
        let c = sd / up;
        proof {
            assert(c >= 1);
            assert(t * sd == (t * c) * up) by (nonlinear_arith)
                requires
                    sd == c * up,
            ;
            vstd::arithmetic::div_mod::lemma_fundamental_div_mod_converse(
                t * sd,
                up as int,
                t * c,
                0,
            );
        }
        if t > 0x1_0000_0000_0000_0000u128 / c {
            proof {
                let k = 0x1_0000_0000_0000_0000int / (c as int);
                assert(t * c > 0x1_0000_0000_0000_0000) by (nonlinear_arith)
                    requires
                        t >= k + 1,
                        k == 0x1_0000_0000_0000_0000int / (c as int),
                        c >= 1,
                ;
            }
            0x1_0000_0000_0000_0000u128
        } else {
            proof {
                let k = 0x1_0000_0000_0000_0000int / (c as int);
                assert(t * c <= 0x1_0000_0000_0000_0000) by (nonlinear_arith)
                    requires
                        t <= k,
                        k == 0x1_0000_0000_0000_0000int / (c as int),
                        c >= 1,
                ;
            }
            t * c
        }
    } else {
        proof {
            if b <= a {
                lemma_two_to_mono(b, a);
            }
            lemma_two_to_quotient(b, a);
            lemma_two_to_mono(0, (b - a) as nat);
        }
        let c = up / sd;
        let v = t / c;
        proof {
            let r = t % c;
            assert(t == v * c + r && 0 <= r < c) by (nonlinear_arith)
                requires
                    c >= 1,
                    v == t / c,
                    r == t % c,
            ;
            assert(t * sd == v * up + r * sd && 0 <= r * sd < up) by (nonlinear_arith)
                requires
                    t == v * c + r,
                    0 <= r < c,
                    up == c * sd,
                    sd >= 1,
            ;
            vstd::arithmetic::div_mod::lemma_fundamental_div_mod_converse(
                t * sd,
                up as int,
                v as int,
                r * sd,
            );
        }
        if v > 0x1_0000_0000_0000_0000u128 {
            0x1_0000_0000_0000_0000u128
        } else {
            v
        }
    }
}

/// What the double nearest `n / 10^9` is made of, for a fraction of a
/// second `n`: a significand no larger than its power of two, which is
/// from 2^53 to 2^82.
proof fn lemma_frac_double(n: int)
    requires
        1 <= n < 1_000_000_000,
    ensures
        crate::double::near_down(n, 1_000_000_000) == 1,
        0 <= near_sig(n, 1_000_000_000) <= near_up(n, 1_000_000_000),
        near_up(n, 1_000_000_000) == two_to(crate::double::up_from(n, 1_000_000_000, 0)),
        53 <= crate::double::up_from(n, 1_000_000_000, 0) <= 82,
{
    lemma_near(n, 1_000_000_000);
    let k = crate::double::up_from(n, 1_000_000_000, 0);
    let u = two_to(k);
    assert(crate::double::below_2_53(n, 1_000_000_000));
    reveal_with_fuel(two_to, 54);
    if k <= 52 {
        lemma_two_to_mono(k, 52);
        assert(n * u < 1_000_000_000 * 4503599627370496) by (nonlinear_arith)
            requires
                u <= 4503599627370496,
                n < 1_000_000_000,
                u >= 1,
        ;
        assert(false);
    }
    if k >= 83 {
        assert(two_to(82) == 4835703278458516698824704) by {
            crate::double::lemma_two_to_add(52, 30);
            reveal_with_fuel(two_to, 31);
        }
        lemma_two_to_mono(82, (k - 1) as nat);
        assert(n * two_to((k - 1) as nat) >= two_to((k - 1) as nat)) by (nonlinear_arith)
            requires
                n >= 1,
                two_to((k - 1) as nat) >= 1,
        ;
        assert(false);
    }
    lemma_two_to_mono(53, k);
    let x = n * u;
    let q = x / 1_000_000_000;
    let r = x % 1_000_000_000;
    assert(q + 1 <= u) by (nonlinear_arith)
        requires
            q == x / 1_000_000_000,
            x == n * u,
            n <= 999_999_999,
            u >= 9007199254740992,
    ;
    assert(0 <= q) by (nonlinear_arith)
        requires
            q == x / 1_000_000_000,
            x == n * u,
            n >= 1,
            u >= 1,
    ;
}

/// 2^53 * 2^65 is 2^118.
proof fn lemma_two_to_118()
    ensures
        9007199254740992 * two_to(65) == 0x40_0000_0000_0000_0000_0000_0000_0000,
{
    crate::double::lemma_two_to_add(53, 65);
    lemma_two_to_values();
    crate::double::lemma_two_to_large();
    crate::double::lemma_two_to_add(116, 2);
    assert(two_to(2) == 4) by {
        reveal_with_fuel(two_to, 3);
    }
}

/// `over53` stops where `m` first fits 53 bits, below the cap.
proof fn lemma_over53(m: int, j: nat)
    requires
        1 <= m < 0x40_0000_0000_0000_0000_0000_0000_0000,
        j <= 65,
    ensures
        j <= over53(m, j) <= 65,
        m < 9007199254740992 * two_to(over53(m, j)),
        over53(m, j) > j ==> 9007199254740992 * two_to((over53(m, j) - 1) as nat) <= m,
    decreases 128 - j,
{
    if m >= 9007199254740992 * two_to(j) {
        if j == 65 {
            lemma_two_to_118();
            assert(false);
        }
        lemma_over53(m, j + 1);
        assert(over53(m, j) == over53(m, j + 1));
        if over53(m, j) == j + 1 {
            assert(((j + 1) - 1) as nat == j);
        }
    }
}

/// The double nearest `nanos / 10^9`, as `frac_sig` over `frac_up`, and
/// the exponent of that power of two.
fn frac_of(nanos: u64) -> (r: (u128, u128, Ghost<nat>))
    requires
        nanos < 1_000_000_000,
    ensures
        r.0 == frac_sig(nanos as int),
        r.1 == frac_up(nanos as int),
        r.0 <= r.1,
        r.1 == two_to(r.2@),
        r.2@ <= 82,
        nanos > 0 ==> r.0 >= 1,
{
    if nanos == 0 {
        proof {
            assert(two_to(0) == 1);
        }
        (0, 1, Ghost(0))
    } else {
        let f = round_ratio(nanos as u128, 1_000_000_000);
        proof {
            lemma_frac_double(nanos as int);
            lemma_near(nanos as int, 1_000_000_000);
        }
        (f.sig, f.up, Ghost(crate::double::up_from(nanos as int, 1_000_000_000, 0)))
    }
}

/// The whole number `m` rounded to the nearest double: its significand
/// `round_half_even(m, p)` and its power of two `p = over53_pow(m)`, with
/// that power's exponent.
fn round53_of(m: u128) -> (r: (u128, u128, Ghost<nat>))
    requires
        1 <= m < 0x40_0000_0000_0000_0000_0000_0000_0000,
    ensures
        r.1 == over53_pow(m as int),
        r.0 == round_half_even(m as int, r.1 as int),
        r.1 == two_to(r.2@),
        r.2@ <= 65,
        1 <= r.0 <= 9007199254740992,
        r.0 * r.1 <= m + r.1,
        r.2@ > 0 ==> r.1 <= m,
{
    let mut j: u32 = 0;
    let mut p: u128 = 1;
    proof {
        assert(two_to(0) == 1);
        lemma_over53(m as int, 0);
    }
    while j < 65 && m >= 9007199254740992u128 * p
        invariant
            j <= 65,
            p == two_to(j as nat),
            1 <= p,
            1 <= m < 0x40_0000_0000_0000_0000_0000_0000_0000,
            j == 0 || 9007199254740992 * two_to((j - 1) as nat) <= m,
            over53(m as int, 0) == over53(m as int, j as nat),
        decreases 65 - j,
    {
        proof {
            assert(two_to((j + 1) as nat) == 2 * two_to(j as nat));
            assert(p <= 0x1_0000_0000_0000_0000_0000) by (nonlinear_arith)
                requires
                    9007199254740992 * p <= m,
                    m < 0x40_0000_0000_0000_0000_0000_0000_0000,
            ;
        }
        j = j + 1;
        p = p * 2;
    }
    proof {
        lemma_over53(m as int, j as nat);
        assert(over53(m as int, j as nat) == j);
    }
    let q = m / p;
    let rem = m % p;
    let r = if 2 * rem > p || (2 * rem == p && q % 2 == 1) {
        q + 1
    } else {
        q
    };
    proof {
        assert(q * p + rem == m && 0 <= rem < p) by (nonlinear_arith)
            requires
                q == (m as int) / (p as int),
                rem == (m as int) % (p as int),
                p >= 1,
        ;
        assert(q < 9007199254740992) by (nonlinear_arith)
            requires
                q * p + rem == m,
                0 <= rem,
                m < 9007199254740992 * p,
                p >= 1,
        ;
        if j == 0 {
            assert(q == m) by (nonlinear_arith)
                requires
                    q * p + rem == m,
                    0 <= rem < p,
                    p == 1,
            ;
        } else {
            assert(two_to(j as nat) == 2 * two_to((j - 1) as nat));
            assert(q >= 4503599627370496) by (nonlinear_arith)
                requires
                    q * p + rem == m,
                    0 <= rem < p,
                    p == 2 * two_to((j - 1) as nat),
                    9007199254740992 * two_to((j - 1) as nat) <= m,
            ;
            assert(p <= m) by (nonlinear_arith)
                requires
                    9007199254740992 * two_to((j - 1) as nat) <= m,
                    p == 2 * two_to((j - 1) as nat),
            ;
        }
        assert(r * p <= m + p) by (nonlinear_arith)
            requires
                q * p + rem == m,
                0 <= rem < p,
                r == q || r == q + 1,
                p >= 1,
        ;
    }
    (r, p, Ghost(j as nat))
}

/// The seconds of `used` nanoseconds as a double: `secs_num(used)` over
/// `secs_den(used)`.
fn secs_double(used: u64) -> (r: (u128, u128))
    requires
        used > 0,
    ensures
        r.0 == secs_num(used as int),
        r.1 == secs_den(used as int),
        1 <= r.0 <= 0x1_0000_0000_0000_0000,
        is_pow2(r.1 as int),
{
    let whole: u128 = (used / 1_000_000_000) as u128;
    let nanos: u64 = used % 1_000_000_000;
    let (fs, fu, Ghost(kf)) = frac_of(nanos);
    proof {
        assert(two_to(82) == 4835703278458516698824704) by {
            crate::double::lemma_two_to_add(52, 30);
            reveal_with_fuel(two_to, 53);
        }
        lemma_two_to_mono(kf, 82);
        lemma_two_to_mono(0, kf);
        assert(whole < 34359738368);
        assert(whole * fu + fs < 0x40_0000_0000_0000_0000_0000_0000_0000) by (nonlinear_arith)
            requires
                whole < 34359738368,
                fu <= 4835703278458516698824704,
                fs <= fu,
        ;
        assert(whole * fu + fs <= (whole + 1) * fu) by (nonlinear_arith)
            requires
                fs <= fu,
        ;
        assert(whole * fu + fs >= 1) by (nonlinear_arith)
            requires
                whole >= 1 || fs >= 1,
                fu >= 1,
                fs >= 0,
        ;
    }
    let m: u128 = whole * fu + fs;
    assert(m == secs_sum(used as int));
    let (r, p, Ghost(j)) = round53_of(m);
    if fu >= p {
        proof {
            if kf < j {
                lemma_two_to_mono((kf + 1) as nat, j);
                assert(two_to((kf + 1) as nat) == 2 * two_to(kf));
                assert(false);
            }
            lemma_two_to_quotient(kf, j);
            assert(is_pow2((fu / p) as int));
        }
        (r, fu / p)
    } else {
        proof {
            if j <= kf {
                lemma_two_to_mono(j, kf);
            }
            lemma_two_to_quotient(j, kf);
            lemma_two_to_mono(0, (j - kf) as nat);
            let c = p / fu;
            assert(p == c * fu);
            assert(r * c <= 2 * (whole + 1)) by (nonlinear_arith)
                requires
                    r * p <= m + p,
                    p <= m,
                    m <= (whole + 1) * fu,
                    p == c * fu,
                    fu >= 1,
            ;
            assert(r * c >= 1) by (nonlinear_arith)
                requires
                    r >= 1,
                    c >= 1,
            ;
            assert(is_pow2(1)) by {
                assert(1 == two_to(0));
            }
        }
        (r * (p / fu), 1)
    }
}

} // verus!
