//! Durations as the flags write them: a sequence of
//! decimal numbers, each with a unit (ns, us or µs, ms, s, m, h), such as
//! `300ms` or `1m30s`; `0` alone is zero. A duration here is a whole number
//! of nanoseconds, each term's share rounded down.

use vstd::arithmetic::div_mod::{lemma_div_denominator, lemma_hoist_over_denominator};
use vstd::prelude::*;
use vstd::string::*;

use crate::numbers::{all_dec, dec_digit, dec_value, is_dec, lemma_dec_value_nonneg, read_u64};
use crate::text::{chars_are, chars_of};

verus! {

pub open spec fn pow10(n: nat) -> int
    decreases n,
{
    if n == 0 {
        1
    } else {
        10 * pow10((n - 1) as nat)
    }
}

/// A character of a number: a digit or a decimal point.
pub open spec fn is_num_char(c: char) -> bool {
    is_dec(c) || c == '.'
}

/// Where the number that starts at `p` ends.
pub open spec fn num_end(s: Seq<char>, p: int) -> int
    decreases s.len() - p,
{
    if p >= s.len() {
        s.len() as int
    } else if !is_num_char(s[p]) {
        p
    } else {
        num_end(s, p + 1)
    }
}

/// Where the unit that starts at `p` ends.
pub open spec fn unit_end(s: Seq<char>, p: int) -> int
    decreases s.len() - p,
{
    if p >= s.len() {
        s.len() as int
    } else if is_num_char(s[p]) {
        p
    } else {
        unit_end(s, p + 1)
    }
}

pub proof fn lemma_num_end(s: Seq<char>, p: int)
    requires
        0 <= p <= s.len(),
    ensures
        p <= num_end(s, p) <= s.len(),
        num_end(s, p) < s.len() ==> !is_num_char(s[num_end(s, p)]),
        forall|i: int| p <= i < num_end(s, p) ==> is_num_char(#[trigger] s[i]),
    decreases s.len() - p,
{
    if p < s.len() && is_num_char(s[p]) {
        lemma_num_end(s, p + 1);
    }
}

pub proof fn lemma_unit_end(s: Seq<char>, p: int)
    requires
        0 <= p <= s.len(),
    ensures
        p <= unit_end(s, p) <= s.len(),
        unit_end(s, p) < s.len() ==> is_num_char(s[unit_end(s, p)]),
        forall|i: int| p <= i < unit_end(s, p) ==> !is_num_char(#[trigger] s[i]),
    decreases s.len() - p,
{
    if p < s.len() && !is_num_char(s[p]) {
        lemma_unit_end(s, p + 1);
    }
}

/// A term's unit comes after its number, and the next term after that.
pub proof fn lemma_ends(s: Seq<char>, p: int)
    requires
        0 <= p < s.len(),
        num_end(s, p) < s.len(),
    ensures
        p <= num_end(s, p) < unit_end(s, num_end(s, p)) <= s.len(),
{
    lemma_num_end(s, p);
    let n = num_end(s, p);
    lemma_unit_end(s, n);
    assert(unit_end(s, n) == unit_end(s, n + 1));
    lemma_unit_end(s, n + 1);
}

/// How many nanoseconds a unit is.
pub open spec fn unit_nanos(u: Seq<char>) -> Option<int> {
    if u == "ns"@ {
        Some(1)
    } else if u == "us"@ || u == "µs"@ {
        Some(1000)
    } else if u == "ms"@ {
        Some(1_000_000)
    } else if u == "s"@ {
        Some(1_000_000_000)
    } else if u == "m"@ {
        Some(60_000_000_000)
    } else if u == "h"@ {
        Some(3_600_000_000_000)
    } else {
        None
    }
}

/// Where the first `.` in `s` is, or `s.len()`.
pub open spec fn dot_at(s: Seq<char>) -> int
    decreases s.len(),
{
    if s.len() == 0 {
        0
    } else if s[0] == '.' {
        0
    } else {
        1 + dot_at(s.drop_first())
    }
}

/// A number of digits and at most one decimal point, with a digit on at
/// least one side of it: its whole digits and its fraction digits.
pub open spec fn number_parts(num: Seq<char>) -> Option<(Seq<char>, Seq<char>)> {
    let dot = dot_at(num);
    let whole = num.subrange(0, dot);
    let frac = if dot < num.len() {
        num.subrange(dot + 1, num.len() as int)
    } else {
        Seq::<char>::empty()
    };
    if all_dec(whole) && all_dec(frac) && whole.len() + frac.len() > 0 {
        Some((whole, frac))
    } else {
        None
    }
}

/// The nanoseconds of `whole.frac` units of `unit` ns, rounded down.
pub open spec fn term_nanos(whole: Seq<char>, frac: Seq<char>, unit: int) -> int {
    (dec_value(whole + frac) * unit) / pow10(frac.len())
}

/// The terms from `p` on, added up.
pub open spec fn terms(s: Seq<char>, p: int) -> Option<int>
    decreases s.len() - p,
{
    if p >= s.len() || p < 0 {
        Some(0)
    } else {
        let n = num_end(s, p);
        if n >= s.len() {
            None
        } else {
            let u = unit_end(s, n);
            match (number_parts(s.subrange(p, n)), unit_nanos(s.subrange(n, u))) {
                (Some((whole, frac)), Some(unit)) => {
                    proof {
                        lemma_ends(s, p);
                    }
                    match terms(s, u) {
                        Some(rest) => Some(term_nanos(whole, frac, unit) + rest),
                        None => None,
                    }
                },
                _ => None,
            }
        }
    }
}

/// The nanoseconds `s` writes, if it is a duration.
pub open spec fn duration_nanos(s: Seq<char>) -> Option<int> {
    if s == "0"@ {
        Some(0)
    } else if s.len() == 0 {
        None
    } else {
        terms(s, 0)
    }
}

} // verus!

verus! {

pub proof fn lemma_pow10_pos(n: nat)
    ensures
        pow10(n) >= 1,
    decreases n,
{
    if n > 0 {
        lemma_pow10_pos((n - 1) as nat);
    }
}

/// The digits `a` then `b` write `a`'s number shifted past `b`'s digits.
pub proof fn lemma_dec_concat(a: Seq<char>, b: Seq<char>)
    ensures
        dec_value(a + b) == dec_value(a) * pow10(b.len()) + dec_value(b),
    decreases b.len(),
{
    if b.len() == 0 {
        assert(a + b =~= a);
    } else {
        let b2 = b.drop_last();
        assert((a + b).drop_last() =~= a + b2);
        assert((a + b).last() == b.last());
        lemma_dec_concat(a, b2);
        let x = dec_value(a);
        let p = pow10(b2.len());
        assert((x * p + dec_value(b2)) * 10 == x * (10 * p) + dec_value(b2) * 10)
            by (nonlinear_arith);
    }
}

/// One step of reading a fraction from its last digit back: with `q` the
/// share of the digits after `d`, `(d * unit + q) / 10` is the share of
/// `d` and those digits.
proof fn lemma_fraction_step(d: int, rest: Seq<char>, unit: int, q: int)
    requires
        0 <= d <= 9,
        unit >= 1,
        all_dec(rest),
        q == (dec_value(rest) * unit) / pow10(rest.len()),
    ensures
        (d * unit + q) / 10 == ((d * pow10(rest.len()) + dec_value(rest)) * unit) / pow10(
            rest.len() + 1,
        ),
{
    let p = pow10(rest.len());
    lemma_pow10_pos(rest.len());
    lemma_dec_value_nonneg(rest);
    let r = dec_value(rest);
    let v = d * p + r;
    assert(v * unit == r * unit + (d * unit) * p) by (nonlinear_arith)
        requires
            v == d * p + r,
    ;
    assert(v * unit >= 0) by (nonlinear_arith)
        requires
            d >= 0,
            p >= 1,
            r >= 0,
            unit >= 1,
            v == d * p + r,
    ;
    lemma_hoist_over_denominator(r * unit, d * unit, p as nat);
    lemma_div_denominator(v * unit, p, 10);
    assert(pow10(rest.len() + 1) == 10 * p);
}

/// A term is its whole number's units plus its fraction's share.
proof fn lemma_term_split(whole: Seq<char>, frac: Seq<char>, unit: int)
    requires
        unit >= 1,
        all_dec(whole),
        all_dec(frac),
    ensures
        term_nanos(whole, frac, unit) == dec_value(whole) * unit + (dec_value(frac) * unit) / pow10(
            frac.len(),
        ),
{
    lemma_dec_concat(whole, frac);
    let p = pow10(frac.len());
    lemma_pow10_pos(frac.len());
    let w = dec_value(whole);
    let f = dec_value(frac);
    assert((w * p + f) * unit == f * unit + (w * unit) * p) by (nonlinear_arith);
    lemma_hoist_over_denominator(f * unit, w * unit, p as nat);
}

proof fn lemma_dot_at(s: Seq<char>, k: int)
    requires
        0 <= k <= s.len(),
        forall|i: int| 0 <= i < k ==> s[i] != '.',
        k == s.len() || s[k] == '.',
    ensures
        dot_at(s) == k,
    decreases s.len(),
{
    if s.len() > 0 && k > 0 {
        lemma_dot_at(s.drop_first(), k - 1);
    }
}

pub proof fn lemma_terms_nonneg(s: Seq<char>, p: int)
    ensures
        terms(s, p) matches Some(v) ==> v >= 0,
    decreases s.len() - p,
{
    if 0 <= p < s.len() {
        let n = num_end(s, p);
        if n < s.len() {
            lemma_ends(s, p);
            let u = unit_end(s, n);
            if let (Some((whole, frac)), Some(unit)) = (
                number_parts(s.subrange(p, n)),
                unit_nanos(s.subrange(n, u)),
            ) {
                lemma_terms_nonneg(s, u);
                lemma_term_split(whole, frac, unit);
                lemma_dec_value_nonneg(whole);
                lemma_dec_value_nonneg(frac);
                lemma_pow10_pos(frac.len());
                assert(dec_value(whole) * unit >= 0) by (nonlinear_arith)
                    requires
                        dec_value(whole) >= 0,
                        unit >= 1,
                ;
                assert(dec_value(frac) * unit >= 0) by (nonlinear_arith)
                    requires
                        dec_value(frac) >= 0,
                        unit >= 1,
                ;
            }
        }
    }
}

fn unit_of(cs: &[char], b: usize, e: usize) -> (r: Option<u64>)
    requires
        b <= e <= cs@.len(),
    ensures
        r matches Some(v) ==> unit_nanos(cs@.subrange(b as int, e as int)) == Some(v as int),
        r is None ==> unit_nanos(cs@.subrange(b as int, e as int)) is None,
{
    if chars_are(cs, b, e, "ns") {
        Some(1)
    } else if chars_are(cs, b, e, "us") || chars_are(cs, b, e, "µs") {
        Some(1000)
    } else if chars_are(cs, b, e, "ms") {
        Some(1_000_000)
    } else if chars_are(cs, b, e, "s") {
        Some(1_000_000_000)
    } else if chars_are(cs, b, e, "m") {
        Some(60_000_000_000)
    } else if chars_are(cs, b, e, "h") {
        Some(3_600_000_000_000)
    } else {
        None
    }
}

/// What a term's number comes to.
enum Term {
    /// Not a number.
    Invalid,
    /// More nanoseconds than a `u64` holds.
    TooBig,
    Nanos(u64),
}

/// The term whose number is `cs[p..n]`, in units of `unit` ns.
fn term_at(cs: &[char], p: usize, n: usize, unit: u64) -> (r: Term)
    requires
        p <= n <= cs@.len(),
        1 <= unit <= 3_600_000_000_000,
        forall|i: int| p <= i < n ==> is_num_char(#[trigger] cs@[i]),
    ensures
        ({
            let parts = number_parts(cs@.subrange(p as int, n as int));
            match r {
                Term::Invalid => parts is None,
                Term::TooBig => parts matches Some((whole, frac)) && term_nanos(
                    whole,
                    frac,
                    unit as int,
                ) > u64::MAX,
                Term::Nanos(v) => parts matches Some((whole, frac)) && term_nanos(
                    whole,
                    frac,
                    unit as int,
                ) == v,
            }
        }),
{
    let ghost num = cs@.subrange(p as int, n as int);
    let mut dot: usize = p;
    while dot < n && cs[dot] != '.'
        invariant
            p <= dot <= n <= cs@.len(),
            forall|i: int| p <= i < dot ==> cs@[i] != '.',
        decreases n - dot,
    {
        dot = dot + 1;
    }
    proof {
        lemma_dot_at(num, dot - p);
    }
    let ghost whole = num.subrange(0, dot - p);
    let ghost frac = if dot < n {
        num.subrange(dot - p + 1, num.len() as int)
    } else {
        Seq::<char>::empty()
    };
    assert(all_dec(whole)) by {
        assert forall|i: int| 0 <= i < whole.len() implies is_dec(#[trigger] whole[i]) by {
            assert(whole[i] == cs@[p + i]);
            assert(is_num_char(cs@[p + i]));
        }
    }
    let frac_start: usize = if dot < n {
        dot + 1
    } else {
        n
    };
    assert(frac =~= cs@.subrange(frac_start as int, n as int));
    let mut k: usize = frac_start;
    while k < n && cs[k] != '.'
        invariant
            frac_start <= k <= n <= cs@.len(),
            forall|i: int| frac_start <= i < k ==> cs@[i] != '.',
        decreases n - k,
    {
        k = k + 1;
    }
    if k < n {
        assert(!all_dec(frac)) by {
            assert(frac[k - frac_start] == '.');
        }
        return Term::Invalid;
    }
    assert(all_dec(frac)) by {
        assert forall|i: int| 0 <= i < frac.len() implies is_dec(#[trigger] frac[i]) by {
            assert(frac[i] == cs@[frac_start + i]);
            assert(is_num_char(cs@[frac_start + i]));
        }
    }
    if dot - p + (n - frac_start) == 0 {
        return Term::Invalid;
    }
    assert(number_parts(num) == Some((whole, frac)));
    // The fraction's share, from its last digit back.
    let mut q: u64 = 0;
    let mut j: usize = n;
    assert(cs@.subrange(n as int, n as int) =~= Seq::<char>::empty());
    while j > frac_start
        invariant
            frac_start <= j <= n <= cs@.len(),
            1 <= unit <= 3_600_000_000_000,
            frac =~= cs@.subrange(frac_start as int, n as int),
            all_dec(frac),
            q < unit,
            q == (dec_value(cs@.subrange(j as int, n as int)) * unit) / pow10((n - j) as nat),
        decreases j,
    {
        let ghost rest = cs@.subrange(j as int, n as int);
        j = j - 1;
        let c = cs[j];
        proof {
            assert(c == frac[j - frac_start]);
        }
        let d = (c as u32 - 48) as u64;
        proof {
            assert(all_dec(rest)) by {
                assert forall|i: int| 0 <= i < rest.len() implies is_dec(#[trigger] rest[i]) by {
                    assert(rest[i] == frac[j + 1 - frac_start + i]);
                }
            }
            lemma_fraction_step(d as int, rest, unit as int, q as int);
            assert(seq![c] + rest =~= cs@.subrange(j as int, n as int));
            lemma_dec_concat(seq![c], rest);
            assert(dec_value(seq![c]) == d) by {
                assert(seq![c].drop_last() =~= Seq::<char>::empty());
                assert(seq![c].last() == c);
                assert(dec_value(Seq::<char>::empty()) == 0);
                assert(dec_value(seq![c]) == 0 * 10 + dec_digit(c));
            }
            assert(d * unit + q < 10 * unit) by (nonlinear_arith)
                requires
                    d <= 9,
                    q < unit,
            ;
        }
        q = (d * unit + q) / 10;
    }
    let w = match read_u64(cs, p, dot) {
        Some(v) => v,
        None => {
            proof {
                assert(cs@.subrange(p as int, dot as int) =~= whole);
                lemma_term_split(whole, frac, unit as int);
                lemma_dec_value_nonneg(frac);
                lemma_pow10_pos(frac.len());
                let f = dec_value(frac);
                assert(f * unit >= 0) by (nonlinear_arith)
                    requires
                        f >= 0,
                        unit >= 1,
                ;
                let w = dec_value(whole);
                assert(w * unit >= w) by (nonlinear_arith)
                    requires
                        w >= 0,
                        unit >= 1,
                ;
            }
            return Term::TooBig;
        },
    };
    proof {
        assert(cs@.subrange(p as int, dot as int) =~= whole);
        lemma_term_split(whole, frac, unit as int);
    }
    match w.checked_mul(unit) {
        Some(m) => match m.checked_add(q) {
            Some(v) => Term::Nanos(v),
            None => Term::TooBig,
        },
        None => {
            proof {
                assert(q >= 0);
            }
            Term::TooBig
        },
    }
}

pub open spec fn plus(total: int, rest: Option<int>) -> Option<int> {
    match rest {
        Some(r) => Some(total + r),
        None => None,
    }
}

/// The nanoseconds `s` writes: an error unless it is a duration of at most
/// `u64::MAX` nanoseconds.
pub fn parse_duration(s: &str) -> (r: Result<u64, ()>)
    ensures
        r matches Ok(v) ==> duration_nanos(s@) == Some(v as int),
        r is Err ==> duration_nanos(s@) is None || duration_nanos(s@).unwrap() > u64::MAX,
{
    let cs = chars_of(s);
    duration_of(&cs)
}

/// `parse_duration` of the characters `cs`.
pub fn duration_of(cs: &[char]) -> (r: Result<u64, ()>)
    ensures
        r matches Ok(v) ==> duration_nanos(cs@) == Some(v as int),
        r is Err ==> duration_nanos(cs@) is None || duration_nanos(cs@).unwrap() > u64::MAX,
{
    let ghost s = cs@;
    proof {
        reveal_strlit("0");
    }
    if cs.len() == 1 && cs[0] == '0' {
        assert(s =~= "0"@);
        return Ok(0);
    }
    if cs.len() == 0 {
        return Err(());
    }
    assert(s != "0"@);
    let len = cs.len();
    let mut total: u64 = 0;
    let mut p: usize = 0;
    while p < len
        invariant
            cs@ == s,
            len == cs@.len() > 0,
            p <= len,
            s != "0"@,
            duration_nanos(s) == plus(total as int, terms(s, p as int)),
        decreases len - p,
    {
        let mut n: usize = p;
        while n < len && (('0' <= cs[n] && cs[n] <= '9') || cs[n] == '.')
            invariant
                p <= n <= len == cs@.len(),
                forall|i: int| p <= i < n ==> is_num_char(#[trigger] cs@[i]),
            decreases len - n,
        {
            n = n + 1;
        }
        proof {
            lemma_num_end(cs@, p as int);
            lemma_num_end_is(cs@, p as int, n as int);
        }
        if n >= len {
            return Err(());
        }
        let mut u: usize = n;
        while u < len && !(('0' <= cs[u] && cs[u] <= '9') || cs[u] == '.')
            invariant
                n <= u <= len == cs@.len(),
                forall|i: int| n <= i < u ==> !is_num_char(#[trigger] cs@[i]),
            decreases len - u,
        {
            u = u + 1;
        }
        proof {
            lemma_unit_end_is(cs@, n as int, u as int);
            lemma_ends(cs@, p as int);
        }
        let unit = match unit_of(cs, n, u) {
            Some(v) => v,
            None => {
                return Err(());
            },
        };
        let term = term_at(cs, p, n, unit);
        proof {
            lemma_terms_nonneg(s, u as int);
        }
        match term {
            Term::Invalid => {
                return Err(());
            },
            Term::TooBig => {
                return Err(());
            },
            Term::Nanos(v) => match total.checked_add(v) {
                Some(t) => {
                    total = t;
                },
                None => {
                    return Err(());
                },
            },
        }
        p = u;
    }
    Ok(total)
}

proof fn lemma_num_end_is(s: Seq<char>, p: int, n: int)
    requires
        0 <= p <= n <= s.len(),
        forall|i: int| p <= i < n ==> is_num_char(#[trigger] s[i]),
        n == s.len() || !is_num_char(s[n]),
    ensures
        num_end(s, p) == n,
    decreases n - p,
{
    if p < n {
        lemma_num_end_is(s, p + 1, n);
    }
}

proof fn lemma_unit_end_is(s: Seq<char>, p: int, u: int)
    requires
        0 <= p <= u <= s.len(),
        forall|i: int| p <= i < u ==> !is_num_char(#[trigger] s[i]),
        u == s.len() || is_num_char(s[u]),
    ensures
        unit_end(s, p) == u,
    decreases u - p,
{
    if p < u {
        lemma_unit_end_is(s, p + 1, u);
    }
}


/// A number read in `a + b` from inside `a` ends where it ends in `a`,
/// when it ends before `a` does.
proof fn lemma_num_end_prefix(a: Seq<char>, b: Seq<char>, p: int)
    requires
        0 <= p <= num_end(a, p) < a.len(),
    ensures
        num_end(a + b, p) == num_end(a, p),
    decreases a.len() - p,
{
    assert((a + b)[p] == a[p]);
    if is_num_char(a[p]) {
        lemma_num_end(a, p + 1);
        lemma_num_end_prefix(a, b, p + 1);
    }
}

/// A unit read in `a + b` from inside `a` ends where it ends in `a`, when
/// `b` starts with a number.
proof fn lemma_unit_end_prefix(a: Seq<char>, b: Seq<char>, n: int)
    requires
        0 <= n <= a.len(),
        b.len() > 0,
        is_num_char(b[0]),
    ensures
        unit_end(a + b, n) == unit_end(a, n),
    decreases a.len() - n,
{
    if n < a.len() && !is_num_char(a[n]) {
        assert((a + b)[n] == a[n]);
        lemma_unit_end_prefix(a, b, n + 1);
    } else if n < a.len() {
        assert((a + b)[n] == a[n]);
    } else if n == a.len() {
        assert((a + b)[n] == b[0]);
    }
}

/// Where a number read in `a + b` from inside `b` ends.
proof fn lemma_num_end_shift(a: Seq<char>, b: Seq<char>, q: int)
    requires
        0 <= q <= b.len(),
    ensures
        num_end(a + b, a.len() + q) == a.len() + num_end(b, q),
    decreases b.len() - q,
{
    if q < b.len() {
        assert((a + b)[a.len() + q] == b[q]);
        if is_num_char(b[q]) {
            lemma_num_end_shift(a, b, q + 1);
        }
    }
}

/// Where a unit read in `a + b` from inside `b` ends.
proof fn lemma_unit_end_shift(a: Seq<char>, b: Seq<char>, q: int)
    requires
        0 <= q <= b.len(),
    ensures
        unit_end(a + b, a.len() + q) == a.len() + unit_end(b, q),
    decreases b.len() - q,
{
    if q < b.len() {
        assert((a + b)[a.len() + q] == b[q]);
        if !is_num_char(b[q]) {
            lemma_unit_end_shift(a, b, q + 1);
        }
    }
}

/// The terms of `a + b` from inside `b` are the terms of `b` there.
proof fn lemma_terms_shift(a: Seq<char>, b: Seq<char>, q: int)
    requires
        0 <= q <= b.len(),
    ensures
        terms(a + b, a.len() + q) == terms(b, q),
    decreases b.len() - q,
{
    let s = a + b;
    let p = a.len() + q;
    if q < b.len() {
        lemma_num_end(b, q);
        lemma_num_end_shift(a, b, q);
        let n = num_end(b, q);
        if n < b.len() {
            lemma_ends(b, q);
            lemma_unit_end(b, n);
            lemma_unit_end_shift(a, b, n);
            let u = unit_end(b, n);
            assert(s.subrange(p, a.len() + n) =~= b.subrange(q, n));
            assert(s.subrange(a.len() + n, a.len() + u) =~= b.subrange(n, u));
            lemma_terms_shift(a, b, u);
            lemma_ends(s, p);
        }
    }
}

/// Reading `a + b` from inside `a`: `a`'s terms from there, then all of
/// `b`'s, when `b` starts with a number.
proof fn lemma_terms_prefix(a: Seq<char>, b: Seq<char>, p: int)
    requires
        0 <= p <= a.len(),
        b.len() > 0,
        is_num_char(b[0]),
        terms(a, p) is Some,
    ensures
        terms(a + b, p) == plus(terms(a, p)->0, terms(b, 0)),
    decreases a.len() - p,
{
    let s = a + b;
    if p == a.len() {
        lemma_terms_shift(a, b, 0);
    } else {
        lemma_num_end(a, p);
        let n = num_end(a, p);
        lemma_num_end_prefix(a, b, p);
        lemma_ends(a, p);
        lemma_unit_end(a, n);
        lemma_unit_end_prefix(a, b, n);
        let u = unit_end(a, n);
        assert(s.subrange(p, n) =~= a.subrange(p, n));
        assert(s.subrange(n, u) =~= a.subrange(n, u));
        lemma_terms_prefix(a, b, u);
        lemma_ends(s, p);
    }
}

/// A duration written in two parts is the sum of the parts: `1m30s` is
/// `1m` and `30s` added up. (`0` alone, a duration with no unit, is no
/// part: `5s0` is not a duration.)
pub proof fn law_durations_add(s1: Seq<char>, s2: Seq<char>)
    requires
        s1 != "0"@,
        s2 != "0"@,
        duration_nanos(s1) is Some,
        duration_nanos(s2) is Some,
    ensures
        duration_nanos(s1 + s2) == Some(duration_nanos(s1)->0 + duration_nanos(s2)->0),
{
    reveal_strlit("0");
    let s = s1 + s2;
    assert(s1.len() > 0 && s2.len() > 0);
    lemma_num_end(s2, 0);
    if !is_num_char(s2[0]) {
        assert(num_end(s2, 0) == 0);
        assert(s2.subrange(0, 0) =~= Seq::<char>::empty());
        assert(dot_at(Seq::<char>::empty()) == 0);
        assert(number_parts(s2.subrange(0, 0)) is None);
        assert(false);
    }
    lemma_terms_prefix(s1, s2, 0);
    assert(s.len() >= 2);
    assert(s != "0"@);
}

} // verus!
