//! Scanning byte ranges: finding a byte, trimming ASCII whitespace,
//! comparing without regard to ASCII case, and reading unsigned numbers the
//! way `str::parse` and `from_str_radix` read them.

use vstd::prelude::*;

verus! {

/// `u8::is_ascii_whitespace`: space, tab, line feed, form feed, carriage
/// return.
pub open spec fn is_ascii_ws(b: u8) -> bool {
    b == 32 || b == 9 || b == 10 || b == 12 || b == 13
}

/// `u8::to_ascii_lowercase`.
pub open spec fn lower(b: u8) -> u8 {
    if 65 <= b <= 90 {
        (b + 32) as u8
    } else {
        b
    }
}

/// The first index in `p..e` that holds `x`, or `e` when none does.
pub open spec fn byte_from(s: Seq<u8>, p: int, e: int, x: u8) -> int
    decreases e - p,
{
    if p >= e {
        e
    } else if s[p] == x {
        p
    } else {
        byte_from(s, p + 1, e, x)
    }
}

/// Where `s[b..e]` starts once its leading ASCII whitespace is dropped.
pub open spec fn trim_start(s: Seq<u8>, b: int, e: int) -> int
    decreases e - b,
{
    if b < e && is_ascii_ws(s[b]) {
        trim_start(s, b + 1, e)
    } else {
        b
    }
}

/// Where `s[b..e]` ends once its trailing ASCII whitespace is dropped.
pub open spec fn trim_end(s: Seq<u8>, b: int, e: int) -> int
    decreases e - b,
{
    if b < e && is_ascii_ws(s[e - 1]) {
        trim_end(s, b, e - 1)
    } else {
        e
    }
}

/// The value of `b` as a digit in base `radix` (10 or 16), if it is one.
pub open spec fn digit_value(b: u8, radix: int) -> Option<int> {
    if 48 <= b <= 57 {
        Some(b - 48)
    } else if radix == 16 && 97 <= b <= 102 {
        Some(b - 87)
    } else if radix == 16 && 65 <= b <= 70 {
        Some(b - 55)
    } else {
        None
    }
}

pub open spec fn all_digits(s: Seq<u8>, b: int, e: int, radix: int) -> bool {
    forall|i: int| b <= i < e ==> (#[trigger] digit_value(s[i], radix)) is Some
}

/// The number that the digits `s[b..e]` write in base `radix`.
pub open spec fn digits_value(s: Seq<u8>, b: int, e: int, radix: int) -> int
    decreases e - b,
{
    if e <= b {
        0
    } else {
        digits_value(s, b, e - 1, radix) * radix + digit_value(s[e - 1], radix)->0
    }
}

/// How `usize::from_str_radix` reads `s[b..e]`: an optional `+`, then one
/// or more digits, whose value must fit in a `usize`.
pub open spec fn parse_uint(s: Seq<u8>, b: int, e: int, radix: int) -> Option<int> {
    let d = if b < e && s[b] == 43 {
        b + 1
    } else {
        b
    };
    if d < e && all_digits(s, d, e, radix) && digits_value(s, d, e, radix) <= usize::MAX {
        Some(digits_value(s, d, e, radix))
    } else {
        None
    }
}

/// `s[b..e]` equals the lower-case word `w` when both are taken in lower
/// case: `eq_ignore_ascii_case`.
pub open spec fn eq_lower(s: Seq<u8>, b: int, e: int, w: Seq<u8>) -> bool {
    &&& e - b == w.len()
    &&& forall|i: int| 0 <= i < w.len() ==> lower(#[trigger] s[b + i]) == w[i]
}

/// The lower-case word `w` occurs in `s[b..e]` taken in lower case.
pub open spec fn contains_lower(s: Seq<u8>, b: int, e: int, w: Seq<u8>) -> bool {
    exists|i: int| b <= i && i + w.len() <= e && #[trigger] eq_lower(s, i, i + w.len(), w)
}

pub proof fn lemma_byte_from_bounds(s: Seq<u8>, p: int, e: int, x: u8)
    requires
        p <= e,
    ensures
        p <= byte_from(s, p, e, x) <= e,
    decreases e - p,
{
    if p < e && s[p] != x {
        lemma_byte_from_bounds(s, p + 1, e, x);
    }
}

pub proof fn lemma_byte_from_found(s: Seq<u8>, p: int, e: int, x: u8)
    requires
        0 <= p <= e <= s.len(),
    ensures
        byte_from(s, p, e, x) < e ==> s[byte_from(s, p, e, x)] == x,
        forall|i: int| p <= i < byte_from(s, p, e, x) ==> s[i] != x,
    decreases e - p,
{
    if p < e && s[p] != x {
        lemma_byte_from_found(s, p + 1, e, x);
    }
}

pub proof fn lemma_trim_bounds(s: Seq<u8>, b: int, e: int)
    requires
        b <= e,
    ensures
        b <= trim_start(s, b, e) <= e,
        b <= trim_end(s, b, e) <= e,
    decreases e - b,
{
    if b < e && is_ascii_ws(s[b]) {
        lemma_trim_bounds(s, b + 1, e);
    }
    if b < e && is_ascii_ws(s[e - 1]) {
        lemma_trim_bounds(s, b, e - 1);
    }
}

/// A longer run of digits never has a smaller value.
pub proof fn lemma_digits_monotone(s: Seq<u8>, b: int, i: int, e: int, radix: int)
    requires
        b <= i <= e,
        radix == 10 || radix == 16,
        all_digits(s, b, e, radix),
    ensures
        0 <= digits_value(s, b, i, radix) <= digits_value(s, b, e, radix),
    decreases e - i,
{
    assert(all_digits(s, b, i, radix));
    lemma_digits_nonneg(s, b, i, radix);
    if i < e {
        lemma_digits_monotone(s, b, i, e - 1, radix);
        lemma_digits_nonneg(s, b, e - 1, radix);
        let v = digits_value(s, b, e - 1, radix);
        let d = digit_value(s[e - 1], radix)->0;
        assert(digit_value(s[e - 1], radix) is Some);
        assert(v <= v * radix + d) by (nonlinear_arith)
            requires
                v >= 0,
                radix >= 1,
                d >= 0,
        ;
    }
}

pub proof fn lemma_digits_nonneg(s: Seq<u8>, b: int, e: int, radix: int)
    requires
        radix == 10 || radix == 16,
        all_digits(s, b, e, radix),
    ensures
        digits_value(s, b, e, radix) >= 0,
    decreases e - b,
{
    if e > b {
        lemma_digits_nonneg(s, b, e - 1, radix);
        let v = digits_value(s, b, e - 1, radix);
        assert(digit_value(s[e - 1], radix) is Some);
        assert(v * radix >= 0) by (nonlinear_arith)
            requires
                v >= 0,
                radix >= 1,
        ;
    }
}

pub proof fn lemma_parse_uint_nonneg(s: Seq<u8>, b: int, e: int, radix: int)
    requires
        radix == 10 || radix == 16,
    ensures
        parse_uint(s, b, e, radix) matches Some(v) ==> 0 <= v <= usize::MAX,
{
    let d = if b < e && s[b] == 43 {
        b + 1
    } else {
        b
    };
    if parse_uint(s, b, e, radix) is Some {
        lemma_digits_nonneg(s, d, e, radix);
    }
}

/// The first index in `p..e` that holds `x`, or `e`.
pub fn find_byte(s: &[u8], p: usize, e: usize, x: u8) -> (k: usize)
    requires
        p <= e <= s@.len(),
    ensures
        k == byte_from(s@, p as int, e as int, x),
{
    let mut i: usize = p;
    while i < e
        invariant
            p <= i <= e <= s@.len(),
            byte_from(s@, i as int, e as int, x) == byte_from(s@, p as int, e as int, x),
        decreases e - i,
    {
        if s[i] == x {
            return i;
        }
        i = i + 1;
    }
    i
}

/// `trim_start` of `s[b..e]`.
pub fn skip_ws(s: &[u8], b: usize, e: usize) -> (r: usize)
    requires
        b <= e <= s@.len(),
    ensures
        r == trim_start(s@, b as int, e as int),
{
    let mut i: usize = b;
    while i < e && (s[i] == 32 || s[i] == 9 || s[i] == 10 || s[i] == 12 || s[i] == 13)
        invariant
            b <= i <= e <= s@.len(),
            trim_start(s@, i as int, e as int) == trim_start(s@, b as int, e as int),
        decreases e - i,
    {
        i = i + 1;
    }
    i
}

/// `trim_end` of `s[b..e]`.
pub fn skip_ws_back(s: &[u8], b: usize, e: usize) -> (r: usize)
    requires
        b <= e <= s@.len(),
    ensures
        r == trim_end(s@, b as int, e as int),
{
    let mut j: usize = e;
    while b < j && (s[j - 1] == 32 || s[j - 1] == 9 || s[j - 1] == 10 || s[j - 1] == 12 || s[j
        - 1] == 13)
        invariant
            b <= j <= e <= s@.len(),
            trim_end(s@, b as int, j as int) == trim_end(s@, b as int, e as int),
        decreases j - b,
    {
        j = j - 1;
    }
    j
}

fn digit_of(c: u8, radix: usize) -> (r: Option<usize>)
    requires
        radix == 10 || radix == 16,
    ensures
        r matches Some(v) ==> digit_value(c, radix as int) == Some(v as int),
        r is None ==> digit_value(c, radix as int) is None,
{
    if 48 <= c && c <= 57 {
        Some((c - 48) as usize)
    } else if radix == 16 && 97 <= c && c <= 102 {
        Some((c - 87) as usize)
    } else if radix == 16 && 65 <= c && c <= 70 {
        Some((c - 55) as usize)
    } else {
        None
    }
}

/// `usize::from_str_radix` on `s[b..e]`, for base 10 or 16.
pub fn read_uint(s: &[u8], b: usize, e: usize, radix: usize) -> (r: Option<usize>)
    requires
        b <= e <= s@.len(),
        radix == 10 || radix == 16,
    ensures
        r matches Some(v) ==> parse_uint(s@, b as int, e as int, radix as int) == Some(v as int),
        r is None ==> parse_uint(s@, b as int, e as int, radix as int) is None,
{
    let d: usize = if b < e && s[b] == 43 {
        b + 1
    } else {
        b
    };
    if d >= e {
        return None;
    }
    let ghost rx = radix as int;
    let mut acc: usize = 0;
    let mut i: usize = d;
    while i < e
        invariant
            d <= i <= e <= s@.len(),
            b <= d,
            d as int == (if b < e && s@[b as int] == 43 {
                b + 1
            } else {
                b as int
            }),
            radix == 10 || radix == 16,
            rx == radix as int,
            all_digits(s@, d as int, i as int, rx),
            acc as int == digits_value(s@, d as int, i as int, rx),
        decreases e - i,
    {
        let dv: usize = match digit_of(s[i], radix) {
            Some(v) => v,
            None => {
                assert(!all_digits(s@, d as int, e as int, rx)) by {
                    assert(digit_value(s@[i as int], rx) is None);
                }
                return None;
            },
        };
        let next = match acc.checked_mul(radix) {
            Some(m) => m.checked_add(dv),
            None => None,
        };
        match next {
            Some(v) => {
                acc = v;
            },
            None => {
                proof {
                    if all_digits(s@, d as int, e as int, rx) {
                        lemma_digits_monotone(s@, d as int, i + 1, e as int, rx);
                        assert(acc * radix >= 0) by (nonlinear_arith)
                            requires
                                acc >= 0,
                                radix >= 1,
                        ;
                    }
                }
                return None;
            },
        }
        i = i + 1;
    }
    Some(acc)
}

/// `s[b..e]` equals the lower-case word `w` ignoring ASCII case.
pub fn is_word(s: &[u8], b: usize, e: usize, w: &[u8]) -> (r: bool)
    requires
        b <= e <= s@.len(),
    ensures
        r == eq_lower(s@, b as int, e as int, w@),
{
    if e - b != w.len() {
        return false;
    }
    let mut i: usize = 0;
    while i < w.len()
        invariant
            b <= e <= s@.len(),
            e - b == w@.len(),
            0 <= i <= w@.len(),
            forall|j: int| 0 <= j < i ==> lower(#[trigger] s@[b + j]) == w@[j],
        decreases w@.len() - i,
    {
        let c: u8 = s[b + i];
        let l: u8 = if 65 <= c && c <= 90 {
            c + 32
        } else {
            c
        };
        if l != w[i] {
            assert(lower(s@[b + i]) != w@[i as int]);
            return false;
        }
        i = i + 1;
    }
    true
}

/// Whether the lower-case word `w` occurs in `s[b..e]` ignoring ASCII case.
pub fn has_word(s: &[u8], b: usize, e: usize, w: &[u8]) -> (r: bool)
    requires
        b <= e <= s@.len(),
    ensures
        r == contains_lower(s@, b as int, e as int, w@),
{
    if e - b < w.len() {
        assert forall|i: int| b <= i && i + w@.len() <= e implies !#[trigger] eq_lower(
            s@,
            i,
            i + w@.len(),
            w@,
        ) by {}
        return false;
    }
    let mut i: usize = b;
    while i <= e - w.len()
        invariant
            b <= i,
            b <= e <= s@.len(),
            w@.len() <= e - b,
            i <= e - w@.len() + 1,
            forall|j: int| b <= j < i ==> !#[trigger] eq_lower(s@, j, j + w@.len(), w@),
        decreases e - i,
    {
        if is_word(s, i, i + w.len(), w) {
            return true;
        }
        i = i + 1;
    }
    assert forall|j: int| b <= j && j + w@.len() <= e implies !#[trigger] eq_lower(
        s@,
        j,
        j + w@.len(),
        w@,
    ) by {}
    false
}

} // verus!
