//! Characters, decimal numbers and strings, with their specifications.

use vstd::prelude::*;
use vstd::string::*;

verus! {

/// The ASCII digit for `d`, which is below ten.
pub open spec fn digit_char(d: int) -> char {
    ((48 + d) as u8) as char
}

/// The decimal digits of `n`, most significant first, with no leading zero.
pub open spec fn decimal(n: nat) -> Seq<char>
    decreases n,
{
    if n < 10 {
        seq![digit_char(n as int)]
    } else {
        decimal(n / 10).push(digit_char((n % 10) as int))
    }
}

/// Appends `c` to `s` with `String::push`, which std documents as
/// appending the character to the end of the string: trusted to leave the
/// string's characters as they were, followed by `c`.
#[verifier::external_body]
pub(crate) fn push_char(s: &mut String, c: char)
    ensures
        final(s)@ == old(s)@.push(c),
{
    s.push(c);
}

/// Appends the decimal digits of `n` to `s`.
pub fn push_decimal(s: &mut String, n: u64)
    ensures
        final(s)@ == old(s)@ + decimal(n as nat),
    decreases n,
{
    if n >= 10 {
        push_decimal(s, n / 10);
    }
    let d = (n % 10) as u8;
    push_char(s, (48u8 + d) as char);
    assert(final(s)@ == old(s)@ + decimal(n as nat));
}

} // verus!

verus! {

/// Whether `a` and `b` hold the same characters.
pub fn str_eq(a: &str, b: &str) -> (r: bool)
    ensures
        r == (a@ == b@),
{
    let n = a.unicode_len();
    if n != b.unicode_len() {
        return false;
    }
    let mut i: usize = 0;
    while i < n
        invariant
            n == a@.len() == b@.len(),
            i <= n,
            forall|j: int| 0 <= j < i ==> a@[j] == b@[j],
        decreases n - i,
    {
        if a.get_char(i) != b.get_char(i) {
            return false;
        }
        i = i + 1;
    }
    assert(a@ =~= b@);
    true
}

/// The characters of `s`.
pub fn chars_of(s: &str) -> (r: Vec<char>)
    ensures
        r@ == s@,
{
    let n = s.unicode_len();
    let mut out: Vec<char> = Vec::new();
    let mut i: usize = 0;
    while i < n
        invariant
            n == s@.len(),
            i <= n,
            out@ == s@.subrange(0, i as int),
        decreases n - i,
    {
        out.push(s.get_char(i));
        i = i + 1;
        assert(out@ =~= s@.subrange(0, i as int));
    }
    assert(out@ =~= s@);
    out
}

/// A string of the characters `cs`.
pub fn string_of(cs: &[char]) -> (r: String)
    ensures
        r@ == cs@,
{
    let mut out = String::new();
    let mut i: usize = 0;
    while i < cs.len()
        invariant
            i <= cs@.len(),
            out@ == cs@.subrange(0, i as int),
        decreases cs@.len() - i,
    {
        push_char(&mut out, cs[i]);
        i = i + 1;
        assert(out@ =~= cs@.subrange(0, i as int));
    }
    assert(out@ =~= cs@);
    out
}

} // verus!

verus! {

/// Where the first `c` in `s` is, or `s.len()`.
pub open spec fn first_of(s: Seq<char>, c: char) -> int
    decreases s.len(),
{
    if s.len() == 0 {
        0
    } else if s[0] == c {
        0
    } else {
        1 + first_of(s.drop_first(), c)
    }
}

pub proof fn lemma_first_of(s: Seq<char>, c: char, k: int)
    requires
        0 <= k <= s.len(),
        forall|i: int| 0 <= i < k ==> s[i] != c,
        k == s.len() || s[k] == c,
    ensures
        first_of(s, c) == k,
    decreases s.len(),
{
    if s.len() > 0 && k > 0 {
        lemma_first_of(s.drop_first(), c, k - 1);
    }
}

/// The first `c` in `cs[b..e]`, or `e`.
pub fn find_char(cs: &[char], b: usize, e: usize, c: char) -> (r: usize)
    requires
        b <= e <= cs@.len(),
    ensures
        b <= r <= e,
        r == b + first_of(cs@.subrange(b as int, e as int), c),
{
    let mut i: usize = b;
    while i < e && cs[i] != c
        invariant
            b <= i <= e <= cs@.len(),
            forall|j: int| b <= j < i ==> cs@[j] != c,
        decreases e - i,
    {
        i = i + 1;
    }
    proof {
        lemma_first_of(cs@.subrange(b as int, e as int), c, i - b);
    }
    i
}

/// `cs[b..e]` holds the characters of `lit`.
pub fn chars_are(cs: &[char], b: usize, e: usize, lit: &str) -> (r: bool)
    requires
        b <= e <= cs@.len(),
    ensures
        r == (cs@.subrange(b as int, e as int) == lit@),
{
    let n = lit.unicode_len();
    if e - b != n {
        return false;
    }
    let mut i: usize = 0;
    while i < n
        invariant
            b <= e <= cs@.len(),
            e - b == n == lit@.len(),
            i <= n,
            forall|j: int| 0 <= j < i ==> cs@[b + j] == lit@[j],
        decreases n - i,
    {
        if cs[b + i] != lit.get_char(i) {
            assert(cs@.subrange(b as int, e as int)[i as int] != lit@[i as int]);
            return false;
        }
        i = i + 1;
    }
    assert(cs@.subrange(b as int, e as int) =~= lit@);
    true
}

/// `cs` holds the characters of `lit`.
pub fn is_text(cs: &[char], lit: &str) -> (r: bool)
    ensures
        r == (cs@ == lit@),
{
    let r = chars_are(cs, 0, cs.len(), lit);
    assert(cs@.subrange(0, cs@.len() as int) =~= cs@);
    r
}

} // verus!
