//! What a process's CPU time and resident memory are, read off the text
//! Linux gives for it under /proc: `stat`'s utime and stime, and
//! `status`'s `VmRSS` line.

use vstd::prelude::*;

use crate::flags::slice_chars;
use crate::config::{base_name, base_name_text};
use crate::numbers::{parse_i64, parse_unsigned, read_i64, read_unsigned};
use crate::text::{chars_of, find_char, first_of, string_of};

verus! {

/// Whether `c` is white space as Unicode's White_Space property has it,
/// which is what `str::trim` and `str::split_whitespace` go by.
pub open spec fn is_white_space(c: char) -> bool {
    ||| '\t' <= c <= '\r'
    ||| c == ' '
    ||| c == '\u{85}'
    ||| c == '\u{a0}'
    ||| c == '\u{1680}'
    ||| '\u{2000}' <= c <= '\u{200a}'
    ||| c == '\u{2028}'
    ||| c == '\u{2029}'
    ||| c == '\u{202f}'
    ||| c == '\u{205f}'
    ||| c == '\u{3000}'
}

/// Whether `c` is white space.
pub fn white_space(c: char) -> (r: bool)
    ensures
        r == is_white_space(c),
{
    ('\t' <= c && c <= '\r') || c == ' ' || c == '\u{85}' || c == '\u{a0}' || c == '\u{1680}' || (
    '\u{2000}' <= c && c <= '\u{200a}') || c == '\u{2028}' || c == '\u{2029}' || c == '\u{202f}'
        || c == '\u{205f}' || c == '\u{3000}'
}

/// The words of `s`: its runs of characters other than white space, in
/// order.
pub open spec fn words(s: Seq<char>) -> Seq<Seq<char>>
    decreases s.len(),
{
    if s.len() == 0 {
        Seq::empty()
    } else {
        let w = words(s.drop_last());
        let c = s.last();
        if is_white_space(c) {
            w
        } else if s.len() > 1 && !is_white_space(s[s.len() - 2]) {
            w.update(w.len() - 1, w.last().push(c))
        } else {
            w.push(seq![c])
        }
    }
}

/// A text that ends in a character other than white space has a word.
proof fn lemma_words_nonempty(s: Seq<char>)
    requires
        s.len() > 0,
        !is_white_space(s.last()),
    ensures
        words(s).len() > 0,
    decreases s.len(),
{
    if s.len() > 1 && !is_white_space(s[s.len() - 2]) {
        assert(s.drop_last().last() == s[s.len() - 2]);
        lemma_words_nonempty(s.drop_last());
    }
}

/// The words of `cs`.
pub fn split_words(cs: &[char]) -> (r: Vec<Vec<char>>)
    ensures
        r@.len() == words(cs@).len(),
        forall|k: int| 0 <= k < r@.len() ==> (#[trigger] r@[k])@ == words(cs@)[k],
{
    let mut out: Vec<Vec<char>> = Vec::new();
    let mut i: usize = 0;
    while i < cs.len()
        invariant
            i <= cs@.len(),
            out@.len() == words(cs@.subrange(0, i as int)).len(),
            forall|k: int|
                0 <= k < out@.len() ==> (#[trigger] out@[k])@ == words(cs@.subrange(0, i as int))[k],
        decreases cs@.len() - i,
    {
        let c = cs[i];
        let ghost p = cs@.subrange(0, i as int);
        let ghost q = cs@.subrange(0, i + 1);
        proof {
            assert(q.drop_last() =~= p);
            assert(q.last() == c);
        }
        if white_space(c) {
        } else if i > 0 && !white_space(cs[i - 1]) {
            proof {
                assert(q[q.len() - 2] == cs@[i - 1]);
                assert(p.last() == cs@[i - 1]);
                lemma_words_nonempty(p);
            }
            let ghost before = out@;
            let mut last = out.pop().unwrap();
            last.push(c);
            out.push(last);
            proof {
                assert forall|k: int| 0 <= k < out@.len() implies (#[trigger] out@[k])@ == words(
                    q,
                )[k] by {
                    if k < out@.len() - 1 {
                        assert(out@[k] == before[k]);
                    }
                }
            }
        } else {
            let ghost before = out@;
            let mut w: Vec<char> = Vec::new();
            w.push(c);
            out.push(w);
            proof {
                assert(w@ =~= seq![c]);
                assert forall|k: int| 0 <= k < out@.len() implies (#[trigger] out@[k])@ == words(
                    q,
                )[k] by {
                    if k < out@.len() - 1 {
                        assert(out@[k] == before[k]);
                    }
                }
            }
        }
        i = i + 1;
    }
    proof {
        assert(cs@.subrange(0, cs@.len() as int) =~= cs@);
    }
    out
}

/// Where the last `c` in `s` is, or -1.
pub open spec fn last_of(s: Seq<char>, c: char) -> int
    decreases s.len(),
{
    if s.len() == 0 {
        -1
    } else if s.last() == c {
        s.len() - 1
    } else {
        last_of(s.drop_last(), c)
    }
}

proof fn lemma_last_of(s: Seq<char>, c: char, k: int)
    requires
        -1 <= k < s.len(),
        forall|i: int| k < i < s.len() ==> s[i] != c,
        k == -1 || s[k] == c,
    ensures
        last_of(s, c) == k,
    decreases s.len(),
{
    if s.len() > 0 && k < s.len() - 1 {
        lemma_last_of(s.drop_last(), c, k);
    }
}

/// Whether slicing `stat` two bytes past its last `)` is in range and on a
/// character's boundary: there is no `)`, or one byte's character after
/// it.
pub open spec fn stat_sliceable(stat: Seq<char>) -> bool {
    let k = last_of(stat, ')');
    k == -1 || (k + 1 < stat.len() && stat[k + 1] < '\u{80}')
}

/// The fields of `stat` past the process's name, which is in parentheses
/// and may itself hold spaces and parentheses: the state, then the rest.
pub open spec fn stat_fields(stat: Seq<char>) -> Option<Seq<Seq<char>>> {
    let k = last_of(stat, ')');
    if k == -1 {
        None
    } else {
        Some(words(stat.subrange(k + 2, stat.len() as int)))
    }
}

/// The clock ticks of user and system time in `stat`: fields 14 and 15
/// of the line, the 12th and 13th past the name.
pub open spec fn stat_ticks_text(stat: Seq<char>) -> Option<int> {
    match stat_fields(stat) {
        None => None,
        Some(f) => if f.len() > 12 {
            match (parse_unsigned(f[11], u64::MAX as int), parse_unsigned(f[12], u64::MAX as int)) {
                (Some(u), Some(s)) => Some(u + s),
                _ => None,
            }
        } else {
            None
        },
    }
}

/// Where the last `)` in `cs` is, or -1 as `cs.len()`.
fn last_paren(cs: &[char]) -> (r: usize)
    ensures
        r <= cs@.len(),
        (r == cs@.len()) <==> (last_of(cs@, ')') == -1),
        r < cs@.len() ==> r == last_of(cs@, ')'),
{
    let mut k: usize = cs.len();
    while k > 0 && cs[k - 1] != ')'
        invariant
            k <= cs@.len(),
            forall|i: int| k <= i < cs@.len() ==> cs@[i] != ')',
        decreases k,
    {
        k = k - 1;
    }
    if k == 0 {
        proof {
            lemma_last_of(cs@, ')', -1);
        }
        return cs.len();
    }
    proof {
        lemma_last_of(cs@, ')', k - 1);
    }
    k - 1
}

/// The ticks `stat_ticks_text` gives, however large.
fn stat_ticks_wide(cs: &[char]) -> (r: Option<u128>)
    requires
        stat_sliceable(cs@),
    ensures
        match r {
            Some(t) => stat_ticks_text(cs@) == Some(t as int),
            None => stat_ticks_text(cs@) is None,
        },
{
    let k = last_paren(cs);
    if k == cs.len() {
        return None;
    }
    assert(last_of(cs@, ')') == k as int);
    assert(k + 1 < cs@.len());
    let rest = slice_chars(cs, k + 2, cs.len());
    let fields = split_words(&rest);
    if fields.len() <= 12 {
        return None;
    }
    let u = read_unsigned(&fields[11], u64::MAX);
    let s = read_unsigned(&fields[12], u64::MAX);
    match (u, s) {
        (Some(u), Some(s)) => Some(u as u128 + s as u128),
        _ => None,
    }
}

/// Whether `stat` is a text `cpu_time` takes: one it can slice past the
/// name, with no more ticks than a `u64` of nanoseconds holds.
pub fn cpu_time_defined(stat: &str) -> (r: bool)
    ensures
        r == (stat_sliceable(stat@) && (stat_ticks_text(stat@) matches Some(t) ==> t
            * 1_000_000_000 <= u64::MAX)),
{
    let cs = chars_of(stat);
    let k = last_paren(&cs);
    if k < cs.len() && !(k + 1 < cs.len() && cs[k + 1] < '\u{80}') {
        return false;
    }
    match stat_ticks_wide(&cs) {
        Some(t) => t <= 18_446_744_073u128,
        None => true,
    }
}

/// The clock ticks of user and system time a `/proc/<pid>/stat` text
/// gives.
pub fn stat_ticks(stat: &str) -> (r: Option<u64>)
    requires
        stat_sliceable(stat@),
        stat_ticks_text(stat@) matches Some(t) ==> t <= u64::MAX,
    ensures
        match r {
            Some(t) => stat_ticks_text(stat@) == Some(t as int),
            None => stat_ticks_text(stat@) is None,
        },
{
    let cs = chars_of(stat);
    match stat_ticks_wide(&cs) {
        Some(t) => Some(t as u64),
        None => None,
    }
}

/// The nanoseconds `ticks` clock ticks make at `hz` ticks a second; none
/// for a clock rate that is not positive.
pub fn ticks_nanos(ticks: u64, hz: i64) -> (r: Option<u64>)
    requires
        ticks * 1_000_000_000 <= u64::MAX,
    ensures
        hz <= 0 ==> r is None,
        hz > 0 ==> r == Some((ticks * 1_000_000_000 / (hz as int)) as u64),
{
    if hz <= 0 {
        return None;
    }
    Some(ticks * 1_000_000_000 / (hz as u64))
}

/// The user and system CPU time, in nanoseconds, a `/proc/<pid>/stat` text
/// gives at `hz` clock ticks a second.
pub fn cpu_time(stat: &str, hz: i64) -> (r: Option<u64>)
    requires
        stat_sliceable(stat@),
        stat_ticks_text(stat@) matches Some(t) ==> t * 1_000_000_000 <= u64::MAX,
    ensures
        match stat_ticks_text(stat@) {
            None => r is None,
            Some(t) => if hz <= 0 {
                r is None
            } else {
                r == Some((t * 1_000_000_000 / (hz as int)) as u64)
            },
        },
{
    match stat_ticks(stat) {
        None => None,
        Some(t) => ticks_nanos(t, hz),
    }
}

/// `s` without white space at its start.
pub open spec fn trim_start_white(s: Seq<char>) -> Seq<char>
    decreases s.len(),
{
    if s.len() > 0 && is_white_space(s[0]) {
        trim_start_white(s.drop_first())
    } else {
        s
    }
}

/// `s` without white space at its end.
pub open spec fn trim_end_white(s: Seq<char>) -> Seq<char>
    decreases s.len(),
{
    if s.len() > 0 && is_white_space(s.last()) {
        trim_end_white(s.drop_last())
    } else {
        s
    }
}

/// `s` without white space at either end, as `str::trim` gives it.
pub open spec fn trimmed(s: Seq<char>) -> Seq<char> {
    trim_end_white(trim_start_white(s))
}

/// `s` without every copy of `pat` at its start, as
/// `str::trim_start_matches` gives it.
pub open spec fn strip_prefixes(s: Seq<char>, pat: Seq<char>) -> Seq<char>
    decreases s.len(),
{
    if pat.len() > 0 && s.len() >= pat.len() && s.subrange(0, pat.len() as int) == pat {
        strip_prefixes(s.skip(pat.len() as int), pat)
    } else {
        s
    }
}

/// `s` without every copy of `pat` at its end, as `str::trim_end_matches`
/// gives it.
pub open spec fn strip_suffixes(s: Seq<char>, pat: Seq<char>) -> Seq<char>
    decreases s.len(),
{
    if pat.len() > 0 && s.len() >= pat.len() && s.subrange(s.len() - pat.len(), s.len() as int)
        == pat {
        strip_suffixes(s.subrange(0, s.len() - pat.len()), pat)
    } else {
        s
    }
}

/// `cs` trimmed of white space at both ends.
pub fn trim_white(cs: &[char]) -> (r: Vec<char>)
    ensures
        r@ == trimmed(cs@),
{
    let n = cs.len();
    let mut a: usize = 0;
    assert(cs@.skip(0) =~= cs@);
    while a < n && white_space(cs[a])
        invariant
            n == cs@.len(),
            a <= n,
            trim_start_white(cs@) == trim_start_white(cs@.skip(a as int)),
        decreases n - a,
    {
        proof {
            assert(cs@.skip(a as int).drop_first() =~= cs@.skip(a + 1));
        }
        a = a + 1;
    }
    let ghost t = cs@.skip(a as int);
    assert(trim_start_white(cs@) == t);
    let mut e: usize = n;
    while e > a && white_space(cs[e - 1])
        invariant
            n == cs@.len(),
            a <= e <= n,
            t == cs@.subrange(a as int, n as int),
            trim_end_white(t) == trim_end_white(cs@.subrange(a as int, e as int)),
        decreases e,
    {
        proof {
            assert(cs@.subrange(a as int, e as int).drop_last() =~= cs@.subrange(a as int, e - 1));
        }
        e = e - 1;
    }
    proof {
        assert(t =~= cs@.subrange(a as int, n as int));
    }
    slice_chars(cs, a, e)
}

/// `cs` without every copy of `pat` at its start.
pub fn strip_prefixes_of(cs: &[char], pat: &[char]) -> (r: Vec<char>)
    requires
        pat@.len() > 0,
    ensures
        r@ == strip_prefixes(cs@, pat@),
{
    let n = cs.len();
    let m = pat.len();
    let mut a: usize = 0;
    assert(cs@.skip(0) =~= cs@);
    while a <= n && n - a >= m && same_span(cs, a, pat)
        invariant
            n == cs@.len(),
            m == pat@.len(),
            m > 0,
            a <= n,
            strip_prefixes(cs@, pat@) == strip_prefixes(cs@.skip(a as int), pat@),
        decreases n - a,
    {
        proof {
            assert(cs@.skip(a as int).subrange(0, m as int) =~= cs@.subrange(a as int, a + m));
            assert(cs@.skip(a as int).skip(m as int) =~= cs@.skip(a + m));
        }
        a = a + m;
    }
    proof {
        if n - a >= m {
            assert(cs@.skip(a as int).subrange(0, m as int) =~= cs@.subrange(a as int, a + m));
        }
        assert(cs@.skip(a as int) =~= cs@.subrange(a as int, n as int));
    }
    slice_chars(cs, a, n)
}

/// `cs` without every copy of `pat` at its end.
pub fn strip_suffixes_of(cs: &[char], pat: &[char]) -> (r: Vec<char>)
    requires
        pat@.len() > 0,
    ensures
        r@ == strip_suffixes(cs@, pat@),
{
    let m = pat.len();
    let mut e: usize = cs.len();
    assert(cs@.subrange(0, e as int) =~= cs@);
    while e >= m && same_span(cs, e - m, pat)
        invariant
            e <= cs@.len(),
            m == pat@.len(),
            m > 0,
            strip_suffixes(cs@, pat@) == strip_suffixes(cs@.subrange(0, e as int), pat@),
        decreases e,
    {
        proof {
            let s = cs@.subrange(0, e as int);
            assert(s.subrange(s.len() - m, s.len() as int) =~= cs@.subrange(e - m, e as int));
            assert(s.subrange(0, s.len() - m) =~= cs@.subrange(0, e - m));
        }
        e = e - m;
    }
    proof {
        let s = cs@.subrange(0, e as int);
        if e >= m {
            assert(s.subrange(s.len() - m, s.len() as int) =~= cs@.subrange(e - m, e as int));
        }
    }
    slice_chars(cs, 0, e)
}

/// Whether `cs[a..a + pat.len()]` is `pat`.
fn same_span(cs: &[char], a: usize, pat: &[char]) -> (r: bool)
    requires
        a + pat@.len() <= cs@.len(),
    ensures
        r == (cs@.subrange(a as int, a + pat@.len()) == pat@),
{
    let n = cs.len();
    let mut i: usize = 0;
    while i < pat.len()
        invariant
            n == cs@.len(),
            a + pat@.len() <= cs@.len(),
            i <= pat@.len(),
            forall|j: int| 0 <= j < i ==> cs@[a + j] == pat@[j],
        decreases pat@.len() - i,
    {
        if cs[a + i] != pat[i] {
            assert(cs@.subrange(a as int, a + pat@.len())[i as int] != pat@[i as int]);
            return false;
        }
        i = i + 1;
    }
    assert(cs@.subrange(a as int, a + pat@.len()) =~= pat@);
    true
}

/// Where the line that starts at `p` ends: at the next newline, or at the
/// end of `s`.
pub open spec fn line_end(s: Seq<char>, p: int) -> int {
    p + first_of(s.subrange(p, s.len() as int), '\n')
}

/// The line that starts at `p`, as `str::lines` gives it: without its
/// newline, and without a carriage return before that newline.
pub open spec fn line_at(s: Seq<char>, p: int) -> Seq<char> {
    let e = line_end(s, p);
    let raw = s.subrange(p, e);
    if e < s.len() && raw.len() > 0 && raw.last() == '\r' {
        raw.drop_last()
    } else {
        raw
    }
}

pub proof fn lemma_first_of_bounds(s: Seq<char>, c: char)
    ensures
        0 <= first_of(s, c) <= s.len(),
        first_of(s, c) < s.len() ==> s[first_of(s, c)] == c,
    decreases s.len(),
{
    if s.len() > 0 && s[0] != c {
        lemma_first_of_bounds(s.drop_first(), c);
    }
}

/// Whether `s` starts with `pat`.
pub open spec fn starts_with(s: Seq<char>, pat: Seq<char>) -> bool {
    s.len() >= pat.len() && s.subrange(0, pat.len() as int) == pat
}

/// The first of the lines from `p` on that starts with `VmRSS:`.
pub open spec fn vmrss_line_from(s: Seq<char>, p: int) -> Option<Seq<char>>
    decreases s.len() - p,
{
    if p < 0 || p >= s.len() {
        None
    } else {
        let l = line_at(s, p);
        let e = line_end(s, p);
        if starts_with(l, "VmRSS:"@) {
            Some(l)
        } else {
            vmrss_line_from(s, if p <= e < s.len() { e + 1 } else { s.len() as int })
        }
    }
}

/// The kilobytes a `VmRSS:` line gives: past the label, trimmed, without
/// its `kB` unit, trimmed again.
pub open spec fn vmrss_value(line: Seq<char>) -> Seq<char> {
    trimmed(strip_suffixes(trimmed(strip_prefixes(line, "VmRSS:"@)), "kB"@))
}

/// The resident kilobytes a `/proc/<pid>/status` text gives.
pub open spec fn vmrss_kb_text(status: Seq<char>) -> Option<int> {
    match vmrss_line_from(status, 0) {
        None => None,
        Some(l) => parse_unsigned(vmrss_value(l), u64::MAX as int),
    }
}

/// The resident kilobytes a `/proc/<pid>/status` text gives.
pub fn vmrss_kb(status: &str) -> (r: Option<u64>)
    ensures
        match r {
            Some(kb) => vmrss_kb_text(status@) == Some(kb as int),
            None => vmrss_kb_text(status@) is None,
        },
{
    let cs = chars_of(status);
    let n = cs.len();
    let label = chars_of("VmRSS:");
    let unit = chars_of("kB");
    proof {
        reveal_strlit("VmRSS:");
        reveal_strlit("kB");
    }
    let mut p: usize = 0;
    while p < n
        invariant
            n == cs@.len(),
            cs@ == status@,
            label@ == "VmRSS:"@,
            unit@ == "kB"@,
            label@.len() == 6,
            unit@.len() == 2,
            p <= n,
            vmrss_line_from(cs@, 0) == vmrss_line_from(cs@, p as int),
        decreases n - p,
    {
        let e = find_char(&cs, p, n, '\n');
        proof {
            lemma_first_of_bounds(cs@.subrange(p as int, n as int), '\n');
            assert(e == line_end(cs@, p as int));
        }
        let cut = if e < n && e > p && cs[e - 1] == '\r' {
            e - 1
        } else {
            e
        };
        let line = slice_chars(&cs, p, cut);
        proof {
            let raw = cs@.subrange(p as int, e as int);
            if e < n && e > p && cs@[e - 1] == '\r' {
                assert(raw.last() == '\r');
                assert(line@ =~= raw.drop_last());
            } else {
                assert(line@ =~= raw);
            }
            assert(line@ == line_at(cs@, p as int));
        }
        if line.len() >= 6 && same_span(&line, 0, &label) {
            assert(starts_with(line@, "VmRSS:"@));
            let v1 = strip_prefixes_of(&line, &label);
            let v2 = trim_white(&v1);
            let v3 = strip_suffixes_of(&v2, &unit);
            let v4 = trim_white(&v3);
            return read_unsigned(&v4, u64::MAX);
        }
        assert(!starts_with(line@, "VmRSS:"@));
        if e >= n {
            proof {
                assert(vmrss_line_from(cs@, n as int) is None);
                assert(vmrss_line_from(cs@, p as int) == vmrss_line_from(cs@, n as int));
            }
            return None;
        }
        p = e + 1;
    }
    None
}

/// Whether `status` is a text `rss_bytes` takes: one whose kilobytes, if
/// it gives any, a `u64` of bytes holds.
pub fn rss_bytes_defined(status: &str) -> (r: bool)
    ensures
        r == (vmrss_kb_text(status@) matches Some(kb) ==> kb * 1024 <= u64::MAX),
{
    match vmrss_kb(status) {
        Some(kb) => kb <= 18_014_398_509_481_983u64,
        None => true,
    }
}

/// The resident bytes a `/proc/<pid>/status` text gives: its `VmRSS`
/// kilobytes, 1024 bytes each.
pub fn rss_bytes(status: &str) -> (r: Option<u64>)
    requires
        vmrss_kb_text(status@) matches Some(kb) ==> kb * 1024 <= u64::MAX,
    ensures
        match vmrss_kb_text(status@) {
            Some(kb) => r == Some((kb * 1024) as u64),
            None => r is None,
        },
{
    match vmrss_kb(status) {
        Some(kb) => Some(kb * 1024),
        None => None,
    }
}

/// `s` read as an `i32`, as `str::parse::<i32>` reads it.
pub open spec fn parse_i32(s: Seq<char>) -> Option<int> {
    match parse_i64(s) {
        Some(v) => if i32::MIN <= v <= i32::MAX {
            Some(v)
        } else {
            None
        },
        None => None,
    }
}

/// A process id: a `/proc` entry's name read as an `i32`, if it is one.
pub fn parse_pid(name: &str) -> (r: Option<i32>)
    ensures
        match r {
            Some(p) => parse_i32(name@) == Some(p as int),
            None => parse_i32(name@) is None,
        },
{
    let cs = chars_of(name);
    match read_i64(&cs) {
        Some(v) => if -2147483648 <= v && v <= 2147483647 {
            Some(v as i32)
        } else {
            None
        },
        None => None,
    }
}

/// The bytes of a command line before its first NUL: the program's path.
pub open spec fn argv0_bytes(cmdline: Seq<u8>) -> Seq<u8>
    decreases cmdline.len(),
{
    if cmdline.len() == 0 || cmdline[0] == 0 {
        Seq::empty()
    } else {
        seq![cmdline[0]] + argv0_bytes(cmdline.drop_first())
    }
}

/// The program's path a `/proc/<pid>/cmdline` holds: its bytes up to the
/// first NUL.
pub fn argv0(cmdline: &[u8]) -> (r: Vec<u8>)
    ensures
        r@ == argv0_bytes(cmdline@),
{
    let mut out: Vec<u8> = Vec::new();
    let mut i: usize = 0;
    while i < cmdline.len() && cmdline[i] != 0
        invariant
            i <= cmdline@.len(),
            forall|k: int| 0 <= k < i ==> cmdline@[k] != 0,
            out@ == cmdline@.subrange(0, i as int),
        decreases cmdline@.len() - i,
    {
        out.push(cmdline[i]);
        i = i + 1;
        assert(out@ =~= cmdline@.subrange(0, i as int));
    }
    proof {
        lemma_argv0(cmdline@, i as int);
    }
    out
}

proof fn lemma_argv0(s: Seq<u8>, i: int)
    requires
        0 <= i <= s.len(),
        forall|k: int| 0 <= k < i ==> s[k] != 0,
        i == s.len() || s[i] == 0,
    ensures
        argv0_bytes(s) == s.subrange(0, i),
    decreases s.len(),
{
    if s.len() > 0 && s[0] != 0 {
        lemma_argv0(s.drop_first(), i - 1);
        assert(s.subrange(0, i) =~= seq![s[0]] + s.drop_first().subrange(0, i - 1));
    } else {
        assert(s.subrange(0, i) =~= Seq::<u8>::empty());
    }
}

/// The words `w` joined by single spaces.
pub open spec fn joined(w: Seq<Seq<char>>) -> Seq<char>
    decreases w.len(),
{
    if w.len() == 0 {
        Seq::empty()
    } else if w.len() == 1 {
        w[0]
    } else {
        joined(w.drop_last()) + seq![' '] + w.last()
    }
}

/// The process a line of `ps -o pid=,comm= -A` lists: its pid, and the
/// base name of the command after it, whose words are joined by single
/// spaces; none for a line without both.
pub open spec fn ps_entry(line: Seq<char>) -> Option<(int, Seq<char>)> {
    let w = words(line);
    if w.len() == 0 {
        None
    } else {
        match parse_i32(w[0]) {
            None => None,
            Some(pid) => if w.len() < 2 {
                None
            } else {
                Some((pid, base_name_text(joined(w.skip(1)))))
            },
        }
    }
}

/// The process a line of `ps -o pid=,comm= -A` lists.
pub fn ps_line(line: &str) -> (r: Option<(i32, String)>)
    ensures
        match (r, ps_entry(line@)) {
            (Some((pid, name)), Some((p, n))) => pid as int == p && name@ == n,
            (None, None) => true,
            _ => false,
        },
{
    let cs = chars_of(line);
    let w = split_words(&cs);
    if w.len() == 0 {
        return None;
    }
    let pid = match read_i64(&w[0]) {
        Some(v) => if -2147483648 <= v && v <= 2147483647 {
            v as i32
        } else {
            return None;
        },
        None => {
            return None;
        },
    };
    if w.len() < 2 {
        return None;
    }
    let ghost rest = words(cs@).skip(1);
    let mut command: Vec<char> = Vec::new();
    let mut k: usize = 1;
    while k < w.len()
        invariant
            1 <= k <= w@.len(),
            w@.len() == words(cs@).len(),
            forall|j: int| 0 <= j < w@.len() ==> (#[trigger] w@[j])@ == words(cs@)[j],
            rest == words(cs@).skip(1),
            command@ == joined(rest.subrange(0, k - 1)),
        decreases w@.len() - k,
    {
        let ghost before = command@;
        if k > 1 {
            command.push(' ');
        }
        let mut j: usize = 0;
        while j < w[k].len()
            invariant
                j <= w@[k as int]@.len(),
                k < w@.len(),
                command@ == before + (if k > 1 {
                    seq![' ']
                } else {
                    Seq::<char>::empty()
                }) + w@[k as int]@.subrange(0, j as int),
            decreases w@[k as int]@.len() - j,
        {
            command.push(w[k][j]);
            j = j + 1;
            assert(command@ =~= before + (if k > 1 {
                seq![' ']
            } else {
                Seq::<char>::empty()
            }) + w@[k as int]@.subrange(0, j as int));
        }
        proof {
            let r2 = rest.subrange(0, k as int);
            assert(w@[k as int]@.subrange(0, j as int) =~= w@[k as int]@);
            assert(r2.drop_last() =~= rest.subrange(0, k - 1));
            assert(r2.last() == w@[k as int]@);
            if k == 1 {
                assert(joined(rest.subrange(0, 0)) =~= Seq::<char>::empty());
                assert(command@ =~= r2[0]);
            } else {
                assert(command@ =~= joined(r2.drop_last()) + seq![' '] + r2.last());
            }
        }
        k = k + 1;
    }
    proof {
        assert(rest.subrange(0, rest.len() as int) =~= rest);
    }
    let text = string_of(&command);
    Some((pid, base_name(text.as_str())))
}

} // verus!
