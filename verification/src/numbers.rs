//! Reading integers out of text as `str::parse` reads them: an optional
//! sign, then one or more ASCII digits, in the range of the type.

use vstd::prelude::*;

verus! {

pub open spec fn is_dec(c: char) -> bool {
    '0' <= c <= '9'
}

pub open spec fn dec_digit(c: char) -> int {
    c as int - 48
}

pub open spec fn all_dec(s: Seq<char>) -> bool {
    forall|i: int| 0 <= i < s.len() ==> is_dec(#[trigger] s[i])
}

/// The number the decimal digits `s` write.
pub open spec fn dec_value(s: Seq<char>) -> int
    decreases s.len(),
{
    if s.len() == 0 {
        0
    } else {
        dec_value(s.drop_last()) * 10 + dec_digit(s.last())
    }
}

/// `s` read as an unsigned number of at most `max`: an optional `+`, then
/// one or more digits.
pub open spec fn parse_unsigned(s: Seq<char>, max: int) -> Option<int> {
    let d = if s.len() > 0 && s[0] == '+' {
        s.skip(1)
    } else {
        s
    };
    if d.len() > 0 && all_dec(d) && dec_value(d) <= max {
        Some(dec_value(d))
    } else {
        None
    }
}

/// `s` read as an `i64`: an optional `+` or `-`, then one or more digits.
pub open spec fn parse_i64(s: Seq<char>) -> Option<int> {
    if s.len() > 0 && s[0] == '-' {
        let d = s.skip(1);
        if d.len() > 0 && all_dec(d) && dec_value(d) <= 0x8000_0000_0000_0000 {
            Some(-dec_value(d))
        } else {
            None
        }
    } else {
        parse_unsigned(s, i64::MAX as int)
    }
}

pub proof fn lemma_dec_value_nonneg(s: Seq<char>)
    requires
        all_dec(s),
    ensures
        dec_value(s) >= 0,
    decreases s.len(),
{
    if s.len() > 0 {
        assert(all_dec(s.drop_last()));
        lemma_dec_value_nonneg(s.drop_last());
    }
}

/// A longer run of digits never has a smaller value.
pub proof fn lemma_dec_value_prefix(s: Seq<char>, i: int)
    requires
        all_dec(s),
        0 <= i <= s.len(),
    ensures
        0 <= dec_value(s.subrange(0, i)) <= dec_value(s),
    decreases s.len() - i,
{
    assert(all_dec(s.subrange(0, i)));
    lemma_dec_value_nonneg(s.subrange(0, i));
    if i < s.len() {
        assert(all_dec(s.drop_last()));
        lemma_dec_value_prefix(s.drop_last(), i);
        assert(s.drop_last().subrange(0, i) =~= s.subrange(0, i));
        lemma_dec_value_nonneg(s.drop_last());
        assert(is_dec(s[s.len() - 1]));
    } else {
        assert(s.subrange(0, i) =~= s);
    }
}

/// The digits `s[b..e]` read as a `u64`, when they are all digits and fit.
pub fn read_u64(s: &[char], b: usize, e: usize) -> (r: Option<u64>)
    requires
        b <= e <= s@.len(),
    ensures
        r matches Some(v) ==> {
            let d = s@.subrange(b as int, e as int);
            &&& all_dec(d)
            &&& dec_value(d) == v
        },
        r is None ==> {
            let d = s@.subrange(b as int, e as int);
            !all_dec(d) || dec_value(d) > u64::MAX
        },
{
    let ghost d = s@.subrange(b as int, e as int);
    let mut acc: u64 = 0;
    let mut i: usize = b;
    while i < e
        invariant
            b <= i <= e <= s@.len(),
            d == s@.subrange(b as int, e as int),
            all_dec(s@.subrange(b as int, i as int)),
            acc == dec_value(s@.subrange(b as int, i as int)),
        decreases e - i,
    {
        let c = s[i];
        proof {
            assert(s@.subrange(b as int, i + 1).drop_last() =~= s@.subrange(b as int, i as int));
            assert(d[i - b] == c);
        }
        if !('0' <= c && c <= '9') {
            return None;
        }
        let digit = (c as u32 - 48) as u64;
        let next = match acc.checked_mul(10) {
            Some(m) => m.checked_add(digit),
            None => None,
        };
        match next {
            Some(v) => {
                acc = v;
            },
            None => {
                proof {
                    if all_dec(d) {
                        lemma_dec_value_prefix(d, i + 1 - b);
                        assert(d.subrange(0, i + 1 - b) =~= s@.subrange(b as int, i + 1));
                    }
                }
                return None;
            },
        }
        i = i + 1;
        proof {
            assert(all_dec(s@.subrange(b as int, i as int)));
        }
    }
    Some(acc)
}

/// `s` read as an unsigned number of at most `max`.
pub fn read_unsigned(s: &[char], max: u64) -> (r: Option<u64>)
    ensures
        r matches Some(v) ==> parse_unsigned(s@, max as int) == Some(v as int),
        r is None ==> parse_unsigned(s@, max as int) is None,
{
    let b: usize = if s.len() > 0 && s[0] == '+' {
        1
    } else {
        0
    };
    proof {
        if b == 1 {
            assert(s@.skip(1) =~= s@.subrange(1, s@.len() as int));
        } else {
            assert(s@ =~= s@.subrange(0, s@.len() as int));
        }
    }
    if b >= s.len() {
        return None;
    }
    match read_u64(s, b, s.len()) {
        Some(v) => if v <= max {
            Some(v)
        } else {
            None
        },
        None => None,
    }
}

/// `s` read as an `i64`.
pub fn read_i64(s: &[char]) -> (r: Option<i64>)
    ensures
        r matches Some(v) ==> parse_i64(s@) == Some(v as int),
        r is None ==> parse_i64(s@) is None,
{
    if s.len() > 0 && s[0] == '-' {
        proof {
            assert(s@.skip(1) =~= s@.subrange(1, s@.len() as int));
        }
        if s.len() == 1 {
            return None;
        }
        match read_u64(s, 1, s.len()) {
            Some(v) => if v < 0x8000_0000_0000_0000 {
                Some(-(v as i64))
            } else if v == 0x8000_0000_0000_0000 {
                Some(i64::MIN)
            } else {
                None
            },
            None => None,
        }
    } else {
        match read_unsigned(s, 0x7fff_ffff_ffff_ffff) {
            Some(v) => Some(v as i64),
            None => None,
        }
    }
}

} // verus!
