//! Decimal reading and writing for line numbers: a verified
//! counterpart of integer parsing and formatting, used by the
//! line-range syntax.

use vstd::prelude::*;

verus! {

/// The decimal digit character for a value from 0 to 9.
pub open spec fn dec_digit(d: int) -> char {
    if d == 0 {
        '0'
    } else if d == 1 {
        '1'
    } else if d == 2 {
        '2'
    } else if d == 3 {
        '3'
    } else if d == 4 {
        '4'
    } else if d == 5 {
        '5'
    } else if d == 6 {
        '6'
    } else if d == 7 {
        '7'
    } else if d == 8 {
        '8'
    } else {
        '9'
    }
}

/// The decimal digits of a nonnegative number, most significant
/// first.
pub open spec fn dec_seq(n: int) -> Seq<char>
    decreases n,
{
    if n < 10 {
        seq![dec_digit(n)]
    } else {
        dec_seq(n / 10).push(dec_digit(n % 10))
    }
}

/// Whether a character is an ASCII digit.
pub open spec fn spec_is_digit(c: char) -> bool {
    '0' <= c <= '9'
}

/// The value of an ASCII digit.
pub open spec fn digit_val(c: char) -> int {
    (c as int) - ('0' as int)
}

/// Whether every character of the sequence is an ASCII digit.
pub open spec fn all_digits(s: Seq<char>) -> bool {
    forall|i: int| 0 <= i < s.len() ==> spec_is_digit(#[trigger] s[i])
}

/// The value of a digit sequence read as a decimal number.
pub open spec fn dec_value(s: Seq<char>) -> int
    decreases s.len(),
{
    if s.len() == 0 {
        0
    } else {
        dec_value(s.drop_last()) * 10 + digit_val(s.last())
    }
}

/// A token is a well-formed number when it is nonempty, all digits,
/// and its value fits the machine's line counter.
pub open spec fn is_usize_token(s: Seq<char>) -> bool {
    s.len() > 0 && all_digits(s) && dec_value(s) <= usize::MAX
}

/// Digit values are nonnegative, so decimal values are nonnegative
/// and grow along prefixes.
pub proof fn lemma_dec_value_prefix(s: Seq<char>, j: int)
    requires
        all_digits(s),
        0 <= j <= s.len(),
    ensures
        0 <= dec_value(s.subrange(0, j)) <= dec_value(s),
    decreases s.len() - j,
{
    if j == s.len() {
        assert(s.subrange(0, j) =~= s);
        lemma_dec_value_nonneg(s);
    } else {
        lemma_dec_value_prefix(s, j + 1);
        let p = s.subrange(0, j + 1);
        assert(p.drop_last() =~= s.subrange(0, j));
        assert(p.last() == s[j]);
        lemma_dec_value_nonneg(s.subrange(0, j));
    }
}

pub proof fn lemma_dec_value_nonneg(s: Seq<char>)
    requires
        all_digits(s),
    ensures
        dec_value(s) >= 0,
    decreases s.len(),
{
    if s.len() > 0 {
        assert(all_digits(s.drop_last())) by {
            assert(forall|i: int|
                0 <= i < s.len() - 1 ==> #[trigger] s.drop_last()[i] == s[i]);
        }
        lemma_dec_value_nonneg(s.drop_last());
    }
}

/// The digit character of a value below ten.
pub fn digit_char(d: usize) -> (c: char)
    requires
        d < 10,
    ensures
        c == dec_digit(d as int),
{
    if d == 0 {
        '0'
    } else if d == 1 {
        '1'
    } else if d == 2 {
        '2'
    } else if d == 3 {
        '3'
    } else if d == 4 {
        '4'
    } else if d == 5 {
        '5'
    } else if d == 6 {
        '6'
    } else if d == 7 {
        '7'
    } else if d == 8 {
        '8'
    } else {
        '9'
    }
}

/// Append the decimal digits of `n` to `out`.
pub fn push_decimal(out: &mut Vec<char>, n: usize)
    ensures
        final(out)@ == old(out)@ + dec_seq(n as int),
    decreases n,
{
    if n < 10 {
        out.push(digit_char(n));
        proof {
            assert(out@ =~= old(out)@ + dec_seq(n as int));
        }
    } else {
        push_decimal(out, n / 10);
        out.push(digit_char(n % 10));
        proof {
            assert(out@ =~= old(out)@ + dec_seq(n as int));
        }
    }
}

/// Check whether a character is an ASCII digit.
#[verifier::when_used_as_spec(spec_is_digit)]
pub fn is_digit(c: char) -> (r: bool)
    ensures
        r == spec_is_digit(c),
{
    c >= '0' && c <= '9'
}

/// Parse `v[lo..hi]` as a decimal number. The parse succeeds exactly
/// on nonempty all-digit tokens whose value fits in `usize`.
pub fn parse_usize_range(v: &Vec<char>, lo: usize, hi: usize) -> (r: Option<usize>)
    requires
        lo <= hi <= v@.len(),
    ensures
        r is Some <==> is_usize_token(v@.subrange(lo as int, hi as int)),
        r matches Some(n) ==> n == dec_value(v@.subrange(lo as int, hi as int)),
{
    let ghost t = v@.subrange(lo as int, hi as int);
    if lo == hi {
        return Option::None;
    }
    let mut acc: usize = 0;
    let mut i: usize = lo;
    while i < hi
        invariant
            lo <= i <= hi <= v@.len(),
            t == v@.subrange(lo as int, hi as int),
            all_digits(t.subrange(0, i - lo)),
            acc == dec_value(t.subrange(0, i - lo)),
        decreases hi - i,
    {
        let c = v[i];
        proof {
            assert(t[i - lo] == v@[i as int]);
        }
        if !is_digit(c) {
            proof {
                assert(!all_digits(t));
            }
            return Option::None;
        }
        let d = (c as u32 - '0' as u32) as usize;
        proof {
            let p = t.subrange(0, i - lo + 1);
            assert(p.drop_last() =~= t.subrange(0, i - lo));
            assert(p.last() == t[i - lo]);
            assert(all_digits(p)) by {
                assert(forall|k: int| 0 <= k < p.len() - 1 ==> p[k] == t.subrange(0, i - lo)[k]);
            }
        }
        if acc > usize::MAX / 10 || (acc == usize::MAX / 10 && d > usize::MAX % 10) {
            proof {
                let p = t.subrange(0, i - lo + 1);
                assert(dec_value(p) == acc * 10 + d);
                assert(dec_value(p) > usize::MAX);
                if all_digits(t) {
                    lemma_dec_value_prefix(t, i - lo + 1);
                    assert(dec_value(t) > usize::MAX);
                }
            }
            return Option::None;
        }
        acc = acc * 10 + d;
        i = i + 1;
    }
    proof {
        assert(t.subrange(0, hi - lo) =~= t);
    }
    Option::Some(acc)
}

} // verus!
