//! Text utilities shared by the pipeline: the whitespace model,
//! trimming, character counting, and conversions between `str`,
//! `String` and `Vec<char>`.
//!
//! All reasoning is done over sequences of Unicode scalar values; a
//! line never contains an embedded newline, but nothing here depends
//! on that.

use vstd::prelude::*;
use vstd::string::StrSliceExecFns;

verus! {

/// The Unicode `White_Space` code points, as `char::is_whitespace`
/// recognises them.
pub open spec fn spec_is_ws(c: char) -> bool {
    c == ' ' || c == '\t' || c == '\n' || c == '\r' || c == '\u{0B}' || c == '\u{0C}'
        || c == '\u{85}' || c == '\u{A0}' || c == '\u{1680}' || (0x2000 <= (c as u32)
        && (c as u32) <= 0x200A) || c == '\u{2028}' || c == '\u{2029}' || c == '\u{202F}'
        || c == '\u{205F}' || c == '\u{3000}'
}

/// Check whether a character is whitespace.
#[verifier::when_used_as_spec(spec_is_ws)]
pub fn is_ws(c: char) -> (r: bool)
    ensures
        r == spec_is_ws(c),
{
    c == ' ' || c == '\t' || c == '\n' || c == '\r' || c == '\u{0B}' || c == '\u{0C}'
        || c == '\u{85}' || c == '\u{A0}' || c == '\u{1680}' || ((c as u32) >= 0x2000 && (c
        as u32) <= 0x200A) || c == '\u{2028}' || c == '\u{2029}' || c == '\u{202F}'
        || c == '\u{205F}' || c == '\u{3000}'
}

/// Length of the sequence once trailing whitespace is dropped.
pub open spec fn trim_end_len(s: Seq<char>) -> int
    decreases s.len(),
{
    if s.len() > 0 && spec_is_ws(s.last()) {
        trim_end_len(s.drop_last())
    } else {
        s.len() as int
    }
}

/// The sequence with trailing whitespace dropped.
pub open spec fn trim_end_s(s: Seq<char>) -> Seq<char> {
    s.subrange(0, trim_end_len(s))
}

/// Number of leading whitespace characters.
pub open spec fn trim_start_idx(s: Seq<char>) -> int
    decreases s.len(),
{
    if s.len() > 0 && spec_is_ws(s.first()) {
        1 + trim_start_idx(s.drop_first())
    } else {
        0
    }
}

/// The sequence with leading whitespace dropped.
pub open spec fn trim_start_s(s: Seq<char>) -> Seq<char> {
    s.subrange(trim_start_idx(s), s.len() as int)
}

/// The sequence with whitespace dropped on both sides.
pub open spec fn trim_s(s: Seq<char>) -> Seq<char> {
    trim_start_s(trim_end_s(s))
}

pub proof fn lemma_trim_end_len_le(s: Seq<char>)
    ensures
        0 <= trim_end_len(s) <= s.len(),
    decreases s.len(),
{
    if s.len() > 0 && spec_is_ws(s.last()) {
        lemma_trim_end_len_le(s.drop_last());
    }
}

pub proof fn lemma_trim_start_idx_le(s: Seq<char>)
    ensures
        0 <= trim_start_idx(s) <= s.len(),
    decreases s.len(),
{
    if s.len() > 0 && spec_is_ws(s.first()) {
        lemma_trim_start_idx_le(s.drop_first());
    }
}

/// Everything beyond the trimmed end is whitespace, and the trimmed
/// sequence does not end in whitespace.
pub proof fn lemma_trim_end_shape(s: Seq<char>)
    ensures
        0 <= trim_end_len(s) <= s.len(),
        forall|i: int| trim_end_len(s) <= i < s.len() ==> spec_is_ws(#[trigger] s[i]),
        trim_end_len(s) > 0 ==> !spec_is_ws(s[trim_end_len(s) - 1]),
    decreases s.len(),
{
    if s.len() > 0 && spec_is_ws(s.last()) {
        lemma_trim_end_shape(s.drop_last());
        assert forall|i: int| trim_end_len(s) <= i < s.len() implies spec_is_ws(#[trigger] s[i]) by {
            if i < s.len() - 1 {
                assert(s.drop_last()[i] == s[i]);
            } else {
                assert(s[i] == s.last());
            }
        }
    }
}

/// Everything before the trimmed start is whitespace, and the trimmed
/// sequence does not begin with whitespace.
pub proof fn lemma_trim_start_shape(s: Seq<char>)
    ensures
        0 <= trim_start_idx(s) <= s.len(),
        forall|i: int| 0 <= i < trim_start_idx(s) ==> spec_is_ws(#[trigger] s[i]),
        trim_start_idx(s) < s.len() ==> !spec_is_ws(s[trim_start_idx(s)]),
    decreases s.len(),
{
    if s.len() > 0 && spec_is_ws(s.first()) {
        lemma_trim_start_shape(s.drop_first());
        assert forall|i: int| 0 <= i < trim_start_idx(s) implies spec_is_ws(#[trigger] s[i]) by {
            if i > 0 {
                assert(s.drop_first()[i - 1] == s[i]);
            }
        }
        if trim_start_idx(s) < s.len() {
            assert(s.drop_first()[trim_start_idx(s) - 1] == s[trim_start_idx(s)]);
        }
    }
}

/// Index of the end of the line once trailing whitespace is ignored.
pub fn trim_end_index(s: &Vec<char>) -> (e: usize)
    ensures
        e == trim_end_len(s@),
{
    proof {
        assert(s@.subrange(0, s@.len() as int) =~= s@);
    }
    let mut e: usize = s.len();
    while e > 0 && is_ws(s[e - 1])
        invariant
            e <= s@.len(),
            trim_end_len(s@) == trim_end_len(s@.subrange(0, e as int)),
        decreases e,
    {
        proof {
            let t = s@.subrange(0, e as int);
            assert(t.last() == s@[e - 1]);
            assert(t.drop_last() =~= s@.subrange(0, e - 1));
        }
        e = e - 1;
    }
    proof {
        let t = s@.subrange(0, e as int);
        if e > 0 {
            assert(t.last() == s@[e - 1]);
        }
        assert(trim_end_len(t) == t.len());
    }
    e
}

/// Number of leading whitespace characters of the line.
pub fn trim_start_index(s: &Vec<char>) -> (b: usize)
    ensures
        b == trim_start_idx(s@),
{
    proof {
        lemma_trim_start_idx_le(s@);
        assert(s@.subrange(0, s@.len() as int) =~= s@);
    }
    let mut b: usize = 0;
    while b < s.len() && is_ws(s[b])
        invariant
            b <= s@.len(),
            trim_start_idx(s@) == b + trim_start_idx(s@.subrange(b as int, s@.len() as int)),
        decreases s@.len() - b,
    {
        proof {
            let t = s@.subrange(b as int, s@.len() as int);
            assert(t.first() == s@[b as int]);
            assert(t.drop_first() =~= s@.subrange(b + 1, s@.len() as int));
            lemma_trim_start_idx_le(s@.subrange(b + 1, s@.len() as int));
        }
        b = b + 1;
    }
    proof {
        let t = s@.subrange(b as int, s@.len() as int);
        if b < s@.len() {
            assert(t.first() == s@[b as int]);
        }
        assert(trim_start_idx(t) == 0);
    }
    b
}

/// Number of box characters in the sequence.
pub open spec fn count_box(s: Seq<char>) -> int
    decreases s.len(),
{
    if s.len() == 0 {
        0
    } else {
        count_box(s.drop_last()) + if crate::chars::spec_is_box_char(s.last()) {
            1int
        } else {
            0int
        }
    }
}

pub proof fn lemma_count_box_le(s: Seq<char>)
    ensures
        0 <= count_box(s) <= s.len(),
    decreases s.len(),
{
    if s.len() > 0 {
        lemma_count_box_le(s.drop_last());
    }
}

/// Whether the sequence holds at least one corner character.
pub open spec fn has_corner(s: Seq<char>) -> bool {
    exists|i: int| 0 <= i < s.len() && crate::chars::spec_is_corner(s[i])
}

/// Count the box characters among `s[lo..hi]`.
pub fn count_box_range(s: &Vec<char>, lo: usize, hi: usize) -> (n: usize)
    requires
        lo <= hi <= s@.len(),
    ensures
        n == count_box(s@.subrange(lo as int, hi as int)),
{
    proof {
        lemma_count_box_le(s@.subrange(lo as int, hi as int));
    }
    let mut n: usize = 0;
    let mut i: usize = lo;
    while i < hi
        invariant
            lo <= i <= hi <= s@.len(),
            n == count_box(s@.subrange(lo as int, i as int)),
            n <= i - lo,
        decreases hi - i,
    {
        proof {
            let t = s@.subrange(lo as int, i + 1 as int);
            assert(t.drop_last() =~= s@.subrange(lo as int, i as int));
            assert(t.last() == s@[i as int]);
        }
        if crate::chars::is_box_char(s[i]) {
            n = n + 1;
        }
        i = i + 1;
    }
    n
}

/// Check whether any of `s[lo..hi]` is a corner character.
pub fn has_corner_range(s: &Vec<char>, lo: usize, hi: usize) -> (r: bool)
    requires
        lo <= hi <= s@.len(),
    ensures
        r == has_corner(s@.subrange(lo as int, hi as int)),
{
    let ghost t = s@.subrange(lo as int, hi as int);
    let mut i: usize = lo;
    while i < hi
        invariant
            lo <= i <= hi <= s@.len(),
            t == s@.subrange(lo as int, hi as int),
            forall|j: int| 0 <= j < i - lo ==> !crate::chars::spec_is_corner(#[trigger] t[j]),
        decreases hi - i,
    {
        if crate::chars::is_corner(s[i]) {
            assert(t[i - lo] == s@[i as int]);
            return true;
        }
        i = i + 1;
    }
    false
}

/// A sequence of `n` space characters.
pub open spec fn spaces(n: int) -> Seq<char> {
    Seq::new(n as nat, |i: int| ' ')
}

/// Append `n` spaces to a character vector.
pub fn push_spaces(out: &mut Vec<char>, n: usize)
    ensures
        final(out)@ == old(out)@ + spaces(n as int),
{
    let mut i: usize = 0;
    while i < n
        invariant
            i <= n,
            out@ == old(out)@ + spaces(i as int),
        decreases n - i,
    {
        out.push(' ');
        proof {
            assert(out@ =~= old(out)@ + spaces(i + 1));
        }
        i = i + 1;
    }
}

/// The characters of a string slice, in order.
pub fn str_to_chars(s: &str) -> (r: Vec<char>)
    ensures
        r@ == s@,
{
    let n = s.unicode_len();
    let mut r: Vec<char> = Vec::new();
    let mut i: usize = 0;
    while i < n
        invariant
            i <= n,
            n == s@.len(),
            r@ == s@.subrange(0, i as int),
        decreases n - i,
    {
        r.push(s.get_char(i));
        proof {
            assert(r@ =~= s@.subrange(0, i + 1));
        }
        i = i + 1;
    }
    proof {
        assert(s@.subrange(0, s@.len() as int) =~= s@);
    }
    r
}

/// Relies on `String::push`: appends the given character to the end of
/// the string.
#[verifier::external_body]
fn push_char(s: &mut String, c: char)
    ensures
        final(s)@ == old(s)@.push(c),
{
    s.push(c);
}

/// A string holding exactly the given characters, in order.
pub fn chars_to_string(v: &Vec<char>) -> (r: String)
    ensures
        r@ == v@,
{
    let mut r = String::new();
    let mut i: usize = 0;
    while i < v.len()
        invariant
            i <= v@.len(),
            r@ == v@.subrange(0, i as int),
        decreases v@.len() - i,
    {
        push_char(&mut r, v[i]);
        proof {
            assert(r@ =~= v@.subrange(0, i + 1));
        }
        i = i + 1;
    }
    proof {
        assert(v@.subrange(0, v@.len() as int) =~= v@);
    }
    r
}


/// Append `v[lo..hi]` to `out`.
pub fn push_sub(out: &mut Vec<char>, v: &Vec<char>, lo: usize, hi: usize)
    requires
        lo <= hi <= v@.len(),
    ensures
        final(out)@ == old(out)@ + v@.subrange(lo as int, hi as int),
{
    let mut i: usize = lo;
    proof {
        assert(old(out)@ + v@.subrange(lo as int, lo as int) =~= old(out)@);
    }
    while i < hi
        invariant
            lo <= i <= hi <= v@.len(),
            out@ == old(out)@ + v@.subrange(lo as int, i as int),
        decreases hi - i,
    {
        out.push(v[i]);
        proof {
            assert(out@ =~= old(out)@ + v@.subrange(lo as int, i + 1));
        }
        i = i + 1;
    }
}

/// A subsequence relation: `a` can be read off `b` in order, skipping
/// characters of `b` at will. Insert-only edits leave the old text as
/// a subsequence of the new.
pub open spec fn is_subseq(a: Seq<char>, b: Seq<char>) -> bool
    decreases a.len() + b.len(),
{
    if a.len() == 0 {
        true
    } else if b.len() == 0 {
        false
    } else {
        (a.first() == b.first() && is_subseq(a.drop_first(), b.drop_first())) || is_subseq(
            a,
            b.drop_first(),
        )
    }
}

/// Every sequence is a subsequence of itself.
pub proof fn lemma_subseq_refl(a: Seq<char>)
    ensures
        is_subseq(a, a),
    decreases a.len(),
{
    if a.len() > 0 {
        lemma_subseq_refl(a.drop_first());
    }
}

/// A subsequence survives prepending to the larger side.
pub proof fn lemma_subseq_prepend(a: Seq<char>, b: Seq<char>, x: char)
    requires
        is_subseq(a, b),
    ensures
        is_subseq(a, seq![x] + b),
{
    if a.len() > 0 {
        assert((seq![x] + b).drop_first() =~= b);
    }
}

/// A subsequence survives any extension of the larger side on the
/// left.
pub proof fn lemma_subseq_concat_left(a: Seq<char>, b: Seq<char>, c: Seq<char>)
    requires
        is_subseq(a, b),
    ensures
        is_subseq(a, c + b),
    decreases c.len(),
{
    if c.len() == 0 {
        assert(c + b =~= b);
    } else {
        lemma_subseq_concat_left(a, b, c.drop_first());
        lemma_subseq_prepend(a, c.drop_first() + b, c.first());
        assert(seq![c.first()] + (c.drop_first() + b) =~= c + b);
    }
}

/// Splicing new text into the middle keeps the old text a
/// subsequence: `a + c` can be read off `a + b + c`.
pub proof fn lemma_subseq_insert_middle(a: Seq<char>, b: Seq<char>, c: Seq<char>)
    ensures
        is_subseq(a + c, a + b + c),
    decreases a.len(),
{
    if a.len() == 0 {
        assert(a + c =~= c);
        lemma_subseq_refl(c);
        lemma_subseq_concat_left(c, c, b);
        assert(b + c =~= a + b + c);
    } else {
        lemma_subseq_insert_middle(a.drop_first(), b, c);
        assert((a + c).first() == a.first());
        assert((a + b + c).first() == a.first());
        assert((a + c).drop_first() =~= a.drop_first() + c);
        assert((a + b + c).drop_first() =~= a.drop_first() + b + c);
        assert((a + c).len() > 0);
        assert((a + b + c).len() > 0);
    }
}

/// Subsequence is transitive.
pub proof fn lemma_subseq_trans(a: Seq<char>, b: Seq<char>, c: Seq<char>)
    requires
        is_subseq(a, b),
        is_subseq(b, c),
    ensures
        is_subseq(a, c),
    decreases c.len(),
{
    if a.len() == 0 {
    } else {
        assert(b.len() > 0);
        assert(c.len() > 0);
        if b.first() == c.first() && is_subseq(b.drop_first(), c.drop_first()) {
            if a.first() == b.first() && is_subseq(a.drop_first(), b.drop_first()) {
                lemma_subseq_trans(a.drop_first(), b.drop_first(), c.drop_first());
            } else {
                assert(is_subseq(a, b.drop_first()));
                lemma_subseq_trans(a, b.drop_first(), c.drop_first());
            }
        } else {
            assert(is_subseq(b, c.drop_first()));
            lemma_subseq_trans(a, b, c.drop_first());
        }
    }
}

/// A prefix is a subsequence.
pub proof fn lemma_subseq_prefix(a: Seq<char>, b: Seq<char>)
    ensures
        is_subseq(a, a + b),
{
    lemma_subseq_insert_middle(a, b, Seq::empty());
    assert(a + Seq::<char>::empty() =~= a);
    assert(a + b + Seq::<char>::empty() =~= a + b);
}

/// The characters of each line of a document held as strings.
pub open spec fn views_of_strings(ls: Seq<String>) -> Seq<Seq<char>> {
    ls.map_values(|l: String| l@)
}

/// The characters `v[lo..hi]` as a vector of their own.
pub fn sub_vec(v: &Vec<char>, lo: usize, hi: usize) -> (r: Vec<char>)
    requires
        lo <= hi <= v@.len(),
    ensures
        r@ == v@.subrange(lo as int, hi as int),
{
    let mut r: Vec<char> = Vec::new();
    push_sub(&mut r, v, lo, hi);
    proof {
        assert(Seq::<char>::empty() + v@.subrange(lo as int, hi as int) =~= v@.subrange(
            lo as int,
            hi as int,
        ));
    }
    r
}

/// Append the characters of a string slice to `out`.
pub fn push_str_chars(out: &mut Vec<char>, s: &str)
    ensures
        final(out)@ == old(out)@ + s@,
{
    let v = str_to_chars(s);
    push_sub(out, &v, 0, v.len());
    proof {
        assert(v@.subrange(0, v@.len() as int) =~= v@);
    }
}
} // verus!
