//! Line-range selection: parsing of specifications such as `10-50`,
//! `1-100,200-250`, `50-` and `-100`, merging of overlapping or
//! adjacent ranges, and the overlap test used to filter blocks.
//!
//! Ranges are 1-indexed and inclusive on both ends; an end of
//! `usize::MAX` stands for "to the end of the file".

use vstd::prelude::*;
use crate::num::{dec_seq, dec_value, is_usize_token, parse_usize_range};
use crate::text::{trim_s, sub_vec, push_str_chars, str_to_chars, chars_to_string};
use vstd::string::StringExecFns;
use vstd::multiset::Multiset;

verus! {

/// A range of lines to process (1-indexed, inclusive on both ends).
#[derive(Debug, Clone, Copy, PartialEq, Eq, Structural)]
pub struct LineRange {
    /// Start line (1-indexed, inclusive).
    pub start: usize,
    /// End line (1-indexed, inclusive; `usize::MAX` means "to end of
    /// file").
    pub end: usize,
}

/// The (start, end) views of a range list.
pub open spec fn range_views(rs: Seq<LineRange>) -> Seq<(int, int)> {
    rs.map_values(|r: LineRange| (r.start as int, r.end as int))
}

/// Whether line `n` falls within one of the ranges.
pub open spec fn in_ranges_s(n: int, rs: Seq<(int, int)>) -> bool {
    exists|i: int| 0 <= i < rs.len() && (#[trigger] rs[i]).0 <= n <= rs[i].1
}

/// The index of the first occurrence of `c` at or after `i`, or -1.
pub open spec fn find_char(s: Seq<char>, c: char, i: int) -> int
    decreases s.len() - i,
{
    if i < 0 || i >= s.len() {
        -1
    } else if s[i] == c {
        i
    } else {
        find_char(s, c, i + 1)
    }
}

/// What parsing one range token yields: a range, or an error message.
pub enum RangeOutcome {
    /// A parsed range.
    Val {
        /// Start line.
        start: int,
        /// End line.
        end: int,
    },
    /// A rejected token, with the message shown to the user.
    Fail {
        /// The error message.
        msg: Seq<char>,
    },
}

/// What parsing a whole specification yields: the ranges in order, or
/// the first error.
pub enum RangesOutcome {
    /// The parsed ranges, in the order written.
    Vals {
        /// The (start, end) pairs.
        rs: Seq<(int, int)>,
    },
    /// A rejected specification, with the message shown to the user.
    Fail {
        /// The error message.
        msg: Seq<char>,
    },
}

pub open spec fn msg_empty_spec() -> Seq<char> {
    "Empty range specification"@
}

pub open spec fn msg_zero() -> Seq<char> {
    "Line numbers start at 1, not 0"@
}

pub open spec fn msg_invalid_start(tok: Seq<char>) -> Seq<char> {
    "Invalid start line: '"@ + tok + "'"@
}

pub open spec fn msg_invalid_end(tok: Seq<char>) -> Seq<char> {
    "Invalid end line: '"@ + tok + "'"@
}

pub open spec fn msg_invalid_line(tok: Seq<char>) -> Seq<char> {
    "Invalid line number: '"@ + tok + "'"@
}

pub open spec fn msg_reversed(a: int, b: int) -> Seq<char> {
    "Invalid range: start ("@ + dec_seq(a) + ") > end ("@ + dec_seq(b) + ")"@
}

pub open spec fn msg_no_ranges() -> Seq<char> {
    "No valid ranges specified"@
}

/// The meaning of a single range token: trim it; an empty token is an
/// error; with a dash, the two sides are start and end, an empty
/// start meaning line 1 and an empty end meaning end of file; without
/// a dash the token is a single line number. Line numbers start at 1,
/// and a finite range must not be reversed.
pub open spec fn parse_single_s(s: Seq<char>) -> RangeOutcome {
    let t = trim_s(s);
    if t.len() == 0 {
        RangeOutcome::Fail { msg: msg_empty_spec() }
    } else {
        let d = find_char(t, '-', 0);
        if d >= 0 {
            let st = t.subrange(0, d);
            let et = t.subrange(d + 1, t.len() as int);
            if st.len() > 0 && !is_usize_token(st) {
                RangeOutcome::Fail { msg: msg_invalid_start(st) }
            } else {
                let start = if st.len() == 0 {
                    1int
                } else {
                    dec_value(st)
                };
                if et.len() > 0 && !is_usize_token(et) {
                    RangeOutcome::Fail { msg: msg_invalid_end(et) }
                } else {
                    let end = if et.len() == 0 {
                        usize::MAX as int
                    } else {
                        dec_value(et)
                    };
                    if start == 0 {
                        RangeOutcome::Fail { msg: msg_zero() }
                    } else if start > end && end != usize::MAX {
                        RangeOutcome::Fail { msg: msg_reversed(start, end) }
                    } else {
                        RangeOutcome::Val { start, end }
                    }
                }
            }
        } else {
            if !is_usize_token(t) {
                RangeOutcome::Fail { msg: msg_invalid_line(t) }
            } else if dec_value(t) == 0 {
                RangeOutcome::Fail { msg: msg_zero() }
            } else {
                RangeOutcome::Val { start: dec_value(t), end: dec_value(t) }
            }
        }
    }
}

/// The comma-separated parts of `s[i..]`, in order.
pub open spec fn split_parts_from(s: Seq<char>, i: int) -> Seq<Seq<char>>
    decreases s.len() - i,
{
    if i < 0 || i > s.len() {
        Seq::empty()
    } else {
        let d = find_char(s, ',', i);
        if d < i || d >= s.len() {
            seq![s.subrange(i, s.len() as int)]
        } else {
            seq![s.subrange(i, d)] + split_parts_from(s, d + 1)
        }
    }
}

/// The comma-separated parts of a specification, in order.
pub open spec fn split_parts(s: Seq<char>) -> Seq<Seq<char>> {
    split_parts_from(s, 0)
}

/// `find_char` returns -1 or a position of `c` at or after `i`, and
/// nothing before that position holds `c`.
pub proof fn lemma_find_char(s: Seq<char>, c: char, i: int)
    requires
        0 <= i <= s.len(),
    ensures
        find_char(s, c, i) == -1 || (i <= find_char(s, c, i) < s.len() && s[find_char(s, c, i)]
            == c),
        find_char(s, c, i) == -1 ==> forall|j: int| i <= j < s.len() ==> s[j] != c,
        forall|j: int| i <= j < find_char(s, c, i) ==> s[j] != c,
    decreases s.len() - i,
{
    if i < s.len() && s[i] != c {
        lemma_find_char(s, c, i + 1);
    }
}

/// The meaning of a list of parts: parts that trim to nothing are
/// skipped; the first failing part decides the error; otherwise the
/// parsed ranges are kept in order.
pub open spec fn parse_parts_s(ps: Seq<Seq<char>>) -> RangesOutcome
    decreases ps.len(),
{
    if ps.len() == 0 {
        RangesOutcome::Vals { rs: Seq::empty() }
    } else if trim_s(ps.first()).len() == 0 {
        parse_parts_s(ps.drop_first())
    } else {
        match parse_single_s(ps.first()) {
            RangeOutcome::Fail { msg } => RangesOutcome::Fail { msg },
            RangeOutcome::Val { start, end } => match parse_parts_s(ps.drop_first()) {
                RangesOutcome::Fail { msg } => RangesOutcome::Fail { msg },
                RangesOutcome::Vals { rs } => RangesOutcome::Vals {
                    rs: seq![(start, end)] + rs,
                },
            },
        }
    }
}

/// Find the first `-` in `t`, if any.
fn find_dash(t: &Vec<char>, c: char) -> (d: Option<usize>)
    ensures
        d is Some <==> find_char(t@, c, 0) >= 0,
        d matches Some(i) ==> i == find_char(t@, c, 0) && i < t@.len(),
{
    let mut i: usize = 0;
    while i < t.len()
        invariant
            i <= t@.len(),
            find_char(t@, c, 0) == find_char(t@, c, i as int),
        decreases t@.len() - i,
    {
        if t[i] == c {
            return Option::Some(i);
        }
        i = i + 1;
    }
    Option::None
}

/// Build the error string whose text is `prefix + tok + suffix`.
fn msg_with_token(prefix: &str, tok: &Vec<char>, suffix: &str) -> (r: String)
    ensures
        r@ == prefix@ + tok@ + suffix@,
{
    let mut out: Vec<char> = Vec::new();
    push_str_chars(&mut out, prefix);
    crate::text::push_sub(&mut out, tok, 0, tok.len());
    push_str_chars(&mut out, suffix);
    proof {
        assert(tok@.subrange(0, tok@.len() as int) =~= tok@);
    }
    chars_to_string(&out)
}

/// Parse a single range specification like `10-50`, `50-`, `-100`, or
/// `42`. The result is exactly what the token means; the error
/// message says exactly why a token is rejected.
pub fn parse_single_range(s: &str) -> (r: Result<LineRange, String>)
    ensures
        ({
            match parse_single_s(s@) {
                RangeOutcome::Val { start, end } => r matches Ok(lr) && lr.start == start
                    && lr.end == end,
                RangeOutcome::Fail { msg } => r matches Err(m) && m@ == msg,
            }
        }),
{
    let v = str_to_chars(s);
    let (b, e) = crate::analyze::trim_bounds(&v);
    let t = sub_vec(&v, b, e);
    if t.len() == 0 {
        return Result::Err(String::from_str("Empty range specification"));
    }
    match find_dash(&t, '-') {
        Option::Some(d) => {
            let st = sub_vec(&t, 0, d);
            let et = sub_vec(&t, d + 1, t.len());
            let start: usize = if st.len() == 0 {
                1
            } else {
                match parse_usize_range(&st, 0, st.len()) {
                    Option::Some(n) => n,
                    Option::None => {
                        proof {
                            assert(st@.subrange(0, st@.len() as int) =~= st@);
                        }
                        return Result::Err(msg_with_token("Invalid start line: '", &st, "'"));
                    },
                }
            };
            proof {
                assert(st@.subrange(0, st@.len() as int) =~= st@);
            }
            let end: usize = if et.len() == 0 {
                usize::MAX
            } else {
                match parse_usize_range(&et, 0, et.len()) {
                    Option::Some(n) => n,
                    Option::None => {
                        proof {
                            assert(et@.subrange(0, et@.len() as int) =~= et@);
                        }
                        return Result::Err(msg_with_token("Invalid end line: '", &et, "'"));
                    },
                }
            };
            proof {
                assert(et@.subrange(0, et@.len() as int) =~= et@);
            }
            if start == 0 {
                return Result::Err(String::from_str("Line numbers start at 1, not 0"));
            }
            if start > end && end != usize::MAX {
                let mut out: Vec<char> = Vec::new();
                push_str_chars(&mut out, "Invalid range: start (");
                crate::num::push_decimal(&mut out, start);
                push_str_chars(&mut out, ") > end (");
                crate::num::push_decimal(&mut out, end);
                push_str_chars(&mut out, ")");
                return Result::Err(chars_to_string(&out));
            }
            Result::Ok(LineRange { start, end })
        },
        Option::None => {
            let line: usize = match parse_usize_range(&t, 0, t.len()) {
                Option::Some(n) => n,
                Option::None => {
                    proof {
                        assert(t@.subrange(0, t@.len() as int) =~= t@);
                    }
                    return Result::Err(msg_with_token("Invalid line number: '", &t, "'"));
                },
            };
            proof {
                assert(t@.subrange(0, t@.len() as int) =~= t@);
            }
            if line == 0 {
                return Result::Err(String::from_str("Line numbers start at 1, not 0"));
            }
            Result::Ok(LineRange { start: line, end: line })
        },
    }
}


/// Ranges sorted, pairwise disjoint, and separated by at least one
/// uncovered line number.
pub open spec fn separated(rs: Seq<LineRange>) -> bool {
    forall|i: int|
        0 <= i < rs.len() - 1 ==> (#[trigger] rs[i]).end < usize::MAX && rs[i].end + 1 < rs[i
            + 1].start
}

/// `rs[i..]` covers `n` exactly when `rs[i]` covers it or `rs[i+1..]`
/// does.
proof fn lemma_in_cons(rs: Seq<LineRange>, i: int, n: int)
    requires
        0 <= i < rs.len(),
    ensures
        in_ranges_s(n, range_views(rs.subrange(i, rs.len() as int))) <==> ((rs[i].start <= n
            <= rs[i].end) || in_ranges_s(n, range_views(rs.subrange(i + 1, rs.len() as int)))),
{
    let tail = rs.subrange(i, rs.len() as int);
    let tail1 = rs.subrange(i + 1, rs.len() as int);
    let tv = range_views(tail);
    let tv1 = range_views(tail1);
    if in_ranges_s(n, tv) {
        let k = choose|k: int| 0 <= k < tv.len() && (#[trigger] tv[k]).0 <= n <= tv[k].1;
        if k == 0 {
            assert(tail[0] == rs[i]);
        } else {
            assert(tail[k] == tail1[k - 1]);
            assert(tv1[k - 1].0 <= n <= tv1[k - 1].1);
        }
    }
    if rs[i].start <= n <= rs[i].end {
        assert(tv[0].0 <= n <= tv[0].1);
    }
    if in_ranges_s(n, tv1) {
        let k = choose|k: int| 0 <= k < tv1.len() && (#[trigger] tv1[k]).0 <= n <= tv1[k].1;
        assert(tail1[k] == tail[k + 1]);
        assert(tv[k + 1].0 <= n <= tv[k + 1].1);
    }
}

/// Pushing a range adds exactly its own coverage.
proof fn lemma_in_push(rs: Seq<LineRange>, x: LineRange, n: int)
    ensures
        in_ranges_s(n, range_views(rs.push(x))) <==> (in_ranges_s(n, range_views(rs)) || (x.start
            <= n <= x.end)),
{
    let pv = range_views(rs.push(x));
    let rv = range_views(rs);
    if in_ranges_s(n, pv) {
        let k = choose|k: int| 0 <= k < pv.len() && (#[trigger] pv[k]).0 <= n <= pv[k].1;
        if k < rs.len() {
            assert(rs.push(x)[k] == rs[k]);
            assert(rv[k].0 <= n <= rv[k].1);
        } else {
            assert(rs.push(x)[k] == x);
        }
    }
    if in_ranges_s(n, rv) {
        let k = choose|k: int| 0 <= k < rv.len() && (#[trigger] rv[k]).0 <= n <= rv[k].1;
        assert(rs.push(x)[k] == rs[k]);
        assert(pv[k].0 <= n <= pv[k].1);
    }
    if x.start <= n <= x.end {
        assert(rs.push(x)[rs.len() as int] == x);
        assert(pv[rs.len() as int].0 <= n <= pv[rs.len() as int].1);
    }
}

/// Sequences with the same elements cover the same line numbers.
proof fn lemma_in_same_elements(a: Seq<LineRange>, b: Seq<LineRange>, n: int)
    requires
        a.to_multiset() == b.to_multiset(),
    ensures
        in_ranges_s(n, range_views(a)) <==> in_ranges_s(n, range_views(b)),
{
    broadcast use vstd::seq_lib::group_to_multiset_ensures;

    let av = range_views(a);
    let bv = range_views(b);
    if in_ranges_s(n, av) {
        let k = choose|k: int| 0 <= k < av.len() && (#[trigger] av[k]).0 <= n <= av[k].1;
        assert(a.contains(a[k]));
        assert(b.to_multiset().count(a[k]) > 0);
        assert(b.contains(a[k]));
        let j = choose|j: int| 0 <= j < b.len() && b[j] == a[k];
        assert(bv[j].0 <= n <= bv[j].1);
    }
    if in_ranges_s(n, bv) {
        let k = choose|k: int| 0 <= k < bv.len() && (#[trigger] bv[k]).0 <= n <= bv[k].1;
        assert(b.contains(b[k]));
        assert(a.to_multiset().count(b[k]) > 0);
        assert(a.contains(b[k]));
        let j = choose|j: int| 0 <= j < a.len() && a[j] == b[k];
        assert(av[j].0 <= n <= av[j].1);
    }
}

/// The input ranges in ascending order of start line.
fn sorted_by_start(v: &Vec<LineRange>) -> (r: Vec<LineRange>)
    ensures
        r@.to_multiset() == v@.to_multiset(),
        r@.len() == v@.len(),
        forall|i: int, j: int| 0 <= i < j < r@.len() ==> (#[trigger] r@[i]).start <= (#[trigger] r@[j]).start,
{
    broadcast use vstd::seq_lib::group_to_multiset_ensures;

    let mut rem: Vec<LineRange> = Vec::new();
    let mut i: usize = 0;
    while i < v.len()
        invariant
            i <= v@.len(),
            rem@ == v@.subrange(0, i as int),
        decreases v@.len() - i,
    {
        rem.push(v[i]);
        proof {
            assert(rem@ =~= v@.subrange(0, i + 1));
        }
        i = i + 1;
    }
    proof {
        assert(rem@ =~= v@);
    }
    let mut out: Vec<LineRange> = Vec::new();
    while rem.len() > 0
        invariant
            out@.to_multiset().add(rem@.to_multiset()) == v@.to_multiset(),
            out@.len() + rem@.len() == v@.len(),
            forall|i: int, j: int|
                0 <= i < j < out@.len() ==> (#[trigger] out@[i]).start <= (#[trigger] out@[j]).start,
            forall|i: int, j: int|
                0 <= i < out@.len() && 0 <= j < rem@.len() ==> (#[trigger] out@[i]).start
                    <= (#[trigger] rem@[j]).start,
        decreases rem@.len(),
    {
        let mut m: usize = 0;
        let mut k: usize = 1;
        while k < rem.len()
            invariant
                m < k <= rem@.len() || (k <= rem@.len() && m == 0),
                m < rem@.len(),
                rem@.len() > 0,
                forall|j: int| 0 <= j < k ==> (#[trigger] rem@[j]).start >= rem@[m as int].start,
            decreases rem@.len() - k,
        {
            if rem[k].start < rem[m].start {
                m = k;
            }
            k = k + 1;
        }
        let ghost rem0 = rem@;
        let ghost out0 = out@;
        let x = rem.remove(m);
        out.push(x);
        proof {
            rem0.to_multiset_ensures();
            out0.to_multiset_ensures();
            assert(x == rem0[m as int]);
            assert(rem@ == rem0.remove(m as int));
            assert(rem0.remove(m as int).to_multiset() =~= rem0.to_multiset().remove(x));
            assert(out@.to_multiset() =~= out0.to_multiset().insert(x));
            assert(out0.to_multiset().insert(x).add(rem0.to_multiset().remove(x)) =~= out0.to_multiset().add(
                rem0.to_multiset()));
            assert forall|j: int| 0 <= j < rem@.len() implies x.start <= (#[trigger] rem@[j]).start by {
                if j < m {
                    assert(rem@[j] == rem0[j]);
                } else {
                    assert(rem@[j] == rem0[j + 1]);
                }
            }
            assert forall|i: int, j: int|
                0 <= i < out@.len() && 0 <= j < rem@.len() implies (#[trigger] out@[i]).start
                <= (#[trigger] rem@[j]).start by {
                if i < out0.len() {
                    assert(out@[i] == out0[i]);
                    if j < m {
                        assert(rem@[j] == rem0[j]);
                    } else {
                        assert(rem@[j] == rem0[j + 1]);
                    }
                } else {
                    assert(out@[i] == x);
                }
            }
        }
    }
    proof {
        assert(rem@.to_multiset() =~= Multiset::<LineRange>::empty());
        assert(out@.to_multiset().add(Multiset::<LineRange>::empty()) =~= out@.to_multiset());
    }
    out
}

/// Merge overlapping or adjacent ranges: the result covers exactly
/// the same line numbers, as maximal runs in ascending order, with at
/// least one uncovered number between any two of them.
pub fn merge_ranges(ranges: Vec<LineRange>) -> (m: Vec<LineRange>)
    ensures
        m@.len() == 0 <==> ranges@.len() == 0,
        separated(m@),
        forall|n: int|
            #![trigger in_ranges_s(n, range_views(m@))]
            in_ranges_s(n, range_views(m@)) <==> in_ranges_s(n, range_views(ranges@)),
{
    if ranges.len() == 0 {
        return ranges;
    }
    let sorted = sorted_by_start(&ranges);
    let mut merged: Vec<LineRange> = Vec::new();
    let mut current = sorted[0];
    let mut i: usize = 1;
    proof {
        assert forall|n: int|
            in_ranges_s(n, range_views(sorted@)) <==> (in_ranges_s(
                n,
                range_views(merged@.push(current)),
            ) || in_ranges_s(
                n,
                range_views(sorted@.subrange(1, sorted@.len() as int)),
            )) by {
            assert(sorted@.subrange(0, sorted@.len() as int) =~= sorted@);
            lemma_in_cons(sorted@, 0, n);
            lemma_in_push(merged@, current, n);
            assert(range_views(merged@).len() == 0);
        }
    }
    while i < sorted.len()
        invariant
            1 <= i <= sorted@.len(),
            sorted@.len() == ranges@.len() >= 1,
            sorted@.to_multiset() == ranges@.to_multiset(),
            forall|a: int, b: int|
                0 <= a < b < sorted@.len() ==> (#[trigger] sorted@[a]).start <= (#[trigger] sorted@[b]).start,
            forall|j: int| i <= j < sorted@.len() ==> current.start <= (#[trigger] sorted@[j]).start,
            separated(merged@.push(current)),
            forall|n: int|
                #![trigger in_ranges_s(n, range_views(sorted@))]
                in_ranges_s(n, range_views(sorted@)) <==> (in_ranges_s(
                    n,
                    range_views(merged@.push(current)),
                ) || in_ranges_s(
                    n,
                    range_views(sorted@.subrange(i as int, sorted@.len() as int)),
                )),
        decreases sorted@.len() - i,
    {
        let next = sorted[i];
        let lim: usize = if current.end == usize::MAX {
            usize::MAX
        } else {
            current.end + 1
        };
        let ghost cur0 = current;
        let ghost merged0 = merged@;
        if next.start <= lim {
            let newend: usize = if next.end > current.end {
                next.end
            } else {
                current.end
            };
            current = LineRange { start: current.start, end: newend };
            proof {
                assert(separated(merged@.push(current))) by {
                    assert forall|a: int|
                        0 <= a < merged@.push(current).len() - 1 implies (#[trigger] merged@.push(
                        current,
                    )[a]).end < usize::MAX && merged@.push(current)[a].end + 1 < merged@.push(
                        current,
                    )[a + 1].start by {
                        assert(merged0.push(cur0)[a] == merged@.push(current)[a]);
                    }
                }
                assert forall|n: int|
                    #![trigger in_ranges_s(n, range_views(sorted@))]
                    in_ranges_s(n, range_views(sorted@)) <==> (in_ranges_s(
                        n,
                        range_views(merged@.push(current)),
                    ) || in_ranges_s(
                        n,
                        range_views(sorted@.subrange(i + 1, sorted@.len() as int)),
                    )) by {
                    lemma_in_cons(sorted@, i as int, n);
                    lemma_in_push(merged0, cur0, n);
                    lemma_in_push(merged@, current, n);
                }
            }
        } else {
            merged.push(current);
            current = next;
            proof {
                assert(separated(merged@.push(current))) by {
                    assert forall|a: int|
                        0 <= a < merged@.push(current).len() - 1 implies (#[trigger] merged@.push(
                        current,
                    )[a]).end < usize::MAX && merged@.push(current)[a].end + 1 < merged@.push(
                        current,
                    )[a + 1].start by {
                        if a < merged0.len() - 1 {
                            assert(merged0.push(cur0)[a] == merged@.push(current)[a]);
                            assert(merged0.push(cur0)[a + 1] == merged@.push(current)[a + 1]);
                        } else if a == merged0.len() - 1 {
                            assert(merged@.push(current)[a] == merged0.push(cur0)[a]);
                            assert(merged@.push(current)[a + 1] == cur0);
                        } else {
                            assert(merged@.push(current)[a] == cur0);
                            assert(merged@.push(current)[a + 1] == current);
                        }
                    }
                }
                assert forall|n: int|
                    #![trigger in_ranges_s(n, range_views(sorted@))]
                    in_ranges_s(n, range_views(sorted@)) <==> (in_ranges_s(
                        n,
                        range_views(merged@.push(current)),
                    ) || in_ranges_s(
                        n,
                        range_views(sorted@.subrange(i + 1, sorted@.len() as int)),
                    )) by {
                    lemma_in_cons(sorted@, i as int, n);
                    lemma_in_push(merged0, cur0, n);
                    lemma_in_push(merged@, current, n);
                    lemma_in_push(merged0.push(cur0), current, n);
                }
            }
        }
        i = i + 1;
    }
    let ghost merged0 = merged@;
    merged.push(current);
    proof {
        assert(range_views(sorted@.subrange(
            sorted@.len() as int,
            sorted@.len() as int,
        )).len() == 0);
        assert forall|n: int|
            in_ranges_s(n, range_views(merged@)) <==> in_ranges_s(n, range_views(ranges@)) by {
            lemma_in_same_elements(sorted@, ranges@, n);
        }
    }
    merged
}

/// Combine already-parsed ranges with the outcome of the remaining
/// parts.
pub open spec fn combine_outcome(c: Seq<(int, int)>, o: RangesOutcome) -> RangesOutcome {
    match o {
        RangesOutcome::Vals { rs } => RangesOutcome::Vals { rs: c + rs },
        RangesOutcome::Fail { msg } => RangesOutcome::Fail { msg },
    }
}

/// Find the first occurrence of `c` at or after `from`, if any.
pub(crate) fn find_from(t: &Vec<char>, c: char, from: usize) -> (d: Option<usize>)
    requires
        from <= t@.len(),
    ensures
        d is Some <==> find_char(t@, c, from as int) >= 0,
        d matches Some(i) ==> i == find_char(t@, c, from as int) && from <= i < t@.len(),
{
    let mut i: usize = from;
    while i < t.len()
        invariant
            from <= i <= t@.len(),
            find_char(t@, c, from as int) == find_char(t@, c, i as int),
        decreases t@.len() - i,
    {
        if t[i] == c {
            return Option::Some(i);
        }
        i = i + 1;
    }
    Option::None
}

/// Parse a line-ranges specification like `10-50`, `1-100,200-250`,
/// or `50-`: the comma-separated tokens in order, blank tokens
/// skipped, the first bad token reported, at least one range
/// required; the result is merged so that it covers exactly the lines
/// the tokens name, as separated ascending runs.
pub fn parse_line_ranges(s: &str) -> (r: Result<Vec<LineRange>, String>)
    ensures
        ({
            match parse_parts_s(split_parts(s@)) {
                RangesOutcome::Fail { msg } => r matches Err(m) && m@ == msg,
                RangesOutcome::Vals { rs } => {
                    if rs.len() == 0 {
                        r matches Err(m) && m@ == msg_no_ranges()
                    } else {
                        r matches Ok(v) && v@.len() >= 1 && separated(v@) && forall|n: int|
                            #![trigger in_ranges_s(n, range_views(v@))]
                            in_ranges_s(n, range_views(v@)) <==> in_ranges_s(n, rs)
                    }
                },
            }
        }),
{
    let v = str_to_chars(s);
    let vlen = v.len();
    let mut rv: Vec<LineRange> = Vec::new();
    let mut pos: usize = 0;
    let ghost whole = parse_parts_s(split_parts(v@));
    proof {
        assert(combine_outcome(range_views(rv@), parse_parts_s(split_parts_from(v@, 0)))
            == whole) by {
            match parse_parts_s(split_parts_from(v@, 0)) {
                RangesOutcome::Vals { rs } => {
                    assert(range_views(rv@) + rs =~= rs);
                },
                RangesOutcome::Fail { msg } => {},
            }
        }
    }
    loop
        invariant_except_break
            pos <= vlen,
            vlen == v@.len(),
            v@ == s@,
            whole == parse_parts_s(split_parts(s@)),
            combine_outcome(range_views(rv@), parse_parts_s(split_parts_from(v@, pos as int)))
                == whole,
        ensures
            whole == (RangesOutcome::Vals { rs: range_views(rv@) }),
        decreases v@.len() - pos,
    {
        let d = find_from(&v, ',', pos);
        let hi: usize = match d {
            Option::Some(k) => k,
            Option::None => vlen,
        };
        let ghost parts = split_parts_from(v@, pos as int);
        proof {
            lemma_find_char(v@, ',', pos as int);
        }
        let part = sub_vec(&v, pos, hi);
        let ghost rest_parts = split_parts_from(v@, hi + 1);
        proof {
            match d {
                Option::Some(k) => {
                    assert(parts == seq![v@.subrange(pos as int, hi as int)] + rest_parts);
                    assert(parts.first() == part@);
                    assert(parts.drop_first() =~= rest_parts);
                },
                Option::None => {
                    assert(parts == seq![v@.subrange(pos as int, v@.len() as int)]);
                    assert(parts.first() == part@);
                    assert(parts.drop_first() =~= Seq::<Seq<char>>::empty());
                    assert(rest_parts =~= Seq::<Seq<char>>::empty());
                    assert(parts.drop_first() =~= rest_parts);
                },
            }
        }
        let (tb, te) = crate::analyze::trim_bounds(&part);
        if tb == te {
            proof {
                assert(trim_s(part@).len() == 0);
                assert(parse_parts_s(parts) == parse_parts_s(rest_parts));
            }
        } else {
            proof {
                assert(trim_s(part@).len() != 0);
            }
            let ps = chars_to_string(&part);
            match parse_single_range(ps.as_str()) {
                Result::Err(e) => {
                    proof {
                        assert(parse_single_s(part@) is Fail);
                        assert(parse_parts_s(parts) is Fail);
                        assert(whole is Fail);
                        assert(whole matches RangesOutcome::Fail { msg }
                            && msg == parse_single_s(part@)->Fail_msg);
                    }
                    return Result::Err(e);
                },
                Result::Ok(lr) => {
                    let ghost rv0 = rv@;
                    rv.push(lr);
                    proof {
                        let st = parse_single_s(part@);
                        assert(st matches RangeOutcome::Val { start, end } && start
                            == lr.start as int && end == lr.end as int);
                        assert(range_views(rv@) =~= range_views(rv0).push(
                            (lr.start as int, lr.end as int),
                        ));
                        match parse_parts_s(rest_parts) {
                            RangesOutcome::Vals { rs } => {
                                assert(parse_parts_s(parts) == RangesOutcome::Vals {
                                    rs: seq![(lr.start as int, lr.end as int)] + rs,
                                });
                                assert(range_views(rv0) + (seq![(lr.start as int, lr.end as int)]
                                    + rs) =~= range_views(rv@) + rs);
                            },
                            RangesOutcome::Fail { msg } => {},
                        }
                    }
                },
            }
        }
        proof {
            assert(combine_outcome(
                range_views(rv@),
                parse_parts_s(split_parts_from(v@, hi + 1)),
            ) == whole);
        }
        match d {
            Option::Some(k) => {
                proof {
                    assert(k < vlen);
                }
                pos = k + 1;
            },
            Option::None => {
                proof {
                    assert(parse_parts_s(rest_parts) == RangesOutcome::Vals {
                        rs: Seq::<(int, int)>::empty(),
                    });
                    assert(range_views(rv@) + Seq::<(int, int)>::empty() =~= range_views(rv@));
                }
                break ;
            },
        }
    }
    if rv.len() == 0 {
        return Result::Err(String::from_str("No valid ranges specified"));
    }
    let merged = merge_ranges(rv);
    Result::Ok(merged)
}

/// Check whether a line number (1-indexed) falls within any of the
/// given ranges.
pub fn line_in_ranges(line_num: usize, ranges: &Vec<LineRange>) -> (r: bool)
    ensures
        r == in_ranges_s(line_num as int, range_views(ranges@)),
{
    let mut i: usize = 0;
    while i < ranges.len()
        invariant
            i <= ranges@.len(),
            forall|j: int|
                0 <= j < i ==> !((#[trigger] range_views(ranges@)[j]).0 <= line_num as int
                    <= range_views(ranges@)[j].1),
        decreases ranges@.len() - i,
    {
        let rg = ranges[i];
        if line_num >= rg.start && line_num <= rg.end {
            proof {
                assert((range_views(ranges@)[i as int]).0 <= line_num as int <= range_views(
                    ranges@,
                )[i as int].1);
            }
            return true;
        }
        i = i + 1;
    }
    false
}

/// Whether a block, given by its 0-indexed start and exclusive end,
/// overlaps some range (both sides read as 1-indexed inclusive
/// lines).
pub open spec fn block_overlaps_s(bstart: int, bend: int, rs: Seq<(int, int)>) -> bool {
    exists|i: int| 0 <= i < rs.len() && bstart + 1 <= (#[trigger] rs[i]).1 && bend >= rs[i].0
}

/// Check whether a block overlaps with any of the given line ranges.
/// Block indices are 0-indexed; ranges are 1-indexed.
pub fn block_overlaps_ranges(block: &crate::blocks::DiagramBlock, ranges: &Vec<LineRange>) -> (r:
    bool)
    requires
        block.start < usize::MAX,
    ensures
        r == block_overlaps_s(block.start as int, block.end as int, range_views(ranges@)),
{
    let block_start = block.start + 1;
    let block_end = block.end;
    let mut i: usize = 0;
    while i < ranges.len()
        invariant
            i <= ranges@.len(),
            block_start == block.start + 1,
            block_end == block.end,
            forall|j: int|
                0 <= j < i ==> !(block.start + 1 <= (#[trigger] range_views(ranges@)[j]).1
                    && block.end >= range_views(ranges@)[j].0),
        decreases ranges@.len() - i,
    {
        let rg = ranges[i];
        if block_start <= rg.end && block_end >= rg.start {
            proof {
                assert(block.start + 1 <= (range_views(ranges@)[i as int]).1 && block.end
                    >= range_views(ranges@)[i as int].0);
            }
            return true;
        }
        i = i + 1;
    }
    false
}

/// The display text of one range: `A-` when open-ended, `A` when a
/// single line, else `A-B`.
pub open spec fn fmt_range(r: (int, int)) -> Seq<char> {
    if r.1 == usize::MAX {
        dec_seq(r.0) + "-"@
    } else if r.0 == r.1 {
        dec_seq(r.0)
    } else {
        dec_seq(r.0) + "-"@ + dec_seq(r.1)
    }
}

/// The first `i` range texts joined with `", "`.
pub open spec fn fmt_joined(rs: Seq<(int, int)>, i: int) -> Seq<char>
    decreases i,
{
    if i <= 0 {
        Seq::empty()
    } else if i == 1 {
        fmt_range(rs[0])
    } else {
        fmt_joined(rs, i - 1) + ", "@ + fmt_range(rs[i - 1])
    }
}

/// How many of the document's lines the first `i` ranges cover,
/// ranges counted separately.
pub open spec fn covered_count(rs: Seq<(int, int)>, total: int, i: int) -> int
    decreases i,
{
    if i <= 0 {
        0
    } else {
        let r = rs[i - 1];
        let ee = if r.1 < total {
            r.1
        } else {
            total
        };
        covered_count(rs, total, i - 1) + if r.0 <= ee {
            ee - r.0 + 1
        } else {
            0int
        }
    }
}

/// The display text of a whole range list, with its coverage.
pub open spec fn fmt_ranges_s(rs: Seq<(int, int)>, total: int) -> Seq<char> {
    fmt_joined(rs, rs.len() as int) + " ("@ + dec_seq(covered_count(rs, total, rs.len() as int))
        + " of "@ + dec_seq(total) + " lines)"@
}

/// Every partial coverage count is at most the full one.
proof fn lemma_covered_mono(rs: Seq<(int, int)>, total: int, i: int)
    requires
        0 <= i <= rs.len(),
        total >= 0,
    ensures
        0 <= covered_count(rs, total, i) <= covered_count(rs, total, rs.len() as int),
    decreases rs.len() - i,
{
    lemma_covered_nonneg(rs, total, i);
    if i < rs.len() {
        lemma_covered_mono(rs, total, i + 1);
    }
}

proof fn lemma_covered_nonneg(rs: Seq<(int, int)>, total: int, i: int)
    ensures
        covered_count(rs, total, i) >= 0,
    decreases i,
{
    if i > 0 {
        lemma_covered_nonneg(rs, total, i - 1);
    }
}

/// Append the display text of one range to `out`.
fn push_fmt_range(out: &mut Vec<char>, r: LineRange)
    ensures
        final(out)@ == old(out)@ + fmt_range((r.start as int, r.end as int)),
{
    crate::num::push_decimal(out, r.start);
    if r.end == usize::MAX {
        push_str_chars(out, "-");
    } else if r.start == r.end {
    } else {
        push_str_chars(out, "-");
        crate::num::push_decimal(out, r.end);
    }
    proof {
        assert(final(out)@ =~= old(out)@ + fmt_range((r.start as int, r.end as int)));
    }
}

/// Format line ranges for display: the ranges joined with commas,
/// then how many of the document's lines they touch.
pub fn format_line_ranges(ranges: &Vec<LineRange>, total_lines: usize) -> (r: String)
    requires
        covered_count(range_views(ranges@), total_lines as int, ranges@.len() as int)
            <= usize::MAX,
    ensures
        r@ == fmt_ranges_s(range_views(ranges@), total_lines as int),
{
    let ghost rv = range_views(ranges@);
    let mut out: Vec<char> = Vec::new();
    let mut i: usize = 0;
    proof {
        assert(out@ =~= fmt_joined(rv, 0));
    }
    while i < ranges.len()
        invariant
            i <= ranges@.len(),
            rv == range_views(ranges@),
            out@ == fmt_joined(rv, i as int),
        decreases ranges@.len() - i,
    {
        if i > 0 {
            push_str_chars(&mut out, ", ");
        }
        push_fmt_range(&mut out, ranges[i]);
        proof {
            assert(rv[i as int] == (ranges@[i as int].start as int, ranges@[i as int].end as int));
            assert(out@ =~= fmt_joined(rv, i + 1));
        }
        i = i + 1;
    }
    let mut covered: usize = 0;
    let mut j: usize = 0;
    while j < ranges.len()
        invariant
            j <= ranges@.len(),
            rv == range_views(ranges@),
            covered == covered_count(rv, total_lines as int, j as int),
            covered_count(rv, total_lines as int, ranges@.len() as int) <= usize::MAX,
        decreases ranges@.len() - j,
    {
        let rg = ranges[j];
        let ee: usize = if rg.end < total_lines {
            rg.end
        } else {
            total_lines
        };
        proof {
            assert(rv[j as int] == (ranges@[j as int].start as int, ranges@[j as int].end as int));
            lemma_covered_mono(rv, total_lines as int, j + 1);
        }
        if rg.start <= ee {
            covered = covered + (ee - rg.start + 1);
        }
        j = j + 1;
    }
    push_str_chars(&mut out, " (");
    crate::num::push_decimal(&mut out, covered);
    push_str_chars(&mut out, " of ");
    crate::num::push_decimal(&mut out, total_lines);
    push_str_chars(&mut out, " lines)");
    proof {
        assert(out@ =~= fmt_ranges_s(rv, total_lines as int));
    }
    chars_to_string(&out)
}
} // verus!
