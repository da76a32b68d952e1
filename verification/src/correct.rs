//! The block corrector and the document pipeline: per block, an
//! iterative fixed-point loop generates, scores, filters and applies
//! insert-only revisions until the block's right borders agree; per
//! document, the quick scan gates the work, tabs are expanded, blocks
//! are detected and corrected left to right, and statistics are
//! gathered.

use vstd::prelude::*;
use crate::analyze::{
    border_choice, classify_s, has_suffix_border, suffix_col, vbars, LineKind, spec_is_boxy,
};
use crate::blocks::{blocks_of, block_views, find_diagram_blocks, DiagramBlock};
use crate::chars::{line_width, spec_is_border_char, spec_char_width};
use crate::config::{config_valid, spec_effective_min_score, Config, Stats};
use crate::ranges::{block_overlaps_s, range_views};
use crate::revise::{
    apply_add_s, apply_pad_s, line_applied, line_candidate_add, line_candidate_pad, line_score,
    line_skipped, line_step, pad_score,
};
use crate::scan::scan_likely;
use crate::tabs::expand_tabs_s;
use crate::text::{spaces, trim_end_s, views_of_strings};

verus! {

/// The highest suffix-border column in the block, if any line has a
/// suffix border: the column every border is aligned to.
pub open spec fn max_col(ls: Seq<Seq<char>>) -> Option<int>
    decreases ls.len(),
{
    if ls.len() == 0 {
        Option::None
    } else {
        let rest = max_col(ls.drop_last());
        let l = ls.last();
        if has_suffix_border(l) {
            match rest {
                Option::None => Option::Some(suffix_col(l)),
                Option::Some(m) => Option::Some(
                    if suffix_col(l) > m {
                        suffix_col(l)
                    } else {
                        m
                    },
                ),
            }
        } else {
            rest
        }
    }
}

/// One iteration's effect on every line of the block.
pub open spec fn iter_lines(ls: Seq<Seq<char>>, target: int, bc: char, ms: int) -> Seq<Seq<char>> {
    ls.map_values(|l: Seq<char>| line_step(l, target, bc, ms))
}

/// How many lines receive a revision this iteration.
pub open spec fn count_applied(ls: Seq<Seq<char>>, target: int, ms: int) -> int
    decreases ls.len(),
{
    if ls.len() == 0 {
        0
    } else {
        count_applied(ls.drop_last(), target, ms) + line_applied(ls.last(), target, ms)
    }
}

/// How many candidate revisions the score filter drops this
/// iteration.
pub open spec fn count_skipped(ls: Seq<Seq<char>>, target: int, ms: int) -> int
    decreases ls.len(),
{
    if ls.len() == 0 {
        0
    } else {
        count_skipped(ls.drop_last(), target, ms) + line_skipped(ls.last(), target, ms)
    }
}

/// The fixed-point loop on one block: for as long as the fuel lasts
/// and some line holds a suffix border, revise every line against the
/// current target column; stop as soon as an iteration applies
/// nothing. Yields the corrected lines, the number of revisions
/// applied, and the number skipped by the score filter.
pub open spec fn correct_iter(ls: Seq<Seq<char>>, ms: int, fuel: int) -> (Seq<Seq<char>>, int, int)
    decreases fuel,
{
    if fuel <= 0 {
        (ls, 0, 0)
    } else {
        match max_col(ls) {
            Option::None => (ls, 0, 0),
            Option::Some(target) => {
                let bc = border_choice(vbars(ls));
                let app = count_applied(ls, target, ms);
                let skp = count_skipped(ls, target, ms);
                if app == 0 {
                    (ls, 0, skp)
                } else {
                    let r = correct_iter(iter_lines(ls, target, bc, ms), ms, fuel - 1);
                    (r.0, app + r.1, skp + r.2)
                }
            },
        }
    }
}

/// The document with a corrected segment spliced over `[start, end)`.
pub open spec fn splice(ls: Seq<Seq<char>>, start: int, end: int, seg: Seq<Seq<char>>) -> Seq<
    Seq<char>,
> {
    ls.subrange(0, start) + seg + ls.subrange(end, ls.len() as int)
}

/// Correcting one block of the document.
pub open spec fn correct_block_s(
    ls: Seq<Seq<char>>,
    start: int,
    end: int,
    ms: int,
    fuel: int,
) -> (Seq<Seq<char>>, int, int) {
    let r = correct_iter(ls.subrange(start, end), ms, fuel);
    (splice(ls, start, end, r.0), r.1, r.2)
}

/// Running the corrector over a block list from index `i` on, against
/// an optional line-range filter. Yields the lines and, in order, the
/// numbers of blocks modified, blocks skipped by the filter,
/// revisions applied, and revisions skipped.
pub open spec fn run_blocks(
    ls: Seq<Seq<char>>,
    bs: Seq<(int, int, int)>,
    i: int,
    ms: int,
    fuel: int,
    ranges: Option<Seq<(int, int)>>,
) -> (Seq<Seq<char>>, int, int, int, int)
    decreases bs.len() - i,
{
    if i < 0 || i >= bs.len() {
        (ls, 0, 0, 0, 0)
    } else {
        let b = bs[i];
        if ranges matches Option::Some(rs) && !block_overlaps_s(b.0, b.1, rs) {
            let r = run_blocks(ls, bs, i + 1, ms, fuel, ranges);
            (r.0, r.1, r.2 + 1, r.3, r.4)
        } else {
            let c = correct_block_s(ls, b.0, b.1, ms, fuel);
            let r = run_blocks(c.0, bs, i + 1, ms, fuel, ranges);
            (
                r.0,
                (if c.1 > 0 {
                    1int
                } else {
                    0int
                }) + r.1,
                r.2,
                c.1 + r.3,
                c.2 + r.4,
            )
        }
    }
}

/// Every line's tab expansion.
pub open spec fn expand_all(ls: Seq<Seq<char>>, tw: int) -> Seq<Seq<char>> {
    ls.map_values(|l: Seq<char>| expand_tabs_s(l, tw))
}

/// The optional line filter of a configuration, as plain pairs.
pub open spec fn ranges_of(c: Config) -> Option<Seq<(int, int)>> {
    match c.lines {
        Option::Some(v) => Option::Some(range_views(v@)),
        Option::None => Option::None,
    }
}

/// The whole pipeline on a document: when the quick scan finds no
/// diagrams and the caller did not ask for all blocks, the lines pass
/// through unchanged with zero counts; otherwise tabs are expanded,
/// blocks are detected, and each block overlapping the line filter is
/// corrected. Yields the lines and, in order: blocks found, blocks
/// modified, blocks skipped, revisions applied, revisions skipped.
pub open spec fn process_s(ls: Seq<Seq<char>>, c: Config) -> (
    Seq<Seq<char>>,
    int,
    int,
    int,
    int,
    int,
) {
    if !c.all_blocks && !scan_likely(ls) {
        (ls, 0, 0, 0, 0, 0)
    } else {
        let ex = expand_all(ls, c.tab_width as int);
        let bs = blocks_of(ex, c.all_blocks);
        let r = run_blocks(
            ex,
            bs,
            0,
            spec_effective_min_score(c),
            c.max_iters as int,
            ranges_of(c),
        );
        (r.0, bs.len() as int, r.1, r.2, r.3, r.4)
    }
}

/// A line short enough for every stage of the pipeline to measure and
/// pad without its counters overflowing. The bound is far above the
/// documented input ceiling.
pub open spec fn line_fits(s: Seq<char>) -> bool {
    s.len() <= usize::MAX / 1024
}

/// Every line of the document fits.
pub open spec fn lines_fit(ls: Seq<Seq<char>>) -> bool {
    forall|i: int| 0 <= i < ls.len() ==> line_fits(#[trigger] ls[i])
}

/// What the corrector maintains of each block line, against the
/// length bound `w` of the lines it started from: the line stays
/// short, a suffix border stays left of column `2w`, and a boxy line
/// without a border keeps its right-trimmed width below `2w`.
pub open spec fn corr_line_inv(l: Seq<char>, w: int) -> bool {
    &&& l.len() <= 2 * w + 1
    &&& (has_suffix_border(l) ==> suffix_col(l) <= 2 * w)
    &&& (!has_suffix_border(l) ==> line_width(trim_end_s(l)) <= 2 * w)
}

/// The block-wide version of the corrector's line invariant.
pub open spec fn corr_inv(ls: Seq<Seq<char>>, w: int) -> bool {
    forall|i: int| 0 <= i < ls.len() ==> corr_line_inv(#[trigger] ls[i], w)
}

/// A sequence of spaces is as wide as it is long.
pub proof fn lemma_spaces_width(n: int)
    requires
        n >= 0,
    ensures
        line_width(spaces(n)) == n,
    decreases n,
{
    if n > 0 {
        lemma_spaces_width(n - 1);
        assert(spaces(n).drop_last() =~= spaces(n - 1));
        assert(spaces(n).last() == ' ');
    }
}

/// A line that starts within the bound satisfies the corrector's
/// invariant.
pub proof fn lemma_initial_inv(l: Seq<char>, w: int)
    requires
        l.len() <= w,
        w >= 0,
    ensures
        corr_line_inv(l, w),
{
    crate::text::lemma_trim_end_len_le(l);
    crate::chars::lemma_line_width_bounds(trim_end_s(l));
    if has_suffix_border(l) {
        crate::chars::lemma_line_width_bounds(trim_end_s(l).drop_last());
    }
}

/// What padding does to a line that has a suffix border: the border
/// survives, its column moves right by exactly the inserted spaces,
/// and the line comes out fully right-trimmed.
pub proof fn lemma_pad_result(l: Seq<char>, n: int)
    requires
        has_suffix_border(l),
        n >= 0,
    ensures
        has_suffix_border(apply_pad_s(l, n)),
        suffix_col(apply_pad_s(l, n)) == suffix_col(l) + n,
        trim_end_s(apply_pad_s(l, n)) == apply_pad_s(l, n),
        apply_pad_s(l, n).len() == trim_end_s(l).len() + n,
        line_width(apply_pad_s(l, n)) == suffix_col(l) + n + spec_char_width(trim_end_s(l).last()),
{
    let t = trim_end_s(l);
    let r = apply_pad_s(l, n);
    assert(r == t.drop_last() + spaces(n) + seq![t.last()]);
    assert(r.len() == t.len() + n);
    assert(r.last() == t.last());
    assert(!crate::text::spec_is_ws(t.last()));
    assert(crate::text::trim_end_len(r) == r.len());
    assert(trim_end_s(r) =~= r);
    assert(r.drop_last() =~= t.drop_last() + spaces(n));
    crate::chars::lemma_line_width_add(t.drop_last(), spaces(n));
    lemma_spaces_width(n);
    assert(suffix_col(r) == line_width(t.drop_last()) + n);
    assert(line_width(r) == line_width(r.drop_last()) + spec_char_width(r.last())) by {
        assert(r =~= r.drop_last() + seq![r.last()]);
        crate::chars::lemma_line_width_add(r.drop_last(), seq![r.last()]);
        assert(line_width(seq![r.last()]) == spec_char_width(r.last())) by {
            assert(seq![r.last()].drop_last() =~= Seq::<char>::empty());
        }
    }
}

/// What adding a border does to a line: the new border sits at the
/// target column, or at the line's right-trimmed width when that is
/// already past the target, and the line comes out fully
/// right-trimmed.
pub proof fn lemma_add_result(l: Seq<char>, bc: char, target: int)
    requires
        spec_is_border_char(bc),
    ensures
        has_suffix_border(apply_add_s(l, bc, target)),
        suffix_col(apply_add_s(l, bc, target)) == if target >= line_width(trim_end_s(l)) {
            target
        } else {
            line_width(trim_end_s(l))
        },
        trim_end_s(apply_add_s(l, bc, target)) == apply_add_s(l, bc, target),
        apply_add_s(l, bc, target).len() == trim_end_s(l).len() + (if target - line_width(
            trim_end_s(l),
        ) >= 0 {
            target - line_width(trim_end_s(l))
        } else {
            0int
        }) + 1,
{
    let t = trim_end_s(l);
    let pad = if target - line_width(t) >= 0 {
        target - line_width(t)
    } else {
        0int
    };
    let r = apply_add_s(l, bc, target);
    assert(r == t + spaces(pad) + seq![bc]);
    assert(r.last() == bc);
    assert(!crate::text::spec_is_ws(bc));
    assert(crate::text::trim_end_len(r) == r.len());
    assert(trim_end_s(r) =~= r);
    assert(r.drop_last() =~= t + spaces(pad));
    crate::chars::lemma_line_width_add(t, spaces(pad));
    lemma_spaces_width(pad);
    crate::chars::lemma_line_width_bounds(t);
}

/// A character drawn from the vertical borders of a line set is a
/// border character.
proof fn lemma_vb_filter_borders(s: Seq<char>)
    ensures
        forall|i: int|
            0 <= i < crate::analyze::vb_filter(s).len()
                ==> crate::chars::spec_is_vertical_border(
                #[trigger] crate::analyze::vb_filter(s)[i],
            ),
    decreases s.len(),
{
    if s.len() > 0 {
        lemma_vb_filter_borders(s.drop_last());
        let f0 = crate::analyze::vb_filter(s.drop_last());
        let f = crate::analyze::vb_filter(s);
        assert forall|i: int|
            0 <= i < f.len() implies crate::chars::spec_is_vertical_border(#[trigger] f[i]) by {
            if i < f0.len() {
                assert(f[i] == f0[i]);
            } else {
                assert(f[i] == s.last());
            }
        }
    }
}

proof fn lemma_vbars_borders(ls: Seq<Seq<char>>)
    ensures
        forall|i: int|
            0 <= i < vbars(ls).len() ==> crate::chars::spec_is_vertical_border(
                #[trigger] vbars(ls)[i],
            ),
    decreases ls.len(),
{
    if ls.len() > 0 {
        lemma_vbars_borders(ls.drop_last());
        lemma_vb_filter_borders(ls.last());
        let f0 = vbars(ls.drop_last());
        let f1 = crate::analyze::vb_filter(ls.last());
        let f = vbars(ls);
        assert forall|i: int|
            0 <= i < f.len() implies crate::chars::spec_is_vertical_border(#[trigger] f[i]) by {
            if i < f0.len() {
                assert(f[i] == f0[i]);
            } else {
                assert(f[i] == f1[i - f0.len()]);
            }
        }
    }
}

/// `first_max_from` stays within bounds on a nonempty sequence.
proof fn lemma_first_max_in_range(s: Seq<char>, i: int)
    requires
        s.len() > 0,
        0 <= i,
    ensures
        0 <= crate::analyze::first_max_from(s, i) < s.len(),
    decreases s.len() - i,
{
    if i < s.len() {
        if !(forall|j: int|
            0 <= j < s.len() ==> crate::analyze::occ(s, #[trigger] s[j]) <= crate::analyze::occ(
                s,
                s[i],
            )) {
            lemma_first_max_in_range(s, i + 1);
        }
    }
}

/// The chosen border character can terminate a line: it is either a
/// vertical border seen in the block or the ASCII pipe.
pub proof fn lemma_border_choice_is_border(ls: Seq<Seq<char>>)
    ensures
        spec_is_border_char(border_choice(vbars(ls))),
{
    let vb = vbars(ls);
    if vb.len() == 0 {
    } else {
        lemma_vbars_borders(ls);
        lemma_first_max_in_range(vb, 0);
    }
}

/// One revision step keeps a line within the corrector's invariant,
/// for any target drawn from the block's columns.
pub proof fn lemma_line_step_inv(l: Seq<char>, target: int, bc: char, ms: int, w: int)
    requires
        corr_line_inv(l, w),
        0 <= target <= 2 * w,
        spec_is_border_char(bc),
        w >= 1,
    ensures
        corr_line_inv(line_step(l, target, bc, ms), w),
{
    let r = line_step(l, target, bc, ms);
    if line_candidate_pad(l, target) && line_score(l, target) >= ms {
        let n = target - suffix_col(l);
        lemma_pad_result(l, n);
        assert(suffix_col(r) == target);
        crate::chars::lemma_line_width_bounds(r);
        assert(spec_char_width(trim_end_s(l).last()) == 1) by {
            assert(crate::chars::spec_is_box_char(trim_end_s(l).last()));
        }
        assert(line_width(r) == target + 1);
        assert(r.len() <= line_width(r));
    } else if line_candidate_add(l) && line_score(l, target) >= ms {
        lemma_add_result(l, bc, target);
        let wt = line_width(trim_end_s(l));
        assert(wt <= 2 * w);
        assert(suffix_col(r) <= 2 * w);
        crate::chars::lemma_line_width_bounds(r);
        assert(line_width(r) == suffix_col(r) + spec_char_width(bc)) by {
            assert(r =~= r.drop_last() + seq![r.last()]);
            crate::chars::lemma_line_width_add(r.drop_last(), seq![r.last()]);
            assert(line_width(seq![r.last()].drop_last()) == 0) by {
                assert(seq![r.last()].drop_last() =~= Seq::<char>::empty());
            }
            assert(trim_end_s(r) == r);
            assert(suffix_col(r) == line_width(r.drop_last()));
        }
        assert(spec_char_width(bc) == 1) by {
            assert(crate::chars::spec_is_box_char(bc));
        }
        assert(r.len() <= line_width(r));
    }
}

/// The per-iteration counts lie between zero and the line count.
pub proof fn lemma_counts_bounded(ls: Seq<Seq<char>>, target: int, ms: int)
    ensures
        0 <= count_applied(ls, target, ms) <= ls.len(),
        0 <= count_skipped(ls, target, ms) <= ls.len(),
    decreases ls.len(),
{
    if ls.len() > 0 {
        lemma_counts_bounded(ls.drop_last(), target, ms);
    }
}

/// The fixed-point loop neither changes the line count nor counts
/// more revisions than its fuel allows.
pub proof fn lemma_correct_iter_bounds(ls: Seq<Seq<char>>, ms: int, fuel: int)
    requires
        fuel >= 0,
    ensures
        correct_iter(ls, ms, fuel).0.len() == ls.len(),
        0 <= correct_iter(ls, ms, fuel).1 <= fuel * ls.len(),
        0 <= correct_iter(ls, ms, fuel).2 <= fuel * ls.len(),
    decreases fuel,
{
    if fuel > 0 {
        match max_col(ls) {
            Option::None => {},
            Option::Some(target) => {
                let bc = border_choice(vbars(ls));
                lemma_counts_bounded(ls, target, ms);
                assert(fuel * ls.len() >= ls.len()) by (nonlinear_arith)
                    requires
                        fuel >= 1,
                        ls.len() >= 0,
                ;
                if count_applied(ls, target, ms) > 0 {
                    let ls2 = iter_lines(ls, target, bc, ms);
                    assert(ls2.len() == ls.len());
                    lemma_correct_iter_bounds(ls2, ms, fuel - 1);
                    assert((fuel - 1) * ls.len() + ls.len() == fuel * ls.len()) by (nonlinear_arith);
                }
            },
        }
    }
}


/// A suffix-border column is never negative, and within the
/// invariant's bound the target never passes column `2w`.
pub proof fn lemma_max_col_bounded(ls: Seq<Seq<char>>, w: int)
    requires
        corr_inv(ls, w),
        w >= 0,
    ensures
        max_col(ls) matches Option::Some(t) ==> 0 <= t <= 2 * w,
    decreases ls.len(),
{
    if ls.len() > 0 {
        assert(corr_inv(ls.drop_last(), w)) by {
            assert(forall|i: int|
                0 <= i < ls.len() - 1 ==> #[trigger] ls.drop_last()[i] == ls[i]);
        }
        lemma_max_col_bounded(ls.drop_last(), w);
        let l = ls.last();
        if has_suffix_border(l) {
            crate::chars::lemma_line_width_bounds(trim_end_s(l).drop_last());
        }
    }
}

/// When an iteration applies nothing, no line has an applicable
/// candidate, and the step leaves every line alone.
pub proof fn lemma_zero_applied(ls: Seq<Seq<char>>, target: int, bc: char, ms: int)
    requires
        count_applied(ls, target, ms) == 0,
    ensures
        forall|j: int| 0 <= j < ls.len() ==> line_applied(#[trigger] ls[j], target, ms) == 0,
        iter_lines(ls, target, bc, ms) == ls,
    decreases ls.len(),
{
    if ls.len() > 0 {
        lemma_counts_bounded(ls.drop_last(), target, ms);
        assert(line_applied(ls.last(), target, ms) >= 0);
        lemma_zero_applied(ls.drop_last(), target, bc, ms);
        assert forall|j: int|
            0 <= j < ls.len() implies line_applied(#[trigger] ls[j], target, ms) == 0 by {
            if j < ls.len() - 1 {
                assert(ls[j] == ls.drop_last()[j]);
            } else {
                assert(ls[j] == ls.last());
            }
        }
    }
    assert(iter_lines(ls, target, bc, ms) =~= ls);
}

/// The views of the document's lines over `[start, end)`.
pub open spec fn seg_views(ls: Seq<String>, start: int, end: int) -> Seq<Seq<char>> {
    views_of_strings(ls).subrange(start, end)
}

/// The highest suffix-border column among the lines of the block, if
/// any line has a suffix border.
fn seg_max_col(lines: &Vec<String>, start: usize, end: usize) -> (r: Option<usize>)
    requires
        start <= end <= lines@.len(),
        forall|j: int|
            start <= j < end ==> (#[trigger] lines@[j])@.len() <= usize::MAX / 2,
    ensures
        r is Some <==> max_col(seg_views(lines@, start as int, end as int)) is Some,
        r matches Some(t) ==> max_col(seg_views(lines@, start as int, end as int)) == Option::Some(
            t as int,
        ),
{
    let ghost seg = seg_views(lines@, start as int, end as int);
    let mut best: Option<usize> = Option::None;
    let mut i: usize = start;
    proof {
        assert(seg.subrange(0, 0) =~= Seq::<Seq<char>>::empty());
    }
    while i < end
        invariant
            start <= i <= end <= lines@.len(),
            seg == seg_views(lines@, start as int, end as int),
            forall|j: int|
                start <= j < end ==> (#[trigger] lines@[j])@.len() <= usize::MAX / 2,
            best is Some <==> max_col(seg.subrange(0, i - start)) is Some,
            best matches Some(t) ==> max_col(seg.subrange(0, i - start)) == Option::Some(t as int),
        decreases end - i,
    {
        let v = crate::text::str_to_chars(lines[i].as_str());
        proof {
            assert(seg[i - start] == lines@[i as int]@);
        }
        let sb = crate::analyze::suffix_border_chars(&v);
        proof {
            let p1 = seg.subrange(0, i - start + 1);
            assert(p1.drop_last() =~= seg.subrange(0, i - start));
            assert(p1.last() == seg[i - start]);
        }
        match sb {
            Option::Some(b) => {
                best = match best {
                    Option::Some(cur) => {
                        if b.column > cur {
                            Option::Some(b.column)
                        } else {
                            Option::Some(cur)
                        }
                    },
                    Option::None => Option::Some(b.column),
                };
            },
            Option::None => {},
        }
        i = i + 1;
    }
    proof {
        assert(seg.subrange(0, end - start) =~= seg);
    }
    best
}

/// The preferred border character of the block's lines.
fn seg_border_choice(lines: &Vec<String>, start: usize, end: usize) -> (r: char)
    requires
        start <= end <= lines@.len(),
    ensures
        r == border_choice(vbars(seg_views(lines@, start as int, end as int))),
{
    let ghost seg = seg_views(lines@, start as int, end as int);
    let mut flat: Vec<char> = Vec::new();
    let mut i: usize = start;
    proof {
        assert(vbars(seg.subrange(0, 0)) =~= Seq::<char>::empty());
        assert(flat@ =~= vbars(seg.subrange(0, 0)));
    }
    while i < end
        invariant
            start <= i <= end <= lines@.len(),
            seg == seg_views(lines@, start as int, end as int),
            flat@ == vbars(seg.subrange(0, i - start)),
        decreases end - i,
    {
        let v = crate::text::str_to_chars(lines[i].as_str());
        proof {
            assert(seg[i - start] == lines@[i as int]@);
        }
        crate::analyze::push_vb_filter(&mut flat, &v);
        proof {
            let p1 = seg.subrange(0, i - start + 1);
            assert(p1.drop_last() =~= seg.subrange(0, i - start));
            assert(p1.last() == seg[i - start]);
        }
        i = i + 1;
    }
    proof {
        assert(seg.subrange(0, end - start) =~= seg);
    }
    crate::analyze::pick_first_max(&flat)
}

/// Result of correcting a single block.
#[derive(Debug, Clone, Copy, PartialEq, Eq, Structural)]
pub struct BlockCorrectionResult {
    /// Number of revisions applied.
    pub revisions_applied: usize,
    /// Number of revisions skipped due to low score.
    pub revisions_skipped: usize,
}

/// Correct a single diagram block by iterative refinement: analyze
/// the block's lines, find the rightmost border column, pad lagging
/// borders and add missing ones where the score filter allows, and
/// repeat until an iteration applies nothing or the iteration budget
/// runs out. The block's lines end up exactly as the fixed-point
/// semantics says; lines outside the block are untouched.
pub fn correct_block(lines: &mut Vec<String>, block: &DiagramBlock, config: &Config) -> (r:
    BlockCorrectionResult)
    requires
        config_valid(*config),
        block.start <= block.end <= old(lines)@.len(),
        forall|j: int|
            block.start <= j < block.end ==> (#[trigger] old(lines)@[j])@.len() <= usize::MAX
                / 64,
        config.max_iters * (block.end - block.start) <= usize::MAX,
    ensures
        ({
            let c = correct_block_s(
                views_of_strings(old(lines)@),
                block.start as int,
                block.end as int,
                spec_effective_min_score(*config),
                config.max_iters as int,
            );
            &&& views_of_strings(final(lines)@) == c.0
            &&& r.revisions_applied == c.1
            &&& r.revisions_skipped == c.2
        }),
{
    let ms: u32 = config.effective_min_score();
    let start = block.start;
    let end = block.end;
    let seglen = end - start;
    let ghost w: int = (usize::MAX / 64) as int;
    let ghost orig = views_of_strings(old(lines)@);
    let ghost seg0 = orig.subrange(start as int, end as int);
    let ghost fix = correct_iter(seg0, ms as int, config.max_iters as int);
    proof {
        lemma_correct_iter_bounds(seg0, ms as int, config.max_iters as int);
        assert(corr_inv(seg0, w)) by {
            assert forall|j: int| 0 <= j < seg0.len() implies corr_line_inv(
                #[trigger] seg0[j],
                w,
            ) by {
                assert(seg0[j] == old(lines)@[start + j]@);
                lemma_initial_inv(seg0[j], w);
            }
        }
    }
    let mut applied_total: usize = 0;
    let mut skipped_total: usize = 0;
    let mut it: usize = 0;
    while it < config.max_iters
        invariant_except_break
            it <= config.max_iters,
            config_valid(*config),
            ms == spec_effective_min_score(*config),
            start == block.start,
            end == block.end,
            seglen == end - start,
            start <= end <= lines@.len(),
            lines@.len() == old(lines)@.len(),
            orig == views_of_strings(old(lines)@),
            seg0 == orig.subrange(start as int, end as int),
            fix == correct_iter(seg0, ms as int, config.max_iters as int),
            w == (usize::MAX / 64) as int,
            config.max_iters * seglen <= usize::MAX,
            forall|j: int|
                0 <= j < lines@.len() && !(start <= j < end) ==> (#[trigger] lines@[j])
                    == old(lines)@[j],
            corr_inv(seg_views(lines@, start as int, end as int), w),
            fix.0 == correct_iter(
                seg_views(lines@, start as int, end as int),
                ms as int,
                (config.max_iters - it) as int,
            ).0,
            fix.1 == applied_total + correct_iter(
                seg_views(lines@, start as int, end as int),
                ms as int,
                (config.max_iters - it) as int,
            ).1,
            fix.2 == skipped_total + correct_iter(
                seg_views(lines@, start as int, end as int),
                ms as int,
                (config.max_iters - it) as int,
            ).2,
            applied_total <= it * seglen,
            skipped_total <= it * seglen,
        ensures
            lines@.len() == old(lines)@.len(),
            forall|j: int|
                0 <= j < lines@.len() && !(start <= j < end) ==> (#[trigger] lines@[j])
                    == old(lines)@[j],
            fix.0 == seg_views(lines@, start as int, end as int),
            fix.1 == applied_total,
            fix.2 == skipped_total,
        decreases config.max_iters - it,
    {
        let ghost segc = seg_views(lines@, start as int, end as int);
        let ghost fuel: int = (config.max_iters - it) as int;
        proof {
            assert(segc.len() == seglen);
            assert forall|j: int| start <= j < end implies (#[trigger] lines@[j])@.len()
                <= usize::MAX / 2 by {
                assert(segc[j - start] == lines@[j]@);
                assert(corr_line_inv(segc[j - start], w));
            }
        }
        let t_opt = seg_max_col(lines, start, end);
        match t_opt {
            Option::None => {
                break ;
            },
            Option::Some(target) => {
                proof {
                    lemma_max_col_bounded(segc, w);
                }
                let bc = seg_border_choice(lines, start, end);
                proof {
                    lemma_border_choice_is_border(segc);
                }
                let mut applied_iter: usize = 0;
                let mut skipped_iter: usize = 0;
                let mut idx: usize = start;
                proof {
                    assert(segc.subrange(0, 0) =~= Seq::<Seq<char>>::empty());
                }
                while idx < end
                    invariant
                        start <= idx <= end <= lines@.len(),
                        lines@.len() == old(lines)@.len(),
                        seglen == end - start,
                        ms == spec_effective_min_score(*config),
                        segc.len() == seglen,
                        0 <= target as int <= 2 * w,
                        spec_is_border_char(bc),
                        w == (usize::MAX / 64) as int,
                        forall|j: int|
                            0 <= j < lines@.len() && !(start <= j < end) ==> (
                            #[trigger] lines@[j]) == old(lines)@[j],
                        forall|j: int|
                            idx <= j < end ==> (#[trigger] views_of_strings(lines@)[j])
                                == segc[j - start],
                        forall|j: int|
                            start <= j < idx ==> (#[trigger] views_of_strings(lines@)[j])
                                == line_step(segc[j - start], target as int, bc, ms as int),
                        corr_inv(segc, w),
                        corr_inv(seg_views(lines@, start as int, end as int), w),
                        applied_iter == count_applied(
                            segc.subrange(0, idx - start),
                            target as int,
                            ms as int,
                        ),
                        skipped_iter == count_skipped(
                            segc.subrange(0, idx - start),
                            target as int,
                            ms as int,
                        ),
                        applied_iter <= idx - start,
                        skipped_iter <= idx - start,
                    decreases end - idx,
                {
                    let ghost l = segc[idx - start];
                    proof {
                        assert(views_of_strings(lines@)[idx as int] == lines@[idx as int]@);
                        assert(lines@[idx as int]@ == l);
                        assert(corr_line_inv(l, w));
                    }
                    let v = crate::text::str_to_chars(lines[idx].as_str());
                    let kind = crate::analyze::classify_chars(&v);
                    let sb = if kind.is_boxy() {
                        crate::analyze::suffix_border_chars(&v)
                    } else {
                        proof {
                            if has_suffix_border(l) {
                                crate::revise::lemma_suffix_border_boxy(l);
                            }
                        }
                        Option::None
                    };
                    let ghost lines_before = lines@;
                    match sb {
                        Option::Some(b) => {
                            if b.column < target {
                                let n = target - b.column;
                                let strong = kind.eq_strong();
                                let penalty: u32 = if n >= 5 {
                                    500
                                } else {
                                    (n as u32) * 100
                                };
                                let bonus: u32 = if strong {
                                    200
                                } else {
                                    0
                                };
                                let score: u32 = 800 - penalty + bonus;
                                proof {
                                    assert(score as int == pad_score(
                                        n as int,
                                        classify_s(l) == LineKind::Strong,
                                    ));
                                    assert(score as int == line_score(l, target as int));
                                }
                                if score >= ms {
                                    let padded = crate::revise::pad_chars(&v, n);
                                    let ns = crate::text::chars_to_string(&padded);
                                    lines.set(idx, ns);
                                    applied_iter = applied_iter + 1;
                                    proof {
                                        lemma_line_step_inv(l, target as int, bc, ms as int, w);
                                        assert(views_of_strings(lines@)[idx as int] == line_step(
                                            l,
                                            target as int,
                                            bc,
                                            ms as int,
                                        ));
                                    }
                                } else {
                                    skipped_iter = skipped_iter + 1;
                                    proof {
                                        assert(line_step(l, target as int, bc, ms as int) == l);
                                    }
                                }
                            } else {
                                proof {
                                    assert(!line_candidate_pad(l, target as int));
                                    assert(!line_candidate_add(l));
                                    assert(line_step(l, target as int, bc, ms as int) == l);
                                }
                            }
                        },
                        Option::None => {
                            if kind.is_boxy() {
                                let strong = kind.eq_strong();
                                let score: u32 = 500 + if strong {
                                    200
                                } else {
                                    100
                                };
                                proof {
                                    assert(!has_suffix_border(l));
                                    assert(score as int == line_score(l, target as int));
                                }
                                if score >= ms {
                                    let added = crate::revise::add_chars(&v, bc, target);
                                    let ns = crate::text::chars_to_string(&added);
                                    lines.set(idx, ns);
                                    applied_iter = applied_iter + 1;
                                    proof {
                                        lemma_line_step_inv(l, target as int, bc, ms as int, w);
                                        assert(views_of_strings(lines@)[idx as int] == line_step(
                                            l,
                                            target as int,
                                            bc,
                                            ms as int,
                                        ));
                                    }
                                } else {
                                    skipped_iter = skipped_iter + 1;
                                    proof {
                                        assert(line_step(l, target as int, bc, ms as int) == l);
                                    }
                                }
                            } else {
                                proof {
                                    assert(!spec_is_boxy(classify_s(l)));
                                    if has_suffix_border(l) {
                                        crate::revise::lemma_suffix_border_boxy(l);
                                    }
                                    assert(!line_candidate_pad(l, target as int));
                                    assert(!line_candidate_add(l));
                                    assert(line_step(l, target as int, bc, ms as int) == l);
                                }
                            }
                        },
                    }
                    proof {
                        let p1 = segc.subrange(0, idx - start + 1);
                        assert(p1.drop_last() =~= segc.subrange(0, idx - start));
                        assert(p1.last() == segc[idx - start]);
                        assert forall|k: int|
                            0 <= k < lines@.len() && k != idx as int implies (
                        #[trigger] lines@[k]) == lines_before[k] by {}
                        assert forall|j: int|
                            start <= j < idx + 1 implies (#[trigger] views_of_strings(
                            lines@,
                        )[j]) == line_step(segc[j - start], target as int, bc, ms as int) by {
                            if j < idx {
                                assert(lines@[j] == lines_before[j]);
                                assert(views_of_strings(lines_before)[j] == lines_before[j]@);
                                assert(views_of_strings(lines@)[j] == lines@[j]@);
                            } else {
                                assert(views_of_strings(lines@)[j] == lines@[idx as int]@);
                            }
                        }
                        assert forall|j: int|
                            idx + 1 <= j < end implies (#[trigger] views_of_strings(
                            lines@,
                        )[j]) == segc[j - start] by {
                            assert(lines@[j] == lines_before[j]);
                            assert(views_of_strings(lines_before)[j] == lines_before[j]@);
                            assert(views_of_strings(lines@)[j] == lines@[j]@);
                        }
                        assert forall|j: int|
                            0 <= j < lines@.len() && !(start <= j < end) implies (
                        #[trigger] lines@[j]) == old(lines)@[j] by {
                            assert(lines@[j] == lines_before[j]);
                        }
                        assert forall|j: int|
                            0 <= j < seg_views(lines@, start as int, end as int).len()
                            implies corr_line_inv(
                            #[trigger] seg_views(lines@, start as int, end as int)[j],
                            w,
                        ) by {
                            assert(seg_views(lines@, start as int, end as int)[j]
                                == views_of_strings(lines@)[start + j]);
                            if start + j <= idx as int {
                                lemma_line_step_inv(segc[j], target as int, bc, ms as int, w);
                                assert(views_of_strings(lines@)[start + j] == line_step(
                                    segc[j],
                                    target as int,
                                    bc,
                                    ms as int,
                                ));
                            } else {
                                assert(views_of_strings(lines@)[start + j] == segc[j]);
                                assert(corr_line_inv(segc[j], w));
                            }
                        }
                    }
                    idx = idx + 1;
                }
                proof {
                    assert(segc.subrange(0, seglen as int) =~= segc);
                }
                if applied_iter == 0 {
                    proof {
                        assert(it * seglen + seglen == (it + 1) * seglen) by (nonlinear_arith);
                        assert((it + 1) * seglen <= config.max_iters * seglen)
                            by (nonlinear_arith)
                            requires
                                it + 1 <= config.max_iters,
                                seglen >= 0,
                        ;
                    }
                    skipped_total = skipped_total + skipped_iter;
                    proof {
                        lemma_zero_applied(segc, target as int, bc, ms as int);
                        assert(seg_views(lines@, start as int, end as int) =~= segc);
                        assert(fuel >= 1);
                        assert(correct_iter(segc, ms as int, fuel) == (
                            segc,
                            0int,
                            count_skipped(segc, target as int, ms as int),
                        ));
                    }
                    break ;
                }
                proof {
                    let nseg = seg_views(lines@, start as int, end as int);
                    assert(nseg =~= iter_lines(segc, target as int, bc, ms as int)) by {
                        assert forall|j: int| 0 <= j < seglen implies nseg[j] == iter_lines(
                            segc,
                            target as int,
                            bc,
                            ms as int,
                        )[j] by {
                            assert(nseg[j] == views_of_strings(lines@)[start + j]);
                        }
                    }
                    assert(correct_iter(segc, ms as int, fuel).0 == correct_iter(
                        nseg,
                        ms as int,
                        fuel - 1,
                    ).0);
                    assert(it * seglen + seglen == (it + 1) * seglen) by (nonlinear_arith);
                    assert((it + 1) * seglen <= config.max_iters * seglen) by (nonlinear_arith)
                        requires
                            it + 1 <= config.max_iters,
                            seglen >= 0,
                    ;
                }
                applied_total = applied_total + applied_iter;
                skipped_total = skipped_total + skipped_iter;
                it = it + 1;
            },
        }
    }
    proof {
        let c = correct_block_s(
            orig,
            start as int,
            end as int,
            ms as int,
            config.max_iters as int,
        );
        assert(views_of_strings(lines@) =~= splice(orig, start as int, end as int, fix.0)) by {
            assert(fix.0.len() == seglen) by {
                lemma_correct_iter_bounds(seg0, ms as int, config.max_iters as int);
            }
            assert forall|j: int|
                0 <= j < views_of_strings(lines@).len() implies views_of_strings(lines@)[j]
                == splice(orig, start as int, end as int, fix.0)[j] by {
                if j < start {
                    assert(views_of_strings(lines@)[j] == lines@[j]@);
                    assert(lines@[j] == old(lines)@[j]);
                } else if j < end {
                    assert(views_of_strings(lines@)[j] == seg_views(
                        lines@,
                        start as int,
                        end as int,
                    )[j - start]);
                } else {
                    assert(views_of_strings(lines@)[j] == lines@[j]@);
                    assert(lines@[j] == old(lines)@[j]);
                }
            }
        }
    }
    BlockCorrectionResult { revisions_applied: applied_total, revisions_skipped: skipped_total }
}

/// Main correction entry point: gate on the quick scan, expand tabs,
/// detect blocks, and correct each block that the line filter admits.
/// The lines and every counter of the statistics come out exactly as
/// the pipeline semantics says; the core reports no elapsed time of
/// its own.
#[verifier::rlimit(100)]
pub fn correct_lines(lines: Vec<String>, config: &Config) -> (r: (Vec<String>, Stats))
    requires
        config_valid(*config),
        lines_fit(views_of_strings(lines@)),
        config.max_iters * lines@.len() <= usize::MAX,
    ensures
        ({
            let p = process_s(views_of_strings(lines@), *config);
            &&& views_of_strings(r.0@) == p.0
            &&& r.1.blocks_found == p.1
            &&& r.1.blocks_modified == p.2
            &&& r.1.blocks_skipped == p.3
            &&& r.1.total_revisions == p.4
            &&& r.1.revisions_skipped == p.5
            &&& r.1.total_lines == lines@.len()
            &&& r.1.elapsed_ms == 0
        }),
{
    let ghost vs0 = views_of_strings(lines@);
    let total_lines = lines.len();
    let mut stats = Stats::zero();
    stats.total_lines = total_lines;
    if !config.all_blocks {
        let scan = crate::scan::quick_scan_for_diagrams(&lines);
        if !scan.likely_has_diagrams {
            return (lines, stats);
        }
    }
    let ghost ms: int = spec_effective_min_score(*config);
    let ghost fuel: int = config.max_iters as int;
    let ghost ex = expand_all(vs0, config.tab_width as int);
    let mut out: Vec<String> = Vec::new();
    let mut i: usize = 0;
    proof {
        assert(views_of_strings(out@) =~= ex.subrange(0, 0));
    }
    while i < lines.len()
        invariant
            i <= lines@.len(),
            vs0 == views_of_strings(lines@),
            lines_fit(vs0),
            config_valid(*config),
            ex == expand_all(vs0, config.tab_width as int),
            out@.len() == i,
            views_of_strings(out@) == ex.subrange(0, i as int),
        decreases lines@.len() - i,
    {
        proof {
            assert(vs0[i as int] == lines@[i as int]@);
            assert(line_fits(vs0[i as int]));
            assert(usize::MAX / 1024 <= usize::MAX / 32);
        }
        let e = crate::tabs::expand_tabs(lines[i].as_str(), config.tab_width);
        let ghost outv0 = views_of_strings(out@);
        out.push(e);
        proof {
            assert(ex[i as int] == expand_tabs_s(vs0[i as int], config.tab_width as int));
            assert forall|j: int|
                0 <= j < i + 1 implies (#[trigger] views_of_strings(out@)[j]) == ex.subrange(
                0,
                i + 1,
            )[j] by {
                if j < i {
                    assert(views_of_strings(out@)[j] == out@[j]@);
                    assert(outv0[j] == out@[j]@);
                } else {
                    assert(views_of_strings(out@)[j] == out@[i as int]@);
                }
            }
            assert(views_of_strings(out@) =~= ex.subrange(0, i + 1));
        }
        i = i + 1;
    }
    proof {
        assert(ex.subrange(0, ex.len() as int) =~= ex);
        assert(views_of_strings(out@) == ex);
        assert forall|j: int| 0 <= j < ex.len() implies (#[trigger] ex[j]).len() <= usize::MAX
            / 64 by {
            assert(ex[j] == expand_tabs_s(vs0[j], config.tab_width as int));
            assert(line_fits(vs0[j]));
            crate::tabs::lemma_expand_len(vs0[j], config.tab_width as int, 0);
            assert(16 * (usize::MAX / 1024) <= usize::MAX / 64);
        }
    }
    let blocks = find_diagram_blocks(&out, config.all_blocks);
    let ghost bsv = block_views(blocks@);
    proof {
        assert(bsv == blocks_of(ex, config.all_blocks));
        crate::blocks::lemma_blocks_bounds(
            crate::blocks::kinds_of(ex),
            0,
            config.all_blocks,
        );
    }
    stats.blocks_found = blocks.len();
    let ghost rangesv = ranges_of(*config);
    let ghost fix = run_blocks(ex, bsv, 0, ms, fuel, rangesv);
    let mut modified: usize = 0;
    let mut skippedb: usize = 0;
    let mut applied: usize = 0;
    let mut skippedr: usize = 0;
    let mut cur_pos: usize = 0;
    let mut k: usize = 0;
    while k < blocks.len()
        invariant
            k <= blocks@.len(),
            bsv == block_views(blocks@),
            bsv.len() == blocks@.len(),
            config_valid(*config),
            ms == spec_effective_min_score(*config),
            fuel == config.max_iters as int,
            rangesv == ranges_of(*config),
            out@.len() == ex.len(),
            ex.len() == lines@.len(),
            config.max_iters * lines@.len() <= usize::MAX,
            forall|j: int|
                0 <= j < bsv.len() ==> 0 <= (#[trigger] bsv[j]).0 && bsv[j].0 < bsv[j].1
                    <= ex.len(),
            forall|j: int| 0 <= j < bsv.len() - 1 ==> (#[trigger] bsv[j]).1 <= bsv[j + 1].0,
            forall|j: int|
                0 <= j < ex.len() ==> (#[trigger] ex[j]).len() <= usize::MAX / 64,
            cur_pos <= ex.len(),
            k < bsv.len() ==> cur_pos <= bsv[k as int].0,
            forall|j: int|
                cur_pos <= j < ex.len() ==> (#[trigger] views_of_strings(out@)[j]) == ex[j],
            fix.0 == run_blocks(views_of_strings(out@), bsv, k as int, ms, fuel, rangesv).0,
            fix.1 == modified + run_blocks(
                views_of_strings(out@),
                bsv,
                k as int,
                ms,
                fuel,
                rangesv,
            ).1,
            fix.2 == skippedb + run_blocks(
                views_of_strings(out@),
                bsv,
                k as int,
                ms,
                fuel,
                rangesv,
            ).2,
            fix.3 == applied + run_blocks(
                views_of_strings(out@),
                bsv,
                k as int,
                ms,
                fuel,
                rangesv,
            ).3,
            fix.4 == skippedr + run_blocks(
                views_of_strings(out@),
                bsv,
                k as int,
                ms,
                fuel,
                rangesv,
            ).4,
            modified <= k,
            skippedb <= k,
            applied <= config.max_iters * cur_pos,
            skippedr <= config.max_iters * cur_pos,
        decreases blocks@.len() - k,
    {
        let b = blocks[k];
        proof {
            assert(bsv[k as int] == (b.start as int, b.end as int, b.confidence as int));
        }
        let mut skip_this = false;
        match &config.lines {
            Option::Some(rl) => {
                if !crate::ranges::block_overlaps_ranges(&b, rl) {
                    skip_this = true;
                }
            },
            Option::None => {},
        }
        if skip_this {
            skippedb = skippedb + 1;
            proof {
                assert(rangesv matches Option::Some(rs)
                    && !block_overlaps_s(b.start as int, b.end as int, rs));
            }
        } else {
            proof {
                assert forall|j: int|
                    b.start <= j < b.end implies (#[trigger] out@[j])@.len() <= usize::MAX
                    / 64 by {
                    assert(views_of_strings(out@)[j] == out@[j]@);
                    assert(views_of_strings(out@)[j] == ex[j]);
                }
                assert(config.max_iters * (b.end - b.start) <= usize::MAX) by (nonlinear_arith)
                    requires
                        b.end - b.start <= ex.len(),
                        ex.len() == lines@.len(),
                        config.max_iters * lines@.len() <= usize::MAX,
                        config.max_iters >= 0,
                        b.end - b.start >= 0,
                ;
            }
            let ghost before = views_of_strings(out@);
            let res = correct_block(&mut out, &b, config);
            let ghost cres = correct_block_s(before, b.start as int, b.end as int, ms, fuel);
            proof {
                lemma_correct_iter_bounds(
                    before.subrange(b.start as int, b.end as int),
                    ms,
                    fuel,
                );
                assert(res.revisions_applied as int == cres.1);
                assert(res.revisions_skipped as int == cres.2);
                assert(cres.1 <= fuel * (b.end - b.start));
                assert(cres.2 <= fuel * (b.end - b.start));
                assert(applied + res.revisions_applied <= config.max_iters * (b.end as int))
                    by (nonlinear_arith)
                    requires
                        applied <= config.max_iters * cur_pos,
                        res.revisions_applied <= config.max_iters * (b.end - b.start),
                        cur_pos <= b.start,
                        config.max_iters >= 0,
                        b.start <= b.end,
                ;
                assert(skippedr + res.revisions_skipped <= config.max_iters * (b.end as int))
                    by (nonlinear_arith)
                    requires
                        skippedr <= config.max_iters * cur_pos,
                        res.revisions_skipped <= config.max_iters * (b.end - b.start),
                        cur_pos <= b.start,
                        config.max_iters >= 0,
                        b.start <= b.end,
                ;
                assert(config.max_iters * (b.end as int) <= usize::MAX) by (nonlinear_arith)
                    requires
                        b.end <= ex.len(),
                        ex.len() == lines@.len(),
                        config.max_iters * lines@.len() <= usize::MAX,
                        config.max_iters >= 0,
                        b.end >= 0,
                ;
            }
            if res.revisions_applied > 0 {
                modified = modified + 1;
                applied = applied + res.revisions_applied;
            }
            skippedr = skippedr + res.revisions_skipped;
            cur_pos = b.end;
            proof {
                assert(views_of_strings(out@) == cres.0);
                assert(cres.0.len() == before.len());
                assert(views_of_strings(out@).len() == out@.len());
                assert forall|j: int|
                    cur_pos <= j < ex.len() implies (#[trigger] views_of_strings(out@)[j])
                    == ex[j] by {
                    assert(cres.0[j] == before[j]) by {
                        assert(cres.0 == splice(
                            before,
                            b.start as int,
                            b.end as int,
                            correct_iter(
                                before.subrange(b.start as int, b.end as int),
                                ms,
                                fuel,
                            ).0,
                        ));
                    }
                }
                assert(applied <= config.max_iters * cur_pos);
                assert(skippedr <= config.max_iters * cur_pos);
            }
        }
        proof {
            if k + 1 < bsv.len() {
                assert(bsv[k as int].1 <= bsv[k + 1].0);
            }
        }
        k = k + 1;
    }
    proof {
        assert(run_blocks(views_of_strings(out@), bsv, bsv.len() as int, ms, fuel, rangesv)
            == (views_of_strings(out@), 0int, 0int, 0int, 0int));
    }
    stats.blocks_modified = modified;
    stats.blocks_skipped = skippedb;
    stats.total_revisions = applied;
    stats.revisions_skipped = skippedr;
    (out, stats)
}
} // verus!
