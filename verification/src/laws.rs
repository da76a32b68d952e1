//! The library's standing guarantees, stated and proved over the
//! pipeline semantics: the corrector keeps the line count, passes
//! prose and gated documents through untouched, only ever inserts,
//! never narrows a line, and aligns every border it settles on.

use vstd::prelude::*;
use crate::analyze::{classify_s, has_suffix_border, suffix_col, LineKind, spec_is_boxy, vbars, border_choice};
use crate::blocks::{blocks_of, kinds_of, lemma_blocks_bounds};
use crate::chars::line_width;
use crate::config::Config;
use crate::correct::{
    correct_block_s, correct_iter, count_applied, count_skipped, expand_all, iter_lines,
    lemma_border_choice_is_border, lemma_correct_iter_bounds, lemma_counts_bounded,
    lemma_pad_result, lemma_add_result, lemma_zero_applied, max_col, process_s, run_blocks,
};
use crate::revise::{
    line_applied, line_candidate_add, line_candidate_pad, line_score, line_skipped, line_step,
    lemma_suffix_border_boxy,
};
use crate::scan::{line_has_box, scan_hits, scan_likely, scan_limit};
use crate::tabs::expand_tabs_s;
use crate::text::{
    is_subseq, lemma_subseq_insert_middle, lemma_subseq_prefix, lemma_subseq_refl,
    lemma_subseq_trans, spaces, trim_end_s,
};

verus! {

/// Blocks drawn from a classification fit the document they came
/// from.
pub open spec fn blocks_in_range(bs: Seq<(int, int, int)>, n: int) -> bool {
    forall|k: int| 0 <= k < bs.len() ==> 0 <= (#[trigger] bs[k]).0 && bs[k].0 < bs[k].1 <= n
}

/// Running the corrector never changes the number of lines.
proof fn lemma_run_blocks_len(
    ls: Seq<Seq<char>>,
    bs: Seq<(int, int, int)>,
    i: int,
    ms: int,
    fuel: int,
    rg: Option<Seq<(int, int)>>,
)
    requires
        blocks_in_range(bs, ls.len() as int),
        fuel >= 0,
    ensures
        run_blocks(ls, bs, i, ms, fuel, rg).0.len() == ls.len(),
    decreases bs.len() - i,
{
    if 0 <= i < bs.len() {
        let b = bs[i];
        if rg matches Option::Some(rs) && !crate::ranges::block_overlaps_s(b.0, b.1, rs) {
            lemma_run_blocks_len(ls, bs, i + 1, ms, fuel, rg);
        } else {
            let c = correct_block_s(ls, b.0, b.1, ms, fuel);
            lemma_correct_iter_bounds(ls.subrange(b.0, b.1), ms, fuel);
            assert(c.0.len() == ls.len());
            assert(blocks_in_range(bs, c.0.len() as int));
            lemma_run_blocks_len(c.0, bs, i + 1, ms, fuel, rg);
        }
    }
}

/// Line count: the output has exactly as many lines as the input.
pub proof fn lemma_line_count(ls: Seq<Seq<char>>, c: Config)
    ensures
        process_s(ls, c).0.len() == ls.len(),
{
    if !c.all_blocks && !scan_likely(ls) {
    } else {
        let ex = expand_all(ls, c.tab_width as int);
        let bs = blocks_of(ex, c.all_blocks);
        lemma_blocks_bounds(kinds_of(ex), 0, c.all_blocks);
        assert(kinds_of(ex).len() == ex.len());
        lemma_run_blocks_len(
            ex,
            bs,
            0,
            crate::config::spec_effective_min_score(c),
            c.max_iters as int,
            crate::correct::ranges_of(c),
        );
    }
}

/// An empty document comes out empty, with nothing counted.
pub proof fn lemma_empty_doc(ls: Seq<Seq<char>>, c: Config)
    requires
        ls.len() == 0,
    ensures
        process_s(ls, c).0 == ls,
        process_s(ls, c).1 == 0,
        process_s(ls, c).2 == 0,
        process_s(ls, c).3 == 0,
        process_s(ls, c).4 == 0,
        process_s(ls, c).5 == 0,
{
    if !c.all_blocks && !scan_likely(ls) {
    } else {
        let ex = expand_all(ls, c.tab_width as int);
        assert(ex =~= ls);
        let ks = kinds_of(ex);
        assert(ks.len() == 0);
        let bs = blocks_of(ex, c.all_blocks);
        assert(bs =~= Seq::<(int, int, int)>::empty());
    }
}

/// The first `n` lines of a document without box characters score no
/// scan hits.
proof fn lemma_scan_hits_zero(ls: Seq<Seq<char>>, n: int)
    requires
        forall|i: int| 0 <= i < ls.len() ==> !line_has_box(#[trigger] ls[i]),
        n <= ls.len(),
    ensures
        scan_hits(ls, n) == 0,
    decreases n,
{
    if n > 0 {
        lemma_scan_hits_zero(ls, n - 1);
    }
}

/// A document without any box character passes through the quick
/// scan unchanged, with nothing counted.
pub proof fn lemma_no_box_passthrough(ls: Seq<Seq<char>>, c: Config)
    requires
        !c.all_blocks,
        forall|i: int| 0 <= i < ls.len() ==> !line_has_box(#[trigger] ls[i]),
    ensures
        process_s(ls, c).0 == ls,
        process_s(ls, c).1 == 0,
        process_s(ls, c).2 == 0,
        process_s(ls, c).3 == 0,
        process_s(ls, c).4 == 0,
        process_s(ls, c).5 == 0,
{
    lemma_scan_hits_zero(ls, scan_limit(ls));
    assert(!scan_likely(ls));
}


/// How any line may evolve under the corrector: it is either
/// untouched or fully right-trimmed; its right-trimmed text survives
/// as a subsequence; its right-trimmed visual width never shrinks;
/// prose and blank lines do not change at all; and no line leaves or
/// enters the boxy class.
pub open spec fn line_evolves(l: Seq<char>, r: Seq<char>) -> bool {
    &&& (r == l || trim_end_s(r) == r)
    &&& is_subseq(trim_end_s(l), r)
    &&& line_width(trim_end_s(r)) >= line_width(trim_end_s(l))
    &&& (classify_s(l) == LineKind::Prose ==> r == l)
    &&& (classify_s(l) == LineKind::Blank ==> r == l)
    &&& (spec_is_boxy(classify_s(l)) <==> spec_is_boxy(classify_s(r)))
    &&& (tab_free(l) ==> tab_free(r))
}

/// A line with no tab character left in it.
pub open spec fn tab_free(l: Seq<char>) -> bool {
    forall|i: int| 0 <= i < l.len() ==> l[i] != '\t'
}

proof fn lemma_evolves_refl(l: Seq<char>)
    ensures
        line_evolves(l, l),
{
    crate::text::lemma_trim_end_len_le(l);
    let t = trim_end_s(l);
    assert(l =~= t + l.subrange(crate::text::trim_end_len(l), l.len() as int));
    lemma_subseq_prefix(t, l.subrange(crate::text::trim_end_len(l), l.len() as int));
}

proof fn lemma_evolves_trans(l: Seq<char>, m: Seq<char>, f: Seq<char>)
    requires
        line_evolves(l, m),
        line_evolves(m, f),
    ensures
        line_evolves(l, f),
{
    if m == l {
    } else {
        assert(trim_end_s(m) == m);
        lemma_subseq_trans(trim_end_s(l), m, f);
    }
}

/// The decomposition of a right-trimmed line's width at its last
/// character.
proof fn lemma_trim_width_split(t: Seq<char>)
    requires
        t.len() > 0,
    ensures
        line_width(t) == line_width(t.drop_last()) + crate::chars::spec_char_width(t.last()),
{
    assert(t =~= t.drop_last() + seq![t.last()]);
    crate::chars::lemma_line_width_add(t.drop_last(), seq![t.last()]);
    assert(line_width(seq![t.last()].drop_last()) == 0) by {
        assert(seq![t.last()].drop_last() =~= Seq::<char>::empty());
    }
}

/// One revision step respects the evolution relation.
proof fn lemma_line_step_evolves(l: Seq<char>, target: int, bc: char, ms: int)
    requires
        crate::chars::spec_is_border_char(bc),
    ensures
        line_evolves(l, line_step(l, target, bc, ms)),
{
    let r = line_step(l, target, bc, ms);
    let t = trim_end_s(l);
    if line_candidate_pad(l, target) && line_score(l, target) >= ms {
        let n = target - suffix_col(l);
        lemma_pad_result(l, n);
        lemma_suffix_border_boxy(l);
        lemma_suffix_border_boxy(r);
        assert(t =~= t.drop_last() + seq![t.last()]);
        lemma_subseq_insert_middle(t.drop_last(), spaces(n), seq![t.last()]);
        assert(t.drop_last() + spaces(n) + seq![t.last()] == r);
        assert(is_subseq(t, r)) by {
            assert(t.drop_last() + seq![t.last()] =~= t);
        }
        assert(crate::chars::spec_char_width(t.last()) == 1) by {
            assert(crate::chars::spec_is_box_char(t.last()));
        }
        lemma_trim_width_split(t);
        crate::correct::lemma_spaces_width(n);
        assert(line_width(r) == suffix_col(l) + n + 1);
        assert(line_width(t) == suffix_col(l) + 1);
        if tab_free(l) {
            assert forall|i: int| 0 <= i < r.len() implies r[i] != '\t' by {
                crate::text::lemma_trim_end_len_le(l);
                if i < t.len() - 1 {
                    assert(r[i] == t.drop_last()[i]);
                    assert(t[i] == l[i]);
                } else if i < t.len() - 1 + n {
                    assert(r[i] == ' ');
                } else {
                    assert(r[i] == t.last());
                    assert(t[t.len() - 1] == l[t.len() - 1]);
                }
            }
        }
    } else if line_candidate_add(l) && line_score(l, target) >= ms {
        lemma_add_result(l, bc, target);
        lemma_suffix_border_boxy(r);
        let pad = if target - line_width(t) >= 0 {
            target - line_width(t)
        } else {
            0int
        };
        assert(r == t + spaces(pad) + seq![bc]);
        lemma_subseq_prefix(t, spaces(pad) + seq![bc]);
        assert(t + (spaces(pad) + seq![bc]) =~= r);
        crate::chars::lemma_line_width_add(t, spaces(pad));
        crate::correct::lemma_spaces_width(pad);
        lemma_trim_width_split(r);
        assert(r.drop_last() =~= t + spaces(pad));
        assert(line_width(r) >= line_width(t));
        if tab_free(l) {
            assert forall|i: int| 0 <= i < r.len() implies r[i] != '\t' by {
                crate::text::lemma_trim_end_len_le(l);
                if i < t.len() {
                    assert(r[i] == t[i]);
                    assert(t[i] == l[i]);
                } else if i < t.len() + pad {
                    assert(r[i] == ' ');
                } else {
                    assert(r[i] == bc);
                }
            }
        }
    } else {
        lemma_evolves_refl(l);
    }
}

/// The fixed-point loop respects the evolution relation, line by
/// line.
proof fn lemma_correct_iter_line(ls: Seq<Seq<char>>, ms: int, fuel: int, j: int)
    requires
        0 <= j < ls.len(),
        fuel >= 0,
    ensures
        line_evolves(ls[j], correct_iter(ls, ms, fuel).0[j]),
    decreases fuel,
{
    lemma_correct_iter_bounds(ls, ms, fuel);
    if fuel <= 0 {
        lemma_evolves_refl(ls[j]);
    } else {
        match max_col(ls) {
            Option::None => {
                lemma_evolves_refl(ls[j]);
            },
            Option::Some(target) => {
                let bc = border_choice(vbars(ls));
                if count_applied(ls, target, ms) == 0 {
                    lemma_evolves_refl(ls[j]);
                } else {
                    let ls2 = iter_lines(ls, target, bc, ms);
                    assert(ls2[j] == line_step(ls[j], target, bc, ms));
                    lemma_border_choice_is_border(ls);
                    lemma_line_step_evolves(ls[j], target, bc, ms);
                    lemma_correct_iter_line(ls2, ms, fuel - 1, j);
                    lemma_evolves_trans(ls[j], ls2[j], correct_iter(ls2, ms, fuel - 1).0[j]);
                }
            },
        }
    }
}

/// Running the corrector over every block respects the evolution
/// relation, line by line.
proof fn lemma_run_blocks_line(
    ls: Seq<Seq<char>>,
    bs: Seq<(int, int, int)>,
    i: int,
    ms: int,
    fuel: int,
    rg: Option<Seq<(int, int)>>,
    j: int,
)
    requires
        blocks_in_range(bs, ls.len() as int),
        fuel >= 0,
        0 <= j < ls.len(),
    ensures
        line_evolves(ls[j], run_blocks(ls, bs, i, ms, fuel, rg).0[j]),
    decreases bs.len() - i,
{
    lemma_run_blocks_len(ls, bs, i, ms, fuel, rg);
    if i < 0 || i >= bs.len() {
        lemma_evolves_refl(ls[j]);
    } else {
        let b = bs[i];
        if rg matches Option::Some(rs) && !crate::ranges::block_overlaps_s(b.0, b.1, rs) {
            lemma_run_blocks_line(ls, bs, i + 1, ms, fuel, rg, j);
        } else {
            let seg = ls.subrange(b.0, b.1);
            let c = correct_block_s(ls, b.0, b.1, ms, fuel);
            lemma_correct_iter_bounds(seg, ms, fuel);
            assert(c.0.len() == ls.len());
            if b.0 <= j < b.1 {
                assert(c.0[j] == correct_iter(seg, ms, fuel).0[j - b.0]);
                assert(seg[j - b.0] == ls[j]);
                lemma_correct_iter_line(seg, ms, fuel, j - b.0);
            } else {
                if j < b.0 {
                    assert(c.0[j] == ls.subrange(0, b.0)[j]);
                } else {
                    assert(c.0[j] == ls.subrange(b.1, ls.len() as int)[j - b.1]);
                }
                lemma_evolves_refl(ls[j]);
            }
            assert(blocks_in_range(bs, c.0.len() as int));
            lemma_run_blocks_line(c.0, bs, i + 1, ms, fuel, rg, j);
            lemma_evolves_trans(ls[j], c.0[j], run_blocks(c.0, bs, i + 1, ms, fuel, rg).0[j]);
        }
    }
}

/// How any line of the document evolves under the whole pipeline:
/// untouched when the quick scan gates the run, and otherwise
/// related to its tab expansion by the evolution relation.
pub proof fn lemma_process_line(ls: Seq<Seq<char>>, c: Config, j: int)
    requires
        0 <= j < ls.len(),
    ensures
        process_s(ls, c).0.len() == ls.len(),
        ({
            let out = process_s(ls, c).0;
            if !c.all_blocks && !scan_likely(ls) {
                out[j] == ls[j]
            } else {
                line_evolves(expand_tabs_s(ls[j], c.tab_width as int), out[j])
            }
        }),
{
    lemma_line_count(ls, c);
    if !c.all_blocks && !scan_likely(ls) {
    } else {
        let ex = expand_all(ls, c.tab_width as int);
        let bs = blocks_of(ex, c.all_blocks);
        lemma_blocks_bounds(kinds_of(ex), 0, c.all_blocks);
        assert(kinds_of(ex).len() == ex.len());
        assert(ex[j] == expand_tabs_s(ls[j], c.tab_width as int));
        lemma_run_blocks_line(
            ex,
            bs,
            0,
            crate::config::spec_effective_min_score(c),
            c.max_iters as int,
            crate::correct::ranges_of(c),
            j,
        );
    }
}

/// Monotonicity: every output line holds the right-trimmed expansion
/// of its input line as a subsequence, unless the line passed through
/// untouched.
pub proof fn lemma_monotone(ls: Seq<Seq<char>>, c: Config, j: int)
    requires
        0 <= j < ls.len(),
    ensures
        process_s(ls, c).0[j] == ls[j] || is_subseq(
            trim_end_s(expand_tabs_s(ls[j], c.tab_width as int)),
            process_s(ls, c).0[j],
        ),
{
    lemma_process_line(ls, c, j);
}

/// Monotonicity on plain lines: a line without tabs and without
/// trailing whitespace is a subsequence of its output line,
/// character by character.
pub proof fn lemma_monotone_plain(ls: Seq<Seq<char>>, c: Config, j: int)
    requires
        0 <= j < ls.len(),
        forall|i: int| 0 <= i < ls[j].len() ==> ls[j][i] != '\t',
        trim_end_s(ls[j]) == ls[j],
    ensures
        is_subseq(ls[j], process_s(ls, c).0[j]),
{
    lemma_process_line(ls, c, j);
    crate::tabs::lemma_expand_tabs_no_tab(ls[j], c.tab_width as int, 0);
    if process_s(ls, c).0[j] == ls[j] {
        lemma_subseq_refl(ls[j]);
    }
}

/// Prose preservation: a line whose expansion holds no diagram
/// structure is byte-identical in the output, up to the tab
/// expansion itself.
pub proof fn lemma_prose_preserved(ls: Seq<Seq<char>>, c: Config, j: int)
    requires
        0 <= j < ls.len(),
        classify_s(expand_tabs_s(ls[j], c.tab_width as int)) == LineKind::Prose,
    ensures
        process_s(ls, c).0[j] == ls[j] || process_s(ls, c).0[j] == expand_tabs_s(
            ls[j],
            c.tab_width as int,
        ),
{
    lemma_process_line(ls, c, j);
}

/// Width consistency: no output line is visually narrower, after
/// right-trimming, than the expansion of the line it came from.
pub proof fn lemma_width_consistency(ls: Seq<Seq<char>>, c: Config, j: int)
    requires
        0 <= j < ls.len(),
    ensures
        process_s(ls, c).0[j] == ls[j] || line_width(trim_end_s(process_s(ls, c).0[j]))
            >= line_width(trim_end_s(expand_tabs_s(ls[j], c.tab_width as int))),
{
    lemma_process_line(ls, c, j);
}

/// The block's target is an upper bound on every suffix-border
/// column.
proof fn lemma_max_col_is_ub(ls: Seq<Seq<char>>, j: int)
    requires
        0 <= j < ls.len(),
        has_suffix_border(ls[j]),
    ensures
        max_col(ls) is Some,
        suffix_col(ls[j]) <= max_col(ls)->Some_0,
    decreases ls.len(),
{
    if j == ls.len() - 1 {
        assert(ls.last() == ls[j]);
    } else {
        assert(ls.drop_last()[j] == ls[j]);
        lemma_max_col_is_ub(ls.drop_last(), j);
    }
}

/// When an iteration finds a target but generates no candidate at
/// all, the block is aligned: every boxy line carries a suffix
/// border, and every suffix border sits exactly at the target
/// column.
pub proof fn lemma_aligned_quiescent(ls: Seq<Seq<char>>, target: int, ms: int)
    requires
        max_col(ls) == Option::Some(target),
        count_applied(ls, target, ms) == 0,
        count_skipped(ls, target, ms) == 0,
    ensures
        forall|j: int|
            0 <= j < ls.len() && spec_is_boxy(classify_s(#[trigger] ls[j])) ==> has_suffix_border(
                ls[j],
            ) && suffix_col(ls[j]) == target,
{
    lemma_zero_applied(ls, target, '|', ms);
    lemma_zero_skipped(ls, target, ms);
    assert forall|j: int|
        0 <= j < ls.len() && spec_is_boxy(classify_s(#[trigger] ls[j])) implies has_suffix_border(
        ls[j],
    ) && suffix_col(ls[j]) == target by {
        assert(line_applied(ls[j], target, ms) == 0);
        assert(line_skipped(ls[j], target, ms) == 0);
        assert(!line_candidate_pad(ls[j], target) && !line_candidate_add(ls[j]));
        assert(has_suffix_border(ls[j]));
        lemma_max_col_is_ub(ls, j);
    }
}

proof fn lemma_zero_skipped(ls: Seq<Seq<char>>, target: int, ms: int)
    requires
        count_skipped(ls, target, ms) == 0,
    ensures
        forall|j: int| 0 <= j < ls.len() ==> line_skipped(#[trigger] ls[j], target, ms) == 0,
    decreases ls.len(),
{
    if ls.len() > 0 {
        lemma_counts_bounded(ls.drop_last(), target, ms);
        assert(line_skipped(ls.last(), target, ms) >= 0);
        lemma_zero_skipped(ls.drop_last(), target, ms);
        assert forall|j: int|
            0 <= j < ls.len() implies line_skipped(#[trigger] ls[j], target, ms) == 0 by {
            if j < ls.len() - 1 {
                assert(ls[j] == ls.drop_last()[j]);
            } else {
                assert(ls[j] == ls.last());
            }
        }
    }
}

/// A pad revision that is applied moves the line's border exactly to
/// the target column.
pub proof fn lemma_pad_reaches_target(l: Seq<char>, target: int, bc: char, ms: int)
    requires
        line_candidate_pad(l, target),
        line_score(l, target) >= ms,
    ensures
        has_suffix_border(line_step(l, target, bc, ms)),
        suffix_col(line_step(l, target, bc, ms)) == target,
{
    lemma_pad_result(l, target - suffix_col(l));
}

/// A boxy line without a border whose add revision would pass the
/// score filter. Once none is left, no iteration can create a new
/// border.
pub open spec fn no_valid_add(l: Seq<char>, ms: int) -> bool {
    line_candidate_add(l) ==> crate::revise::add_score(classify_s(l) == LineKind::Strong) < ms
}

/// No line of the block has a valid add revision left.
pub open spec fn stable_adds(ls: Seq<Seq<char>>, ms: int) -> bool {
    forall|j: int| 0 <= j < ls.len() ==> no_valid_add(#[trigger] ls[j], ms)
}

/// The full case analysis of one revision step on one line.
proof fn lemma_step_cases(l: Seq<char>, t: int, bc: char, ms: int)
    requires
        crate::chars::spec_is_border_char(bc),
    ensures
        ({
            let r = line_step(l, t, bc, ms);
            &&& (line_candidate_pad(l, t) && line_score(l, t) >= ms ==> has_suffix_border(r)
                && suffix_col(r) == t)
            &&& (has_suffix_border(l) && !(line_candidate_pad(l, t) && line_score(l, t) >= ms)
                ==> r == l)
            &&& (line_candidate_add(l) && line_score(l, t) >= ms ==> has_suffix_border(r)
                && suffix_col(r) >= t)
            &&& (!has_suffix_border(l) && !(line_candidate_add(l) && line_score(l, t) >= ms)
                ==> r == l)
            &&& no_valid_add(r, ms)
        }),
{
    let r = line_step(l, t, bc, ms);
    if line_candidate_pad(l, t) && line_score(l, t) >= ms {
        lemma_pad_result(l, t - suffix_col(l));
    } else if line_candidate_add(l) && line_score(l, t) >= ms {
        lemma_add_result(l, bc, t);
        crate::chars::lemma_line_width_bounds(trim_end_s(l));
    }
}

/// A border at the target's own column bears witness that the target
/// is the maximum.
proof fn lemma_max_col_witness(ls: Seq<Seq<char>>, t: int)
    requires
        max_col(ls) == Option::Some(t),
    ensures
        exists|j: int|
            0 <= j < ls.len() && has_suffix_border(#[trigger] ls[j]) && suffix_col(ls[j]) == t,
    decreases ls.len(),
{
    if ls.len() > 0 {
        let l = ls.last();
        let rest = max_col(ls.drop_last());
        if has_suffix_border(l) && (rest is None || suffix_col(l) == t) && suffix_col(l) == t {
            assert(ls[ls.len() - 1] == l);
        } else {
            lemma_max_col_witness(ls.drop_last(), t);
            let j = choose|j: int|
                0 <= j < ls.drop_last().len() && has_suffix_border(
                    #[trigger] ls.drop_last()[j],
                ) && suffix_col(ls.drop_last()[j]) == t;
            assert(ls[j] == ls.drop_last()[j]);
        }
    }
}

/// Bounded columns with an attained bound pin the maximum down.
proof fn lemma_max_col_from_bounds(ls: Seq<Seq<char>>, t: int)
    requires
        forall|j: int|
            0 <= j < ls.len() && has_suffix_border(#[trigger] ls[j]) ==> suffix_col(ls[j]) <= t,
        exists|j: int|
            0 <= j < ls.len() && has_suffix_border(#[trigger] ls[j]) && suffix_col(ls[j]) == t,
    ensures
        max_col(ls) == Option::Some(t),
    decreases ls.len(),
{
    if ls.len() > 0 {
        let jw = choose|j: int|
            0 <= j < ls.len() && has_suffix_border(#[trigger] ls[j]) && suffix_col(ls[j]) == t;
        assert forall|j: int|
            0 <= j < ls.drop_last().len() && has_suffix_border(
                #[trigger] ls.drop_last()[j],
            ) implies suffix_col(ls.drop_last()[j]) <= t by {
            assert(ls.drop_last()[j] == ls[j]);
        }
        if jw < ls.len() - 1 {
            assert(ls.drop_last()[jw] == ls[jw]);
            lemma_max_col_from_bounds(ls.drop_last(), t);
        } else {
            assert(has_suffix_border(ls.last()) && suffix_col(ls.last()) == t);
            match max_col(ls.drop_last()) {
                Option::None => {},
                Option::Some(m) => {
                    lemma_max_col_witness(ls.drop_last(), m);
                    let jm = choose|j: int|
                        0 <= j < ls.drop_last().len() && has_suffix_border(
                            #[trigger] ls.drop_last()[j],
                        ) && suffix_col(ls.drop_last()[j]) == m;
                    assert(ls.drop_last()[jm] == ls[jm]);
                    assert(m <= t);
                },
            }
        }
    }
}

/// A positive applied count names a line whose revision fired.
proof fn lemma_count_pos_witness(ls: Seq<Seq<char>>, t: int, ms: int)
    requires
        count_applied(ls, t, ms) > 0,
    ensures
        exists|j: int| 0 <= j < ls.len() && line_applied(#[trigger] ls[j], t, ms) == 1,
    decreases ls.len(),
{
    if ls.len() > 0 {
        if line_applied(ls.last(), t, ms) == 1 {
            assert(ls[ls.len() - 1] == ls.last());
        } else {
            lemma_counts_bounded(ls.drop_last(), t, ms);
            lemma_count_pos_witness(ls.drop_last(), t, ms);
            let j = choose|j: int|
                0 <= j < ls.drop_last().len() && line_applied(
                    #[trigger] ls.drop_last()[j],
                    t,
                    ms,
                ) == 1;
            assert(ls[j] == ls.drop_last()[j]);
        }
    }
}

/// A block whose lines all decline their revisions applies nothing.
proof fn lemma_count_applied_zero(ls: Seq<Seq<char>>, t: int, ms: int)
    requires
        forall|j: int| 0 <= j < ls.len() ==> line_applied(#[trigger] ls[j], t, ms) == 0,
    ensures
        count_applied(ls, t, ms) == 0,
    decreases ls.len(),
{
    if ls.len() > 0 {
        assert(forall|j: int|
            0 <= j < ls.len() - 1 ==> #[trigger] ls.drop_last()[j] == ls[j]);
        lemma_count_applied_zero(ls.drop_last(), t, ms);
        assert(line_applied(ls.last(), t, ms) == 0) by {
            assert(ls[ls.len() - 1] == ls.last());
        }
    }
}

/// One iteration after the adds have settled: the target does not
/// move, and the next iteration has nothing left to apply.
proof fn lemma_iteration_settles(ls: Seq<Seq<char>>, t: int, bc: char, ms: int)
    requires
        stable_adds(ls, ms),
        max_col(ls) == Option::Some(t),
        crate::chars::spec_is_border_char(bc),
    ensures
        max_col(iter_lines(ls, t, bc, ms)) == Option::Some(t),
        count_applied(iter_lines(ls, t, bc, ms), t, ms) == 0,
{
    let ls2 = iter_lines(ls, t, bc, ms);
    assert(ls2.len() == ls.len());
    assert forall|j: int|
        0 <= j < ls2.len() && has_suffix_border(#[trigger] ls2[j]) implies suffix_col(ls2[j])
        <= t by {
        assert(ls2[j] == line_step(ls[j], t, bc, ms));
        lemma_step_cases(ls[j], t, bc, ms);
        if has_suffix_border(ls[j]) {
            lemma_max_col_is_ub(ls, j);
        }
    }
    lemma_max_col_witness(ls, t);
    let jw = choose|j: int|
        0 <= j < ls.len() && has_suffix_border(#[trigger] ls[j]) && suffix_col(ls[j]) == t;
    assert(ls2[jw] == line_step(ls[jw], t, bc, ms));
    lemma_step_cases(ls[jw], t, bc, ms);
    assert(ls2[jw] == ls[jw]);
    assert(has_suffix_border(ls2[jw]) && suffix_col(ls2[jw]) == t);
    lemma_max_col_from_bounds(ls2, t);
    assert forall|j: int|
        0 <= j < ls2.len() implies line_applied(#[trigger] ls2[j], t, ms) == 0 by {
        assert(ls2[j] == line_step(ls[j], t, bc, ms));
        lemma_step_cases(ls[j], t, bc, ms);
        if has_suffix_border(ls[j]) {
            lemma_max_col_is_ub(ls, j);
            if line_candidate_pad(ls[j], t) && line_score(ls[j], t) >= ms {
                assert(suffix_col(ls2[j]) == t);
            } else {
                assert(ls2[j] == ls[j]);
            }
        } else {
            assert(no_valid_add(ls[j], ms));
            if line_candidate_add(ls[j]) && line_score(ls[j], t) >= ms {
                assert(false);
            } else {
                assert(ls2[j] == ls[j]);
            }
        }
    }
    lemma_count_applied_zero(ls2, t, ms);
}

/// After any one iteration, no valid add revision is left: applied
/// adds leave a border behind, and skipped adds stay skipped.
proof fn lemma_step_stable_adds(ls: Seq<Seq<char>>, t: int, bc: char, ms: int)
    requires
        crate::chars::spec_is_border_char(bc),
    ensures
        stable_adds(iter_lines(ls, t, bc, ms), ms),
{
    let ls2 = iter_lines(ls, t, bc, ms);
    assert forall|j: int| 0 <= j < ls2.len() implies no_valid_add(#[trigger] ls2[j], ms) by {
        assert(ls2[j] == line_step(ls[j], t, bc, ms));
        lemma_step_cases(ls[j], t, bc, ms);
    }
}

/// A block at rest: no line has a suffix border at all, or no line's
/// candidate revision passes the score filter.
pub open spec fn quiescent(ls: Seq<Seq<char>>, ms: int) -> bool {
    match max_col(ls) {
        Option::None => true,
        Option::Some(t) => count_applied(ls, t, ms) == 0,
    }
}

/// With a budget of at least three, the fixed-point loop always ends
/// at rest.
pub proof fn lemma_correct_iter_quiescent(ls: Seq<Seq<char>>, ms: int, fuel: int)
    requires
        fuel >= 3,
    ensures
        quiescent(correct_iter(ls, ms, fuel).0, ms),
{
    match max_col(ls) {
        Option::None => {},
        Option::Some(t1) => {
            let bc1 = border_choice(vbars(ls));
            if count_applied(ls, t1, ms) == 0 {
            } else {
                lemma_counts_bounded(ls, t1, ms);
                lemma_border_choice_is_border(ls);
                let ls1 = iter_lines(ls, t1, bc1, ms);
                lemma_step_stable_adds(ls, t1, bc1, ms);
                lemma_count_pos_witness(ls, t1, ms);
                let jw = choose|j: int|
                    0 <= j < ls.len() && line_applied(#[trigger] ls[j], t1, ms) == 1;
                lemma_step_cases(ls[jw], t1, bc1, ms);
                assert(ls1[jw] == line_step(ls[jw], t1, bc1, ms));
                assert(has_suffix_border(ls1[jw]));
                lemma_max_col_is_ub(ls1, jw);
                let t2 = max_col(ls1)->Some_0;
                let bc2 = border_choice(vbars(ls1));
                if count_applied(ls1, t2, ms) == 0 {
                    assert(correct_iter(ls1, ms, fuel - 1).0 == ls1);
                    assert(correct_iter(ls, ms, fuel).0 == ls1);
                    assert(quiescent(ls1, ms));
                } else {
                    lemma_border_choice_is_border(ls1);
                    let ls2 = iter_lines(ls1, t2, bc2, ms);
                    lemma_iteration_settles(ls1, t2, bc2, ms);
                    assert(correct_iter(ls2, ms, fuel - 2).0 == ls2);
                    assert(correct_iter(ls1, ms, fuel - 1).0 == ls2);
                    assert(correct_iter(ls, ms, fuel).0 == ls2);
                    assert(quiescent(ls2, ms));
                }
            }
        },
    }
}

/// Convergence within three productive iterations: any budget of at
/// least three yields the very same lines and counts as any larger
/// budget.
pub proof fn lemma_convergence_budget(ls: Seq<Seq<char>>, ms: int, f1: int, f2: int)
    requires
        3 <= f1 <= f2,
    ensures
        correct_iter(ls, ms, f1) == correct_iter(ls, ms, f2),
{
    match max_col(ls) {
        Option::None => {},
        Option::Some(t1) => {
            let bc1 = border_choice(vbars(ls));
            if count_applied(ls, t1, ms) == 0 {
            } else {
                lemma_counts_bounded(ls, t1, ms);
                lemma_border_choice_is_border(ls);
                let ls1 = iter_lines(ls, t1, bc1, ms);
                lemma_step_stable_adds(ls, t1, bc1, ms);
                lemma_count_pos_witness(ls, t1, ms);
                let jw = choose|j: int|
                    0 <= j < ls.len() && line_applied(#[trigger] ls[j], t1, ms) == 1;
                lemma_step_cases(ls[jw], t1, bc1, ms);
                assert(ls1[jw] == line_step(ls[jw], t1, bc1, ms));
                assert(has_suffix_border(ls1[jw]));
                lemma_max_col_is_ub(ls1, jw);
                let t2 = max_col(ls1)->Some_0;
                let bc2 = border_choice(vbars(ls1));
                if count_applied(ls1, t2, ms) == 0 {
                    assert(correct_iter(ls1, ms, f1 - 1) == correct_iter(ls1, ms, f2 - 1));
                } else {
                    lemma_border_choice_is_border(ls1);
                    let ls2 = iter_lines(ls1, t2, bc2, ms);
                    lemma_iteration_settles(ls1, t2, bc2, ms);
                    assert(correct_iter(ls2, ms, f1 - 2) == correct_iter(ls2, ms, f2 - 2));
                    assert(correct_iter(ls1, ms, f1 - 1) == correct_iter(ls1, ms, f2 - 1));
                }
            }
        },
    }
}

/// Convergence under the documented budget: a budget of one more
/// than the block's line count behaves exactly like any larger one.
pub proof fn lemma_convergence(ls: Seq<Seq<char>>, ms: int, f1: int, f2: int)
    requires
        f1 >= ls.len() + 1,
        f1 <= f2,
    ensures
        correct_iter(ls, ms, f1) == correct_iter(ls, ms, f2),
{
    if ls.len() >= 2 {
        lemma_convergence_budget(ls, ms, f1, f2);
    } else if ls.len() == 0 {
        assert(max_col(ls) is None);
    } else {
        match max_col(ls) {
            Option::None => {},
            Option::Some(t) => {
                lemma_max_col_witness(ls, t);
                let jw = choose|j: int|
                    0 <= j < ls.len() && has_suffix_border(#[trigger] ls[j]) && suffix_col(
                        ls[j],
                    ) == t;
                assert(jw == 0);
                assert(line_applied(ls[0], t, ms) == 0);
                assert(count_applied(ls, t, ms) == line_applied(ls[0], t, ms)) by {
                    assert(ls.drop_last().len() == 0);
                    assert(count_applied(ls.drop_last(), t, ms) == 0);
                    assert(ls.last() == ls[0]);
                }
            },
        }
    }
}

/// Idempotence of the block corrector: once a block has been
/// corrected with a budget of at least three, correcting it again
/// changes nothing, under any budget at all.
pub proof fn lemma_block_idempotent(ls: Seq<Seq<char>>, ms: int, f1: int, f2: int)
    requires
        f1 >= 3,
    ensures
        correct_iter(correct_iter(ls, ms, f1).0, ms, f2).0 == correct_iter(ls, ms, f1).0,
{
    lemma_correct_iter_quiescent(ls, ms, f1);
    let r = correct_iter(ls, ms, f1).0;
    if f2 <= 0 {
    } else {
        match max_col(r) {
            Option::None => {},
            Option::Some(t) => {
                assert(count_applied(r, t, ms) == 0);
            },
        }
    }
}

/// Alignment: once the corrector is done with a block (any budget of
/// at least three), every boxy line either carries its suffix border
/// exactly at the block's target column, or is a line whose only
/// candidate revision scored below the configured minimum.
pub proof fn lemma_block_alignment(ls: Seq<Seq<char>>, ms: int, fuel: int, j: int)
    requires
        fuel >= 3,
        0 <= j < ls.len(),
        spec_is_boxy(classify_s(correct_iter(ls, ms, fuel).0[j])),
        max_col(correct_iter(ls, ms, fuel).0) matches Option::Some(t),
    ensures
        ({
            let r = correct_iter(ls, ms, fuel).0;
            let t = max_col(r)->Some_0;
            (has_suffix_border(r[j]) && suffix_col(r[j]) == t) || line_score(r[j], t) < ms
        }),
{
    lemma_correct_iter_quiescent(ls, ms, fuel);
    lemma_correct_iter_bounds(ls, ms, fuel);
    let r = correct_iter(ls, ms, fuel).0;
    let t = max_col(r)->Some_0;
    lemma_zero_applied(r, t, '|', ms);
    assert(line_applied(r[j], t, ms) == 0);
    if has_suffix_border(r[j]) {
        lemma_max_col_is_ub(r, j);
        if suffix_col(r[j]) < t {
            assert(line_candidate_pad(r[j], t));
            assert(line_score(r[j], t) < ms);
        }
    } else {
        assert(line_candidate_add(r[j]));
        assert(line_score(r[j], t) < ms);
    }
}

/// The corrector run over every block is budget-independent once
/// each block has at least three iterations to spend.
proof fn lemma_run_blocks_budget(
    ls: Seq<Seq<char>>,
    bs: Seq<(int, int, int)>,
    i: int,
    ms: int,
    f1: int,
    f2: int,
    rg: Option<Seq<(int, int)>>,
)
    requires
        blocks_in_range(bs, ls.len() as int),
        3 <= f1 <= f2,
    ensures
        run_blocks(ls, bs, i, ms, f1, rg) == run_blocks(ls, bs, i, ms, f2, rg),
    decreases bs.len() - i,
{
    if 0 <= i < bs.len() {
        let b = bs[i];
        if rg matches Option::Some(rs) && !crate::ranges::block_overlaps_s(b.0, b.1, rs) {
            lemma_run_blocks_budget(ls, bs, i + 1, ms, f1, f2, rg);
        } else {
            lemma_convergence_budget(ls.subrange(b.0, b.1), ms, f1, f2);
            let c = correct_block_s(ls, b.0, b.1, ms, f1);
            assert(c == correct_block_s(ls, b.0, b.1, ms, f2));
            lemma_correct_iter_bounds(ls.subrange(b.0, b.1), ms, f1);
            assert(c.0.len() == ls.len());
            lemma_run_blocks_budget(c.0, bs, i + 1, ms, f1, f2, rg);
        }
    }
}

/// The configuration with another iteration budget and everything
/// else unchanged.
pub open spec fn with_budget(c: Config, m: usize) -> Config {
    Config {
        max_iters: m,
        min_score: c.min_score,
        preset: c.preset,
        tab_width: c.tab_width,
        all_blocks: c.all_blocks,
        lines: c.lines,
    }
}

/// Convergence of the whole pipeline: with a budget of at least
/// three iterations per block, raising the budget further changes
/// nothing - neither the lines nor any count.
pub proof fn lemma_process_budget(ls: Seq<Seq<char>>, c: Config, m2: usize)
    requires
        3 <= c.max_iters <= m2,
    ensures
        process_s(ls, with_budget(c, m2)) == process_s(ls, c),
{
    let c2 = with_budget(c, m2);
    assert(crate::config::spec_effective_min_score(c2) == crate::config::spec_effective_min_score(
        c,
    ));
    assert(crate::correct::ranges_of(c2) == crate::correct::ranges_of(c));
    if !c.all_blocks && !scan_likely(ls) {
    } else {
        let ex = expand_all(ls, c.tab_width as int);
        let bs = blocks_of(ex, c.all_blocks);
        lemma_blocks_bounds(kinds_of(ex), 0, c.all_blocks);
        assert(kinds_of(ex).len() == ex.len());
        lemma_run_blocks_budget(
            ex,
            bs,
            0,
            crate::config::spec_effective_min_score(c),
            c.max_iters as int,
            m2 as int,
            crate::correct::ranges_of(c),
        );
    }
}

/// Two classifications agree on everything block detection reads:
/// blankness and boxiness.
pub open spec fn same_class(a: LineKind, b: LineKind) -> bool {
    &&& (a == LineKind::Blank <==> b == LineKind::Blank)
    &&& (spec_is_boxy(a) <==> spec_is_boxy(b))
}

/// Pointwise class agreement of two classifications.
pub open spec fn classes_match(k1: Seq<LineKind>, k2: Seq<LineKind>) -> bool {
    k1.len() == k2.len() && forall|j: int|
        0 <= j < k1.len() ==> #[trigger] same_class(k1[j], k2[j])
}

proof fn lemma_lookahead_classes(k1: Seq<LineKind>, k2: Seq<LineKind>, i: int)
    requires
        classes_match(k1, k2),
        0 <= i,
    ensures
        crate::blocks::lookahead_boxy(k1, i) == crate::blocks::lookahead_boxy(k2, i),
{
    assert(k1.len() == k2.len());
    if crate::blocks::lookahead_boxy(k1, i) {
        let j = choose|j: int| i <= j < k1.len() && j < i + 3 && spec_is_boxy(#[trigger] k1[j]);
        assert(same_class(k1[j], k2[j]));
        assert(spec_is_boxy(k2[j]));
    }
    if crate::blocks::lookahead_boxy(k2, i) {
        let j = choose|j: int| i <= j < k2.len() && j < i + 3 && spec_is_boxy(#[trigger] k2[j]);
        assert(same_class(k1[j], k2[j]));
        assert(spec_is_boxy(k1[j]));
    }
}

/// Block growth stops at the same line under class-equal
/// classifications: only blankness, boxiness and the lookahead steer
/// it.
proof fn lemma_grow_stop_classes(
    k1: Seq<LineKind>,
    k2: Seq<LineKind>,
    end: int,
    s1: int,
    w1: int,
    s2: int,
    w2: int,
    g: int,
)
    requires
        classes_match(k1, k2),
    ensures
        crate::blocks::grow(k1, end, s1, w1, g).0 == crate::blocks::grow(k2, end, s2, w2, g).0,
    decreases k1.len() - end,
{
    assert(k1.len() == k2.len());
    if 0 <= end < k1.len() {
        assert(same_class(k1[end], k2[end]));
        lemma_lookahead_classes(k1, k2, end);
        if spec_is_boxy(k1[end]) {
            lemma_grow_stop_classes(
                k1,
                k2,
                end + 1,
                if k1[end] == LineKind::Strong {
                    s1 + 1
                } else {
                    s1
                },
                if k1[end] == LineKind::Weak {
                    w1 + 1
                } else {
                    w1
                },
                if k2[end] == LineKind::Strong {
                    s2 + 1
                } else {
                    s2
                },
                if k2[end] == LineKind::Weak {
                    w2 + 1
                } else {
                    w2
                },
                0,
            );
        } else if k1[end] == LineKind::Blank {
            if !(g + 1 > 1) {
                lemma_grow_stop_classes(k1, k2, end + 1, s1, w1, s2, w2, g + 1);
            }
        } else {
            if crate::blocks::lookahead_boxy(k1, end) && g == 0 {
                lemma_grow_stop_classes(k1, k2, end + 1, s1, w1, s2, w2, g);
            }
        }
    }
}

proof fn lemma_trim_classes(k1: Seq<LineKind>, k2: Seq<LineKind>, st: int, end: int)
    requires
        classes_match(k1, k2),
        0 <= st,
    ensures
        crate::blocks::trim_blanks(k1, st, end) == crate::blocks::trim_blanks(k2, st, end),
    decreases end - st,
{
    assert(k1.len() == k2.len());
    if st < end <= k1.len() {
        assert(same_class(k1[end - 1], k2[end - 1]));
        if k1[end - 1] == LineKind::Blank {
            lemma_trim_classes(k1, k2, st, end - 1);
        }
    }
}

/// The boundary view of a block list: its ranges without the
/// confidence.
pub open spec fn boundary_views(bs: Seq<(int, int, int)>) -> Seq<(int, int)> {
    bs.map_values(|b: (int, int, int)| (b.0, b.1))
}

/// When every block is taken, class-equal classifications yield the
/// very same block boundaries.
proof fn lemma_blocks_boundaries_classes(k1: Seq<LineKind>, k2: Seq<LineKind>, i: int)
    requires
        classes_match(k1, k2),
    ensures
        boundary_views(crate::blocks::blocks_from(k1, i, true)) == boundary_views(
            crate::blocks::blocks_from(k2, i, true),
        ),
    decreases k1.len() - i,
{
    if 0 <= i < k1.len() {
        assert(same_class(k1[i], k2[i]));
        if !spec_is_boxy(k1[i]) {
            lemma_blocks_boundaries_classes(k1, k2, i + 1);
        } else {
            let s1: int = if k1[i] == LineKind::Strong {
                1
            } else {
                0
            };
            let w1: int = if k1[i] == LineKind::Weak {
                1
            } else {
                0
            };
            let s2: int = if k2[i] == LineKind::Strong {
                1
            } else {
                0
            };
            let w2: int = if k2[i] == LineKind::Weak {
                1
            } else {
                0
            };
            lemma_grow_stop_classes(k1, k2, i + 1, s1, w1, s2, w2, 0);
            let g1 = crate::blocks::grow(k1, i + 1, s1, w1, 0);
            let g2 = crate::blocks::grow(k2, i + 1, s2, w2, 0);
            assert(g1.0 == g2.0);
            lemma_trim_classes(k1, k2, i as int, g1.0);
            let e = crate::blocks::trim_blanks(k1, i as int, g1.0);
            let e2 = if e < i + 1 {
                i + 1
            } else if e > k1.len() {
                k1.len() as int
            } else {
                e
            };
            lemma_blocks_boundaries_classes(k1, k2, e2);
            let b1 = crate::blocks::blocks_from(k1, i, true);
            let b2 = crate::blocks::blocks_from(k2, i, true);
            let r1 = crate::blocks::blocks_from(k1, e2, true);
            let r2 = crate::blocks::blocks_from(k2, e2, true);
            let c1 = crate::blocks::confidence_pm(g1.1, g1.2, i, e2);
            let c2 = crate::blocks::confidence_pm(g2.1, g2.2, i, e2);
            assert(b1 == seq![(i, e2, c1)] + r1);
            assert(b2 == seq![(i, e2, c2)] + r2);
            assert(b1.len() == b2.len()) by {
                assert(boundary_views(r1).len() == r1.len());
                assert(boundary_views(r2).len() == r2.len());
            }
            assert forall|m: int|
                0 <= m < boundary_views(b1).len() implies #[trigger] boundary_views(b1)[m]
                == boundary_views(b2)[m] by {
                if m == 0 {
                    assert(b1[0] == (i, e2, c1));
                    assert(b2[0] == (i, e2, c2));
                } else {
                    assert(b1[m] == r1[m - 1]);
                    assert(b2[m] == r2[m - 1]);
                    assert(boundary_views(r1)[m - 1] == boundary_views(r2)[m - 1]);
                }
            }
            assert(boundary_views(b1) =~= boundary_views(b2));
        }
    }
}

/// Block boundaries never move: the blocks that detection would find
/// in the corrected document sit on exactly the same line ranges as
/// the blocks of the expanded input. A gated run returns its input
/// unchanged instead.
pub proof fn lemma_boundaries_never_move(ls: Seq<Seq<char>>, c: Config)
    ensures
        ({
            let out = process_s(ls, c).0;
            let ex = expand_all(ls, c.tab_width as int);
            if !c.all_blocks && !scan_likely(ls) {
                out == ls
            } else {
                boundary_views(blocks_of(out, true)) == boundary_views(blocks_of(ex, true))
            }
        }),
{
    if !c.all_blocks && !scan_likely(ls) {
    } else {
        let out = process_s(ls, c).0;
        let ex = expand_all(ls, c.tab_width as int);
        lemma_line_count(ls, c);
        assert forall|j: int|
            0 <= j < ex.len() implies same_class(
            #[trigger] kinds_of(out)[j],
            kinds_of(ex)[j],
        ) by {
            lemma_process_line(ls, c, j);
            assert(kinds_of(out)[j] == classify_s(out[j]));
            assert(kinds_of(ex)[j] == classify_s(ex[j]));
            assert(line_evolves(ex[j], out[j]));
        }
        assert(classes_match(kinds_of(out), kinds_of(ex)));
        lemma_blocks_boundaries_classes(kinds_of(out), kinds_of(ex), 0);
    }
}

/// Ordered blocks are pairwise ordered.
proof fn lemma_blocks_pairs(bs: Seq<(int, int, int)>, a: int, b: int)
    requires
        forall|k: int| 0 <= k < bs.len() - 1 ==> (#[trigger] bs[k]).1 <= bs[k + 1].0,
        forall|k: int|
            0 <= k < bs.len() ==> 0 <= (#[trigger] bs[k]).0 && bs[k].0 < bs[k].1,
        0 <= a < b < bs.len(),
    ensures
        bs[a].1 <= bs[b].0,
    decreases b - a,
{
    if a + 1 < b {
        lemma_blocks_pairs(bs, a + 1, b);
    }
}

/// Whether the line-range filter lets a block through.
pub open spec fn admitted(b: (int, int, int), rg: Option<Seq<(int, int)>>) -> bool {
    !(rg matches Option::Some(rs) && !crate::ranges::block_overlaps_s(b.0, b.1, rs))
}

/// A line inside none of the remaining blocks is never touched.
proof fn lemma_run_blocks_frame(
    ls: Seq<Seq<char>>,
    bs: Seq<(int, int, int)>,
    i: int,
    ms: int,
    fuel: int,
    rg: Option<Seq<(int, int)>>,
    j: int,
)
    requires
        blocks_in_range(bs, ls.len() as int),
        fuel >= 0,
        0 <= j < ls.len(),
        forall|k: int| i <= k < bs.len() ==> !((#[trigger] bs[k]).0 <= j < bs[k].1),
    ensures
        run_blocks(ls, bs, i, ms, fuel, rg).0[j] == ls[j],
    decreases bs.len() - i,
{
    if 0 <= i < bs.len() {
        let b = bs[i];
        if !admitted(b, rg) {
            lemma_run_blocks_frame(ls, bs, i + 1, ms, fuel, rg, j);
        } else {
            let c = correct_block_s(ls, b.0, b.1, ms, fuel);
            lemma_correct_iter_bounds(ls.subrange(b.0, b.1), ms, fuel);
            assert(c.0.len() == ls.len());
            assert(c.0[j] == ls[j]) by {
                if j < b.0 {
                    assert(c.0[j] == ls.subrange(0, b.0)[j]);
                } else {
                    assert(c.0[j] == ls.subrange(b.1, ls.len() as int)[j - b.1]);
                }
            }
            lemma_run_blocks_frame(c.0, bs, i + 1, ms, fuel, rg, j);
        }
    }
}

/// What the run leaves in an admitted block's range: exactly the
/// fixed-point correction of the lines that stood there.
#[verifier::rlimit(100)]
proof fn lemma_run_blocks_block_result(
    ls: Seq<Seq<char>>,
    bs: Seq<(int, int, int)>,
    i: int,
    ms: int,
    fuel: int,
    rg: Option<Seq<(int, int)>>,
    k: int,
)
    requires
        blocks_in_range(bs, ls.len() as int),
        forall|m: int| 0 <= m < bs.len() - 1 ==> (#[trigger] bs[m]).1 <= bs[m + 1].0,
        fuel >= 0,
        0 <= i <= k < bs.len(),
        admitted(bs[k], rg),
    ensures
        run_blocks(ls, bs, i, ms, fuel, rg).0.subrange(bs[k].0, bs[k].1) == correct_iter(
            ls.subrange(bs[k].0, bs[k].1),
            ms,
            fuel,
        ).0,
    decreases bs.len() - i,
{
    let b = bs[i];
    let r = run_blocks(ls, bs, i, ms, fuel, rg).0;
    if !admitted(b, rg) {
        assert(k > i);
        lemma_run_blocks_block_result(ls, bs, i + 1, ms, fuel, rg, k);
    } else {
        let c = correct_block_s(ls, b.0, b.1, ms, fuel);
        lemma_correct_iter_bounds(ls.subrange(b.0, b.1), ms, fuel);
        assert(c.0.len() == ls.len());
        if k == i {
            let seg = correct_iter(ls.subrange(b.0, b.1), ms, fuel).0;
            assert(c.0.subrange(b.0, b.1) =~= seg) by {
                assert forall|j: int| 0 <= j < seg.len() implies c.0.subrange(b.0, b.1)[j]
                    == seg[j] by {
                    assert(c.0[b.0 + j] == seg[j]);
                }
            }
            assert forall|j: int| b.0 <= j < b.1 implies #[trigger] r[j] == c.0[j] by {
                assert forall|m: int|
                    i + 1 <= m < bs.len() implies !((#[trigger] bs[m]).0 <= j < bs[m].1) by {
                    if i + 1 <= m < bs.len() {
                        if m == i + 1 {
                        } else {
                            lemma_blocks_pairs(bs, i + 1, m);
                        }
                        assert(bs[m].0 >= bs[i + 1].0);
                        assert(bs[i + 1].0 >= b.1);
                    }
                }
                lemma_run_blocks_frame(c.0, bs, i + 1, ms, fuel, rg, j);
            }
            lemma_run_blocks_len(c.0, bs, i + 1, ms, fuel, rg);
            assert(r.len() == ls.len());
            assert(r.subrange(b.0, b.1) =~= correct_iter(ls.subrange(b.0, b.1), ms, fuel).0);
        } else {
            lemma_run_blocks_block_result(c.0, bs, i + 1, ms, fuel, rg, k);
            assert(c.0.subrange(bs[k].0, bs[k].1) =~= ls.subrange(bs[k].0, bs[k].1)) by {
                lemma_blocks_pairs(bs, i, k);
                assert forall|j: int|
                    0 <= j < bs[k].1 - bs[k].0 implies c.0.subrange(bs[k].0, bs[k].1)[j]
                    == ls.subrange(bs[k].0, bs[k].1)[j] by {
                    let p = bs[k].0 + j;
                    assert(c.0[p] == ls.subrange(b.1, ls.len() as int)[p - b.1]);
                }
            }
        }
    }
}

/// A quiescent block is a fixed point of the corrector.
proof fn lemma_quiescent_identity(ls: Seq<Seq<char>>, ms: int, fuel: int)
    requires
        quiescent(ls, ms),
    ensures
        correct_iter(ls, ms, fuel).0 == ls,
{
    if fuel > 0 {
        match max_col(ls) {
            Option::None => {},
            Option::Some(t) => {
                assert(count_applied(ls, t, ms) == 0);
            },
        }
    }
}

/// Running the corrector over blocks that are all at rest changes
/// nothing.
proof fn lemma_run_blocks_identity(
    ls: Seq<Seq<char>>,
    bs: Seq<(int, int, int)>,
    i: int,
    ms: int,
    fuel: int,
    rg: Option<Seq<(int, int)>>,
)
    requires
        blocks_in_range(bs, ls.len() as int),
        fuel >= 0,
        forall|k: int|
            i <= k < bs.len() && admitted(#[trigger] bs[k], rg) ==> quiescent(
                ls.subrange(bs[k].0, bs[k].1),
                ms,
            ),
    ensures
        run_blocks(ls, bs, i, ms, fuel, rg).0 == ls,
    decreases bs.len() - i,
{
    if 0 <= i < bs.len() {
        let b = bs[i];
        if !admitted(b, rg) {
            lemma_run_blocks_identity(ls, bs, i + 1, ms, fuel, rg);
        } else {
            lemma_quiescent_identity(ls.subrange(b.0, b.1), ms, fuel);
            let c = correct_block_s(ls, b.0, b.1, ms, fuel);
            assert(c.0 =~= ls);
            lemma_run_blocks_identity(ls, bs, i + 1, ms, fuel, rg);
        }
    }
}

/// After a processed run, every block that detection would find in
/// the output and that the line filter admits is at rest: no
/// candidate revision in it passes the score filter. The run must
/// have had at least three iterations of budget per block.
pub proof fn lemma_output_blocks_at_rest(ls: Seq<Seq<char>>, c: Config)
    requires
        c.max_iters >= 3,
        1 <= c.tab_width <= 16,
        c.all_blocks || scan_likely(ls),
    ensures
        ({
            let out = process_s(ls, c).0;
            let bs2 = blocks_of(out, c.all_blocks);
            forall|k: int|
                0 <= k < bs2.len() && admitted(#[trigger] bs2[k], rg_of(c)) ==> quiescent(
                    out.subrange(bs2[k].0, bs2[k].1),
                    crate::config::spec_effective_min_score(c),
                )
        }),
{
    let out = process_s(ls, c).0;
    let tw = c.tab_width as int;
    let ms = crate::config::spec_effective_min_score(c);
    let fuel = c.max_iters as int;
    let rg = rg_of(c);
    let ex = expand_all(ls, tw);
    let bs1 = blocks_of(ex, c.all_blocks);
    lemma_blocks_bounds(kinds_of(ex), 0, c.all_blocks);
    assert(kinds_of(ex).len() == ex.len());
    lemma_line_count(ls, c);
    assert(out == run_blocks(ex, bs1, 0, ms, fuel, rg).0);
    assert(classes_match(kinds_of(out), kinds_of(ex))) by {
        assert forall|j: int|
            0 <= j < ex.len() implies #[trigger] same_class(
            kinds_of(out)[j],
            kinds_of(ex)[j],
        ) by {
            lemma_process_line(ls, c, j);
            assert(kinds_of(out)[j] == classify_s(out[j]));
            assert(kinds_of(ex)[j] == classify_s(ex[j]));
            assert(line_evolves(ex[j], out[j]));
        }
    }
    let bs2 = blocks_of(out, c.all_blocks);
    lemma_blocks_bounds(kinds_of(out), 0, c.all_blocks);
    assert(kinds_of(out).len() == out.len());
    // every admitted block of the first run ends at rest
    assert forall|k: int|
        0 <= k < bs1.len() && admitted(#[trigger] bs1[k], rg) implies quiescent(
        out.subrange(bs1[k].0, bs1[k].1),
        ms,
    ) by {
        lemma_run_blocks_block_result(ex, bs1, 0, ms, fuel, rg, k);
        lemma_correct_iter_quiescent(ex.subrange(bs1[k].0, bs1[k].1), ms, fuel);
    }
    if c.all_blocks {
        // with every block taken, the output's blocks sit on the very
        // same ranges
        lemma_blocks_boundaries_classes(kinds_of(out), kinds_of(ex), 0);
        assert(boundary_views(bs2) == boundary_views(bs1));
        assert(bs2.len() == bs1.len()) by {
            assert(boundary_views(bs2).len() == bs2.len());
            assert(boundary_views(bs1).len() == bs1.len());
        }
        assert forall|k: int|
            0 <= k < bs2.len() && admitted(#[trigger] bs2[k], rg) implies quiescent(
            out.subrange(bs2[k].0, bs2[k].1),
            ms,
        ) by {
            assert(boundary_views(bs2)[k] == boundary_views(bs1)[k]);
            assert(bs2[k].0 == bs1[k].0 && bs2[k].1 == bs1[k].1);
            assert(admitted(bs1[k], rg));
        }
    } else {
        // otherwise walk the two detections in step
        assert forall|j: int|
            #![trigger out[j]]
            0 <= j < out.len() && (forall|k: int|
                0 <= k < bs1.len() ==> !((#[trigger] bs1[k]).0 <= j < bs1[k].1)) implies out[j]
            == ex[j] by {
            lemma_run_blocks_frame(ex, bs1, 0, ms, fuel, rg, j);
        }
        assert(crate::blocks::blocks_from(kinds_of(ex), 0, false) =~= bs1.subrange(
            0,
            bs1.len() as int,
        ));
        assert(crate::blocks::blocks_from(kinds_of(out), 0, false) =~= bs2.subrange(
            0,
            bs2.len() as int,
        ));
        lemma_second_pass_rest(ex, out, ms, rg, 0, 0, 0);
    }
}

/// The optional line filter of a configuration, by its short name.
pub open spec fn rg_of(c: Config) -> Option<Seq<(int, int)>> {
    crate::correct::ranges_of(c)
}

/// Alignment of the whole pipeline: in every admitted block of the
/// output, each boxy line either carries its border exactly at the
/// block's target column, or is one whose only candidate revision
/// scored below the configured minimum.
pub proof fn lemma_document_alignment(ls: Seq<Seq<char>>, c: Config, k: int, j: int)
    requires
        c.max_iters >= 3,
        1 <= c.tab_width <= 16,
        c.all_blocks || scan_likely(ls),
        0 <= k < blocks_of(process_s(ls, c).0, c.all_blocks).len(),
        admitted(blocks_of(process_s(ls, c).0, c.all_blocks)[k], rg_of(c)),
        ({
            let b = blocks_of(process_s(ls, c).0, c.all_blocks)[k];
            b.0 <= j < b.1
        }),
    ensures
        ({
            let out = process_s(ls, c).0;
            let b = blocks_of(out, c.all_blocks)[k];
            let seg = out.subrange(b.0, b.1);
            let ms = crate::config::spec_effective_min_score(c);
            spec_is_boxy(classify_s(out[j])) ==> match max_col(seg) {
                Option::None => !has_suffix_border(out[j]),
                Option::Some(t) => (has_suffix_border(out[j]) && suffix_col(out[j]) == t)
                    || line_score(out[j], t) < ms,
            }
        }),
{
    let out = process_s(ls, c).0;
    let b = blocks_of(out, c.all_blocks)[k];
    let seg = out.subrange(b.0, b.1);
    let ms = crate::config::spec_effective_min_score(c);
    lemma_output_blocks_at_rest(ls, c);
    assert(quiescent(seg, ms));
    lemma_blocks_bounds(kinds_of(out), 0, c.all_blocks);
    lemma_line_count(ls, c);
    assert(kinds_of(out).len() == out.len());
    assert(seg[j - b.0] == out[j]);
    if spec_is_boxy(classify_s(out[j])) {
        match max_col(seg) {
            Option::None => {
                if has_suffix_border(out[j]) {
                    lemma_max_col_is_ub(seg, j - b.0);
                }
            },
            Option::Some(t) => {
                lemma_zero_applied(seg, t, '|', ms);
                assert(line_applied(seg[j - b.0], t, ms) == 0);
                if has_suffix_border(out[j]) {
                    lemma_max_col_is_ub(seg, j - b.0);
                    if suffix_col(out[j]) < t {
                        assert(line_candidate_pad(out[j], t));
                    }
                } else {
                    assert(line_candidate_add(out[j]));
                }
            },
        }
    }
}

/// Idempotence of the whole pipeline: with at least three
/// iterations of budget, a second run over the output returns it
/// untouched. A gated run returns its input and gates again; a
/// processed run leaves every admitted block at its fixed point, and
/// the stretches it rejected keep the very confidence that excluded
/// them.
pub proof fn lemma_idempotent(ls: Seq<Seq<char>>, c: Config)
    requires
        c.max_iters >= 3,
        1 <= c.tab_width <= 16,
    ensures
        process_s(process_s(ls, c).0, c).0 == process_s(ls, c).0,
{
    let out = process_s(ls, c).0;
    if !c.all_blocks && !scan_likely(ls) {
        assert(out == ls);
    } else {
        let tw = c.tab_width as int;
        let ms = crate::config::spec_effective_min_score(c);
        let fuel = c.max_iters as int;
        let rg = rg_of(c);
        let ex = expand_all(ls, tw);
        lemma_line_count(ls, c);
        // the output is tab-free, line by line, so its expansion is itself
        let ex2 = expand_all(out, tw);
        assert(ex2 =~= out) by {
            assert forall|j: int| 0 <= j < out.len() implies #[trigger] ex2[j] == out[j] by {
                lemma_process_line(ls, c, j);
                assert(line_evolves(ex[j], out[j]));
                crate::tabs::lemma_expand_tabs_tab_free(ls[j], tw, 0);
                assert(tab_free(ex[j]));
                assert(tab_free(out[j]));
                crate::tabs::lemma_expand_tabs_no_tab(out[j], tw, 0);
                assert(ex2[j] == expand_tabs_s(out[j], tw));
            }
        }
        let bs2 = blocks_of(out, c.all_blocks);
        lemma_blocks_bounds(kinds_of(out), 0, c.all_blocks);
        assert(kinds_of(out).len() == out.len());
        lemma_output_blocks_at_rest(ls, c);
        lemma_run_blocks_identity(out, bs2, 0, ms, fuel, rg);
        assert(process_s(out, c).0 == run_blocks(
            ex2,
            blocks_of(ex2, c.all_blocks),
            0,
            ms,
            fuel,
            rg,
        ).0);
        assert(blocks_of(ex2, c.all_blocks) == bs2);
        assert(run_blocks(out, bs2, 0, ms, fuel, rg).0 == out);
    }
}

/// Every detected block begins on a boxy line.
proof fn lemma_blocks_start_boxy(ks: Seq<LineKind>, i: int, all: bool)
    requires
        0 <= i,
    ensures
        forall|k: int|
            0 <= k < crate::blocks::blocks_from(ks, i, all).len() ==> spec_is_boxy(
                ks[(#[trigger] crate::blocks::blocks_from(ks, i, all)[k]).0],
            ),
    decreases ks.len() - i,
{
    let bs = crate::blocks::blocks_from(ks, i, all);
    if i >= ks.len() {
    } else if !spec_is_boxy(ks[i]) {
        lemma_blocks_start_boxy(ks, i + 1, all);
        assert(bs == crate::blocks::blocks_from(ks, i + 1, all));
    } else {
        let s0: int = if ks[i] == LineKind::Strong {
            1
        } else {
            0
        };
        let w0: int = if ks[i] == LineKind::Weak {
            1
        } else {
            0
        };
        let g = crate::blocks::grow(ks, i + 1, s0, w0, 0);
        let e = crate::blocks::trim_blanks(ks, i, g.0);
        let e2 = if e < i + 1 {
            i + 1
        } else if e > ks.len() {
            ks.len() as int
        } else {
            e
        };
        lemma_blocks_start_boxy(ks, e2, all);
        let rest = crate::blocks::blocks_from(ks, e2, all);
        let conf = crate::blocks::confidence_pm(g.1, g.2, i, e2);
        if all || conf >= 300 {
            assert forall|k: int|
                0 <= k < bs.len() implies spec_is_boxy(ks[(#[trigger] bs[k]).0]) by {
                if k == 0 {
                    assert(bs[0] == (i, e2, conf));
                } else {
                    assert(bs[k] == rest[k - 1]);
                }
            }
        } else {
            assert(bs == rest);
        }
    }
}

/// The lines dropped by the trailing-blank trim are blank.
proof fn lemma_trim_blanks_shape(ks: Seq<LineKind>, st: int, end: int)
    requires
        0 <= st,
        end <= ks.len(),
    ensures
        forall|j: int|
            crate::blocks::trim_blanks(ks, st, end) <= j < end ==> #[trigger] ks[j]
                == LineKind::Blank,
    decreases end - st,
{
    if st < end <= ks.len() && ks[end - 1] == LineKind::Blank {
        lemma_trim_blanks_shape(ks, st, end - 1);
    }
}

/// Block growth agrees completely - stops and counts - when the two
/// classifications agree in class everywhere and in kind on the grown
/// window itself.
proof fn lemma_grow_window(
    k1: Seq<LineKind>,
    k2: Seq<LineKind>,
    end: int,
    sc: int,
    wc: int,
    g: int,
)
    requires
        classes_match(k1, k2),
        0 <= end,
        forall|j: int|
            end <= j < crate::blocks::grow(k1, end, sc, wc, g).0 ==> #[trigger] k1[j] == k2[j],
    ensures
        crate::blocks::grow(k1, end, sc, wc, g) == crate::blocks::grow(k2, end, sc, wc, g),
    decreases k1.len() - end,
{
    assert(k1.len() == k2.len());
    lemma_grow_stop_classes(k1, k2, end, sc, wc, sc, wc, g);
    if 0 <= end < k1.len() {
        let stop = crate::blocks::grow(k1, end, sc, wc, g).0;
        lemma_lookahead_classes(k1, k2, end);
        assert(same_class(k1[end], k2[end]));
        if spec_is_boxy(k1[end]) {
            if k1[end] == LineKind::Strong {
                lemma_grow_at_least(k1, end + 1, sc + 1, wc, 0);
                assert(end < stop);
                assert(k1[end] == k2[end]);
                lemma_grow_window(k1, k2, end + 1, sc + 1, wc, 0);
            } else {
                lemma_grow_at_least(k1, end + 1, sc, wc + 1, 0);
                assert(end < stop);
                assert(k1[end] == k2[end]);
                lemma_grow_window(k1, k2, end + 1, sc, wc + 1, 0);
            }
        } else if k1[end] == LineKind::Blank {
            assert(k2[end] == LineKind::Blank);
            if !(g + 1 > 1) {
                lemma_grow_at_least(k1, end + 1, sc, wc, g + 1);
                lemma_grow_window(k1, k2, end + 1, sc, wc, g + 1);
            }
        } else {
            assert(k2[end] != LineKind::Blank && !spec_is_boxy(k2[end]));
            if crate::blocks::lookahead_boxy(k1, end) && g == 0 {
                lemma_grow_at_least(k1, end + 1, sc, wc, g);
                lemma_grow_window(k1, k2, end + 1, sc, wc, g);
            }
        }
    }
}

/// Growth never stops before the line it starts from.
proof fn lemma_grow_at_least(ks: Seq<LineKind>, end: int, sc: int, wc: int, g: int)
    ensures
        crate::blocks::grow(ks, end, sc, wc, g).0 >= end,
    decreases ks.len() - end,
{
    if 0 <= end < ks.len() {
        if ks[end] == LineKind::Strong || ks[end] == LineKind::Weak {
            lemma_grow_at_least(ks, end + 1, if ks[end] == LineKind::Strong {
                sc + 1
            } else {
                sc
            }, if ks[end] == LineKind::Weak {
                wc + 1
            } else {
                wc
            }, 0);
        } else if ks[end] == LineKind::Blank {
            if !(g + 1 > 1) {
                lemma_grow_at_least(ks, end + 1, sc, wc, g + 1);
            }
        } else {
            if crate::blocks::lookahead_boxy(ks, end) && g == 0 {
                lemma_grow_at_least(ks, end + 1, sc, wc, g);
            }
        }
    }
}

/// Growth never runs past the document.
proof fn lemma_grow_at_most(ks: Seq<LineKind>, end: int, sc: int, wc: int, g: int)
    requires
        end <= ks.len(),
    ensures
        crate::blocks::grow(ks, end, sc, wc, g).0 <= ks.len(),
    decreases ks.len() - end,
{
    if 0 <= end < ks.len() {
        if ks[end] == LineKind::Strong || ks[end] == LineKind::Weak {
            lemma_grow_at_most(ks, end + 1, if ks[end] == LineKind::Strong {
                sc + 1
            } else {
                sc
            }, if ks[end] == LineKind::Weak {
                wc + 1
            } else {
                wc
            }, 0);
        } else if ks[end] == LineKind::Blank {
            if !(g + 1 > 1) {
                lemma_grow_at_most(ks, end + 1, sc, wc, g + 1);
            }
        } else {
            if crate::blocks::lookahead_boxy(ks, end) && g == 0 {
                lemma_grow_at_most(ks, end + 1, sc, wc, g);
            }
        }
    }
}

/// Trimming a block that starts on a non-blank line keeps at least
/// that line, and never grows the range.
proof fn lemma_trim_blanks_bounds(ks: Seq<LineKind>, st: int, end: int)
    requires
        0 <= st < end,
        ks[st] != LineKind::Blank,
    ensures
        st + 1 <= crate::blocks::trim_blanks(ks, st, end) <= end,
    decreases end - st,
{
    if st < end <= ks.len() && ks[end - 1] == LineKind::Blank {
        if end - 1 > st {
            lemma_trim_blanks_bounds(ks, st, end - 1);
        }
    }
}

/// The second pass finds every admitted block of the corrected
/// document at rest: processed blocks are at their fixed point, and
/// untouched stretches keep the very confidence that excluded them.
#[verifier::rlimit(100)]
proof fn lemma_second_pass_rest(
    ex: Seq<Seq<char>>,
    out: Seq<Seq<char>>,
    ms: int,
    rg: Option<Seq<(int, int)>>,
    i: int,
    k1: int,
    k2: int,
)
    requires
        classes_match(kinds_of(out), kinds_of(ex)),
        ex.len() == out.len(),
        0 <= i,
        0 <= k1 <= crate::blocks::blocks_from(kinds_of(ex), 0, false).len(),
        0 <= k2 <= crate::blocks::blocks_from(kinds_of(out), 0, false).len(),
        crate::blocks::blocks_from(kinds_of(ex), i, false) == crate::blocks::blocks_from(
            kinds_of(ex),
            0,
            false,
        ).subrange(k1, crate::blocks::blocks_from(kinds_of(ex), 0, false).len() as int),
        crate::blocks::blocks_from(kinds_of(out), i, false) == crate::blocks::blocks_from(
            kinds_of(out),
            0,
            false,
        ).subrange(k2, crate::blocks::blocks_from(kinds_of(out), 0, false).len() as int),
        forall|m: int|
            0 <= m < k1 ==> (#[trigger] crate::blocks::blocks_from(kinds_of(ex), 0, false)[m]).1
                <= i,
        forall|k: int|
            0 <= k < crate::blocks::blocks_from(kinds_of(ex), 0, false).len() && admitted(
                #[trigger] crate::blocks::blocks_from(kinds_of(ex), 0, false)[k],
                rg,
            ) ==> quiescent(
                out.subrange(
                    crate::blocks::blocks_from(kinds_of(ex), 0, false)[k].0,
                    crate::blocks::blocks_from(kinds_of(ex), 0, false)[k].1,
                ),
                ms,
            ),
        forall|j: int|
            #![trigger out[j]]
            0 <= j < out.len() && (forall|k: int|
                0 <= k < crate::blocks::blocks_from(kinds_of(ex), 0, false).len() ==> !((
                #[trigger] crate::blocks::blocks_from(kinds_of(ex), 0, false)[k]).0 <= j
                    < crate::blocks::blocks_from(kinds_of(ex), 0, false)[k].1)) ==> out[j]
                == ex[j],
    ensures
        forall|k: int|
            k2 <= k < crate::blocks::blocks_from(kinds_of(out), 0, false).len() && admitted(
                #[trigger] crate::blocks::blocks_from(kinds_of(out), 0, false)[k],
                rg,
            ) ==> quiescent(
                out.subrange(
                    crate::blocks::blocks_from(kinds_of(out), 0, false)[k].0,
                    crate::blocks::blocks_from(kinds_of(out), 0, false)[k].1,
                ),
                ms,
            ),
    decreases kinds_of(ex).len() - i,
{
    let kex = kinds_of(ex);
    let kout = kinds_of(out);
    let bs1 = crate::blocks::blocks_from(kex, 0, false);
    let bs2 = crate::blocks::blocks_from(kout, 0, false);
    assert(kex.len() == ex.len());
    assert(kout.len() == out.len());
    if i >= kex.len() {
        assert(crate::blocks::blocks_from(kout, i, false) =~= Seq::<(int, int, int)>::empty());
        assert(bs2.subrange(k2 as int, bs2.len() as int).len() == 0);
        assert(k2 == bs2.len());
    } else {
        assert(same_class(kout[i], kex[i]));
        if !spec_is_boxy(kout[i]) {
            lemma_second_pass_rest(ex, out, ms, rg, i + 1, k1, k2);
        } else {
            let s0x: int = if kex[i] == LineKind::Strong {
                1
            } else {
                0
            };
            let w0x: int = if kex[i] == LineKind::Weak {
                1
            } else {
                0
            };
            let s0o: int = if kout[i] == LineKind::Strong {
                1
            } else {
                0
            };
            let w0o: int = if kout[i] == LineKind::Weak {
                1
            } else {
                0
            };
            let gx = crate::blocks::grow(kex, i + 1, s0x, w0x, 0);
            let go = crate::blocks::grow(kout, i + 1, s0o, w0o, 0);
            lemma_grow_stop_classes(kout, kex, i + 1, s0o, w0o, s0x, w0x, 0);
            assert(go.0 == gx.0);
            lemma_grow_at_least(kex, i + 1, s0x, w0x, 0);
            lemma_grow_at_most(kex, i + 1, s0x, w0x, 0);
            lemma_trim_classes(kout, kex, i, gx.0);
            let e = crate::blocks::trim_blanks(kex, i, gx.0);
            lemma_trim_blanks_bounds(kex, i, gx.0);
            assert(i + 1 <= e <= gx.0 <= kex.len());
            let e2 = e;
            assert(crate::blocks::blocks_from(kex, i, false) == (
            if crate::blocks::confidence_pm(gx.1, gx.2, i, e2) >= 300 {
                seq![(i, e2, crate::blocks::confidence_pm(gx.1, gx.2, i, e2))]
                    + crate::blocks::blocks_from(kex, e2, false)
            } else {
                crate::blocks::blocks_from(kex, e2, false)
            }));
            let confx = crate::blocks::confidence_pm(gx.1, gx.2, i, e2);
            let confo = crate::blocks::confidence_pm(go.1, go.2, i, e2);
            if confx >= 300 {
                // the range was a detected block of the first run
                let restx = crate::blocks::blocks_from(kex, e2, false);
                assert(k1 < bs1.len()) by {
                    assert(bs1.subrange(k1 as int, bs1.len() as int).len() >= 1);
                }
                assert(bs1[k1 as int] == (i, e2, confx)) by {
                    assert(bs1.subrange(k1 as int, bs1.len() as int)[0] == bs1[k1 as int]);
                }
                assert(crate::blocks::blocks_from(kex, e2, false) =~= bs1.subrange(
                    k1 + 1,
                    bs1.len() as int,
                )) by {
                    assert forall|m: int|
                        0 <= m < restx.len() implies restx[m] == bs1.subrange(
                        k1 + 1,
                        bs1.len() as int,
                    )[m] by {
                        assert(restx[m] == (seq![(i, e2, confx)] + restx)[m + 1]);
                        assert(bs1.subrange(k1 as int, bs1.len() as int)[m + 1] == bs1[k1 + 1
                            + m]);
                    }
                }
                if confo >= 300 {
                    let resto = crate::blocks::blocks_from(kout, e2, false);
                    assert(k2 < bs2.len()) by {
                        assert(bs2.subrange(k2 as int, bs2.len() as int).len() >= 1);
                    }
                    assert(bs2[k2 as int] == (i, e2, confo)) by {
                        assert(bs2.subrange(k2 as int, bs2.len() as int)[0] == bs2[k2 as int]);
                    }
                    assert(resto =~= bs2.subrange(k2 + 1, bs2.len() as int)) by {
                        assert forall|m: int|
                            0 <= m < resto.len() implies resto[m] == bs2.subrange(
                            k2 + 1,
                            bs2.len() as int,
                        )[m] by {
                            assert(resto[m] == (seq![(i, e2, confo)] + resto)[m + 1]);
                            assert(bs2.subrange(k2 as int, bs2.len() as int)[m + 1] == bs2[k2 + 1
                                + m]);
                        }
                    }
                    lemma_second_pass_rest(ex, out, ms, rg, e2, k1 + 1, k2 + 1);
                    assert forall|k: int|
                        k2 <= k < bs2.len() && admitted(#[trigger] bs2[k], rg) implies quiescent(
                        out.subrange(bs2[k].0, bs2[k].1),
                        ms,
                    ) by {
                        if k == k2 {
                            assert(bs2[k2 as int].0 == bs1[k1 as int].0 && bs2[k2 as int].1
                                == bs1[k1 as int].1);
                            assert(admitted(bs1[k1 as int], rg));
                        }
                    }
                } else {
                    lemma_second_pass_rest(ex, out, ms, rg, e2, k1 + 1, k2);
                }
            } else {
                // the first run rejected this range, so it is untouched
                assert(crate::blocks::blocks_from(kex, i, false) == crate::blocks::blocks_from(
                    kex,
                    e2,
                    false,
                ));
                crate::blocks::lemma_blocks_bounds(kex, e2, false);
                lemma_blocks_start_boxy(kex, e2, false);
                lemma_trim_blanks_shape(kex, i, gx.0);
                assert forall|j: int| i <= j < gx.0 implies #[trigger] out[j] == ex[j] by {
                    assert forall|k: int|
                        0 <= k < bs1.len() implies !((#[trigger] bs1[k]).0 <= j < bs1[k].1) by {
                        if k < k1 {
                            assert(bs1[k].1 <= i);
                        } else {
                            let restx = crate::blocks::blocks_from(kex, e2, false);
                            assert(bs1[k] == restx[k - k1]) by {
                                assert(bs1.subrange(k1 as int, bs1.len() as int)[k - k1]
                                    == bs1[k]);
                            }
                            assert(restx[k - k1].0 >= e2);
                            assert(spec_is_boxy(kex[restx[k - k1].0]));
                            if restx[k - k1].0 < gx.0 {
                                assert(kex[restx[k - k1].0] == LineKind::Blank);
                            }
                            assert(restx[k - k1].0 >= gx.0);
                        }
                    }
                }
                assert forall|j: int| i <= j < gx.0 implies #[trigger] kout[j] == kex[j] by {
                    assert(kout[j] == classify_s(out[j]));
                    assert(kex[j] == classify_s(ex[j]));
                }
                assert(s0o == s0x && w0o == w0x);
                lemma_grow_window(kout, kex, i + 1, s0x, w0x, 0);
                assert(go == gx);
                assert(confo == confx);
                assert(crate::blocks::blocks_from(kout, i, false) == crate::blocks::blocks_from(
                    kout,
                    e2,
                    false,
                ));
                lemma_second_pass_rest(ex, out, ms, rg, e2, k1, k2);
            }
        }
    }
}
} // verus!
