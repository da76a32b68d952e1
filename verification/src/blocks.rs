//! Diagram block detection: a linear scan groups contiguous boxy
//! lines into blocks, tolerating a single blank gap and short prose
//! labels, and scores each block's confidence.
//!
//! Confidence is measured in thousandths: 800 times the share of
//! strong lines, plus a size bonus of 100 per line capped at 200,
//! capped at 1000 overall. A block is kept when its confidence
//! reaches 300, or always when the caller asks for all blocks.

use vstd::prelude::*;
use crate::analyze::{classify_s, spec_is_boxy, LineKind};
use crate::text::views_of_strings;

verus! {

/// A detected diagram block: a half-open range of line indices and a
/// confidence in thousandths.
#[derive(Debug, Clone, Copy, PartialEq, Eq, Structural)]
pub struct DiagramBlock {
    /// Starting line index in the input (0-based, inclusive).
    pub start: usize,
    /// Ending line index in the input (exclusive).
    pub end: usize,
    /// Confidence that this is an actual diagram, in thousandths
    /// (0 to 1000).
    pub confidence: u32,
}

/// The classification of every line.
pub open spec fn kinds_of(ls: Seq<Seq<char>>) -> Seq<LineKind> {
    ls.map_values(|l: Seq<char>| classify_s(l))
}

/// Whether a boxy line stands within the three lines starting at `i`.
pub open spec fn lookahead_boxy(ks: Seq<LineKind>, i: int) -> bool {
    exists|j: int| i <= j < ks.len() && j < i + 3 && spec_is_boxy(#[trigger] ks[j])
}

/// Extend a block from `end`, counting strong and weak lines and
/// tracking the running blank gap; returns the stopping index and the
/// two counts. Boxy lines reset the gap; a second consecutive blank
/// stops the block; a prose line is absorbed only when no blank gap
/// is open and a boxy line follows within three lines.
pub open spec fn grow(ks: Seq<LineKind>, end: int, strong: int, weak: int, gap: int) -> (
    int,
    int,
    int,
)
    decreases ks.len() - end,
{
    if end < 0 || end >= ks.len() {
        (end, strong, weak)
    } else if ks[end] == LineKind::Strong {
        grow(ks, end + 1, strong + 1, weak, 0)
    } else if ks[end] == LineKind::Weak {
        grow(ks, end + 1, strong, weak + 1, 0)
    } else if ks[end] == LineKind::Blank {
        if gap + 1 > 1 {
            (end, strong, weak)
        } else {
            grow(ks, end + 1, strong, weak, gap + 1)
        }
    } else {
        if lookahead_boxy(ks, end) && gap == 0 {
            grow(ks, end + 1, strong, weak, gap)
        } else {
            (end, strong, weak)
        }
    }
}

/// Drop trailing blank lines from the accumulated range.
pub open spec fn trim_blanks(ks: Seq<LineKind>, start: int, end: int) -> int
    decreases end - start,
{
    if start < end <= ks.len() && ks[end - 1] == LineKind::Blank {
        trim_blanks(ks, start, end - 1)
    } else {
        end
    }
}

/// The smaller of two integers.
pub open spec fn cmin(a: int, b: int) -> int {
    if a < b {
        a
    } else {
        b
    }
}

/// Confidence of a block in thousandths: 800 times the strong share,
/// plus 100 per line capped at 200, capped at 1000.
pub open spec fn confidence_pm(strong: int, weak: int, start: int, end: int) -> int {
    let total = strong + weak;
    if total > 0 {
        cmin(1000, 800 * strong / total + cmin(200, (end - start) * 100))
    } else {
        0
    }
}

/// The blocks found from line `i` on, as (start, end, confidence)
/// triples. The two clamps on the continuation index only make the
/// recursion visibly terminating; the detector never needs them,
/// since a block always ends past its first line and within the
/// document.
pub open spec fn blocks_from(ks: Seq<LineKind>, i: int, all: bool) -> Seq<(int, int, int)>
    decreases ks.len() - i,
{
    if i < 0 || i >= ks.len() {
        Seq::empty()
    } else if !spec_is_boxy(ks[i]) {
        blocks_from(ks, i + 1, all)
    } else {
        let s0: int = if ks[i] == LineKind::Strong {
            1
        } else {
            0
        };
        let w0: int = if ks[i] == LineKind::Weak {
            1
        } else {
            0
        };
        let g = grow(ks, i + 1, s0, w0, 0);
        let e = trim_blanks(ks, i, g.0);
        let e2 = if e < i + 1 {
            i + 1
        } else if e > ks.len() {
            ks.len() as int
        } else {
            e
        };
        let conf = confidence_pm(g.1, g.2, i, e2);
        let rest = blocks_from(ks, e2, all);
        if all || conf >= 300 {
            seq![(i, e2, conf)] + rest
        } else {
            rest
        }
    }
}

/// The blocks of a document, over the views of its lines.
pub open spec fn blocks_of(ls: Seq<Seq<char>>, all: bool) -> Seq<(int, int, int)> {
    blocks_from(kinds_of(ls), 0, all)
}

/// The (start, end, confidence) view of a block list.
pub open spec fn block_views(bs: Seq<DiagramBlock>) -> Seq<(int, int, int)> {
    bs.map_values(|b: DiagramBlock| (b.start as int, b.end as int, b.confidence as int))
}

/// Check whether a boxy line stands within the three entries of `ks`
/// starting at `i`.
fn lookahead(ks: &Vec<LineKind>, i: usize) -> (r: bool)
    requires
        i <= ks@.len(),
    ensures
        r == lookahead_boxy(ks@, i as int),
{
    let mut j: usize = i;
    while j < ks.len() && j - i < 3
        invariant
            i <= j <= ks@.len(),
            forall|m: int| i <= m < j ==> !spec_is_boxy(#[trigger] ks@[m]),
        decreases ks@.len() - j,
    {
        if ks[j].is_boxy() {
            return true;
        }
        j = j + 1;
    }
    false
}

/// Classify every line of the document.
pub fn classify_all(lines: &Vec<String>) -> (ks: Vec<LineKind>)
    ensures
        ks@ == kinds_of(views_of_strings(lines@)),
{
    let ghost target = kinds_of(views_of_strings(lines@));
    let mut ks: Vec<LineKind> = Vec::new();
    let mut i: usize = 0;
    while i < lines.len()
        invariant
            i <= lines@.len(),
            target == kinds_of(views_of_strings(lines@)),
            target.len() == lines@.len(),
            ks@ == target.subrange(0, i as int),
        decreases lines@.len() - i,
    {
        let k = crate::analyze::classify_line(lines[i].as_str());
        ks.push(k);
        proof {
            assert(target[i as int] == classify_s(lines@[i as int]@));
            assert(ks@ =~= target.subrange(0, i + 1));
        }
        i = i + 1;
    }
    proof {
        assert(target.subrange(0, target.len() as int) =~= target);
    }
    ks
}

/// Find diagram blocks in the input text: scan for runs of boxy
/// lines, extend them across single blank gaps and short prose
/// labels, trim trailing blanks, and keep the runs whose confidence
/// reaches 300 thousandths (or all runs when `all_blocks` is set).
/// The returned blocks are disjoint and ordered.
pub fn find_diagram_blocks(lines: &Vec<String>, all_blocks: bool) -> (blocks: Vec<DiagramBlock>)
    ensures
        block_views(blocks@) == blocks_of(views_of_strings(lines@), all_blocks),
{
    let ks = classify_all(lines);
    let ghost kk = ks@;
    let mut blocks: Vec<DiagramBlock> = Vec::new();
    let mut i: usize = 0;
    proof {
        assert(block_views(blocks@) + blocks_from(kk, 0, all_blocks) =~= blocks_from(
            kk,
            0,
            all_blocks,
        ));
    }
    while i < ks.len()
        invariant
            i <= kk.len(),
            kk == ks@,
            kk == kinds_of(views_of_strings(lines@)),
            block_views(blocks@) + blocks_from(kk, i as int, all_blocks) == blocks_from(
                kk,
                0,
                all_blocks,
            ),
        decreases kk.len() - i,
    {
        let kind = ks[i];
        if !kind.is_boxy() {
            proof {
                assert(blocks_from(kk, i as int, all_blocks) == blocks_from(
                    kk,
                    i + 1,
                    all_blocks,
                ));
            }
            i = i + 1;
            continue ;
        }
        let ghost s0: int = if kk[i as int] == LineKind::Strong {
            1
        } else {
            0
        };
        let ghost w0: int = if kk[i as int] == LineKind::Weak {
            1
        } else {
            0
        };
        let mut end: usize = i + 1;
        let mut strong: usize = if kind.eq_strong() {
            1
        } else {
            0
        };
        let mut weak: usize = 1 - strong;
        let mut gap: usize = 0;
        let ghost gfix = grow(kk, i + 1, s0, w0, 0);
        while end < ks.len()
            invariant_except_break
                i + 1 <= end <= kk.len(),
                kk == ks@,
                gap <= 1,
                strong + weak >= 1,
                strong + weak <= end,
                gfix == grow(kk, end as int, strong as int, weak as int, gap as int),
            ensures
                i + 1 <= end <= kk.len(),
                strong + weak >= 1,
                strong + weak <= end,
                gfix == (end as int, strong as int, weak as int),
            decreases kk.len() - end,
        {
            let k = ks[end];
            match k {
                LineKind::Strong => {
                    strong = strong + 1;
                    gap = 0;
                    end = end + 1;
                },
                LineKind::Weak => {
                    weak = weak + 1;
                    gap = 0;
                    end = end + 1;
                },
                LineKind::Blank => {
                    if gap + 1 > 1 {
                        break ;
                    }
                    gap = gap + 1;
                    end = end + 1;
                },
                LineKind::Prose => {
                    let ahead = lookahead(&ks, end);
                    if ahead && gap == 0 {
                        end = end + 1;
                    } else {
                        break ;
                    }
                },
            }
        }
        let ghost efix = trim_blanks(kk, i as int, gfix.0);
        let mut e: usize = end;
        while e > i && matches!(ks[e - 1], LineKind::Blank)
            invariant
                i + 1 <= e <= end,
                kk == ks@,
                i + 1 <= end <= kk.len(),
                spec_is_boxy(kk[i as int]),
                efix == trim_blanks(kk, i as int, e as int),
            decreases e,
        {
            proof {
                assert(kk[i as int] != LineKind::Blank);
                assert(e - 1 != i);
            }
            e = e - 1;
        }
        proof {
            assert(efix == e as int);
        }
        let total = strong + weak;
        let base: u128 = (800u128 * (strong as u128)) / (total as u128);
        let span = e - i;
        let bonus: u128 = if span >= 2 {
            200
        } else {
            100 * (span as u128)
        };
        let sum = base + bonus;
        let conf: u32 = if sum > 1000 {
            1000
        } else {
            sum as u32
        };
        proof {
            assert(conf as int == confidence_pm(
                strong as int,
                weak as int,
                i as int,
                e as int,
            ));
        }
        if all_blocks || conf >= 300 {
            let b = DiagramBlock { start: i, end: e, confidence: conf };
            let ghost prev = blocks@;
            blocks.push(b);
            proof {
                assert(block_views(blocks@) =~= block_views(prev) + seq![
                    (i as int, e as int, conf as int),
                ]);
                assert(block_views(prev) + (seq![(i as int, e as int, conf as int)]
                    + blocks_from(kk, e as int, all_blocks)) =~= (block_views(prev) + seq![
                    (i as int, e as int, conf as int),
                ]) + blocks_from(kk, e as int, all_blocks));
            }
        }
        i = e;
    }
    proof {
        assert(blocks_from(kk, i as int, all_blocks) =~= Seq::<(int, int, int)>::empty());
        assert(block_views(blocks@) + Seq::<(int, int, int)>::empty() =~= block_views(blocks@));
    }
    blocks
}


/// Every detected block sits inside the document, past its
/// predecessor, and holds at least one line.
pub proof fn lemma_blocks_bounds(ks: Seq<LineKind>, i: int, all: bool)
    requires
        0 <= i,
    ensures
        forall|k: int|
            0 <= k < blocks_from(ks, i, all).len() ==> i <= (#[trigger] blocks_from(
                ks,
                i,
                all,
            )[k]).0 && blocks_from(ks, i, all)[k].0 < blocks_from(ks, i, all)[k].1 <= ks.len(),
        forall|k: int|
            0 <= k < blocks_from(ks, i, all).len() - 1 ==> (#[trigger] blocks_from(
                ks,
                i,
                all,
            )[k]).1 <= blocks_from(ks, i, all)[k + 1].0,
    decreases ks.len() - i,
{
    let bs = blocks_from(ks, i, all);
    if i >= ks.len() {
    } else if !spec_is_boxy(ks[i]) {
        lemma_blocks_bounds(ks, i + 1, all);
        assert(bs == blocks_from(ks, i + 1, all));
    } else {
        let s0: int = if ks[i] == LineKind::Strong {
            1
        } else {
            0
        };
        let w0: int = if ks[i] == LineKind::Weak {
            1
        } else {
            0
        };
        let g = grow(ks, i + 1, s0, w0, 0);
        let e = trim_blanks(ks, i, g.0);
        let e2 = if e < i + 1 {
            i + 1
        } else if e > ks.len() {
            ks.len() as int
        } else {
            e
        };
        lemma_blocks_bounds(ks, e2, all);
        let rest = blocks_from(ks, e2, all);
        let conf = confidence_pm(g.1, g.2, i, e2);
        if all || conf >= 300 {
            assert(bs == seq![(i, e2, conf)] + rest);
            assert forall|k: int|
                0 <= k < bs.len() implies i <= (#[trigger] bs[k]).0 && bs[k].0 < bs[k].1
                <= ks.len() by {
                if k == 0 {
                    assert(bs[0] == (i, e2, conf));
                } else {
                    assert(bs[k] == rest[k - 1]);
                }
            }
            assert forall|k: int|
                0 <= k < bs.len() - 1 implies (#[trigger] bs[k]).1 <= bs[k + 1].0 by {
                if k == 0 {
                    assert(bs[0] == (i, e2, conf));
                    assert(bs[1] == rest[0]);
                } else {
                    assert(bs[k] == rest[k - 1]);
                    assert(bs[k + 1] == rest[k]);
                }
            }
        } else {
            assert(bs == rest);
        }
    }
}
} // verus!
