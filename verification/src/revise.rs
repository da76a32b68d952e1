//! The revision model: typed insert-only edits, their scores, and
//! their application.
//!
//! Scores are measured in thousandths (per-mille), so that the scale
//! running from 0 to 1 in the documentation is the integer range 0 to
//! 1000 here; a revision is applied when its score reaches the
//! configured minimum. Padding an existing border is worth more than
//! inventing one, small adjustments more than large ones, and strong
//! lines more than weak ones.

use vstd::prelude::*;
use crate::analyze::{
    classify_s, has_suffix_border, suffix_col, AnalyzedLine, LineKind, spec_is_boxy,
};
use crate::chars::{is_border_char, line_width, spec_is_border_char};
use crate::text::{spaces, trim_end_index, trim_end_s, trim_s, lemma_trim_end_len_le};

verus! {

/// Score of padding an existing suffix border: a base of 800, less a
/// penalty of 100 per inserted space capped at 500, plus 200 when the
/// line is strong.
pub open spec fn pad_score(spaces_to_add: int, strong: bool) -> int {
    800 - (if spaces_to_add * 100 > 500 {
        500int
    } else {
        spaces_to_add * 100
    }) + if strong {
        200int
    } else {
        0int
    }
}

/// Score of appending a missing suffix border: a base of 500, plus
/// 200 when the line is strong and 100 otherwise.
pub open spec fn add_score(strong: bool) -> int {
    500 + if strong {
        200int
    } else {
        100int
    }
}

/// The line after `PadBeforeSuffixBorder`: right-trim, and if the last
/// character is still a border character, splice the spaces in just
/// before it; otherwise the revision is dropped and the line is left
/// alone. Trailing whitespace after the border is discarded by the
/// rewrite.
pub open spec fn apply_pad_s(l: Seq<char>, n: int) -> Seq<char> {
    let t = trim_end_s(l);
    if t.len() > 0 && spec_is_border_char(t.last()) {
        t.drop_last() + spaces(n) + seq![t.last()]
    } else {
        l
    }
}

/// The line after `AddSuffixBorder`: right-trim, pad with spaces up to
/// the target column, and append the border character.
pub open spec fn apply_add_s(l: Seq<char>, bc: char, target: int) -> Seq<char> {
    let t = trim_end_s(l);
    let pad = if target - line_width(t) >= 0 {
        target - line_width(t)
    } else {
        0int
    };
    t + spaces(pad) + seq![bc]
}

/// A proposed modification to align a line's right border. Both
/// variants only ever insert characters.
#[derive(Debug, Clone)]
pub enum Revision {
    /// Insert spaces before an existing suffix border to move it to
    /// the target column.
    PadBeforeSuffixBorder {
        /// Global line index (0-based).
        line_idx: usize,
        /// Number of space characters to insert.
        spaces_to_add: usize,
        /// Target visual column for alignment.
        target_column: usize,
    },
    /// Append a border character at the target column to a boxy line
    /// that has none.
    AddSuffixBorder {
        /// Global line index (0-based).
        line_idx: usize,
        /// Border character to add (`|`, `│`, ...).
        border_char: char,
        /// Target visual column for the new border.
        target_column: usize,
    },
}

impl Revision {
    /// The global index of the line this revision touches.
    pub open spec fn spec_line_idx(self) -> int {
        match self {
            Revision::PadBeforeSuffixBorder { line_idx, .. } => line_idx as int,
            Revision::AddSuffixBorder { line_idx, .. } => line_idx as int,
        }
    }

    /// Score this revision in thousandths; higher means more confident.
    /// `block_start` is the offset of the block in the global line
    /// array, since revisions carry global indices while `analyzed`
    /// covers only the block.
    pub fn score(&self, analyzed: &Vec<AnalyzedLine>, block_start: usize) -> (s: u32)
        requires
            block_start <= self.spec_line_idx(),
            self.spec_line_idx() - block_start < analyzed@.len(),
        ensures
            self matches Revision::PadBeforeSuffixBorder { line_idx, spaces_to_add, .. } ==> s
                == pad_score(
                spaces_to_add as int,
                analyzed@[line_idx - block_start].kind == LineKind::Strong,
            ),
            self matches Revision::AddSuffixBorder { line_idx, .. } ==> s == add_score(
                analyzed@[line_idx - block_start].kind == LineKind::Strong,
            ),
    {
        match self {
            Revision::PadBeforeSuffixBorder { line_idx, spaces_to_add, .. } => {
                let local_idx = *line_idx - block_start;
                let strong = analyzed[local_idx].kind.eq_strong();
                let penalty: u32 = if *spaces_to_add >= 5 {
                    500
                } else {
                    (*spaces_to_add as u32) * 100
                };
                let bonus: u32 = if strong {
                    200
                } else {
                    0
                };
                800 - penalty + bonus
            },
            Revision::AddSuffixBorder { line_idx, .. } => {
                let local_idx = *line_idx - block_start;
                let strong = analyzed[local_idx].kind.eq_strong();
                let bonus: u32 = if strong {
                    200
                } else {
                    100
                };
                500 + bonus
            },
        }
    }

    /// Apply this revision to the lines. Only the addressed line
    /// changes, and it changes exactly as the application semantics
    /// say; a pad whose line no longer ends in a border character is
    /// dropped without effect.
    pub fn apply(&self, lines: &mut Vec<String>)
        requires
            0 <= self.spec_line_idx() < old(lines)@.len(),
            old(lines)@[self.spec_line_idx()]@.len() <= usize::MAX / 4,
            self matches Revision::PadBeforeSuffixBorder { spaces_to_add, .. } ==> spaces_to_add
                <= usize::MAX / 2,
            self matches Revision::AddSuffixBorder { target_column, .. } ==> target_column
                <= usize::MAX / 2,
        ensures
            final(lines)@.len() == old(lines)@.len(),
            forall|j: int|
                0 <= j < old(lines)@.len() && j != self.spec_line_idx() ==> final(lines)@[j]
                    == old(lines)@[j],
            self matches Revision::PadBeforeSuffixBorder { line_idx, spaces_to_add, .. }
                ==> final(lines)@[line_idx as int]@ == apply_pad_s(
                old(lines)@[line_idx as int]@,
                spaces_to_add as int,
            ),
            self matches Revision::AddSuffixBorder { line_idx, border_char, target_column }
                ==> final(lines)@[line_idx as int]@ == apply_add_s(
                old(lines)@[line_idx as int]@,
                *border_char,
                target_column as int,
            ),
    {
        match self {
            Revision::PadBeforeSuffixBorder { line_idx, spaces_to_add, .. } => {
                let v = crate::text::str_to_chars(lines[*line_idx].as_str());
                let padded = pad_chars(&v, *spaces_to_add);
                let s = crate::text::chars_to_string(&padded);
                lines.set(*line_idx, s);
            },
            Revision::AddSuffixBorder { line_idx, border_char, target_column } => {
                let v = crate::text::str_to_chars(lines[*line_idx].as_str());
                let added = add_chars(&v, *border_char, *target_column);
                let s = crate::text::chars_to_string(&added);
                lines.set(*line_idx, s);
            },
        }
    }
}

/// Insert `n` spaces before the suffix border of a right-trimmed line,
/// when its last character still is a border character.
pub fn pad_chars(v: &Vec<char>, n: usize) -> (r: Vec<char>)
    requires
        v@.len() <= usize::MAX / 4,
        n <= usize::MAX / 2,
    ensures
        r@ == apply_pad_s(v@, n as int),
{
    let e = trim_end_index(v);
    proof {
        lemma_trim_end_len_le(v@);
    }
    if e > 0 && is_border_char(v[e - 1]) {
        proof {
            assert(trim_end_s(v@).last() == v@[e - 1]);
            assert(trim_end_s(v@).drop_last() =~= v@.subrange(0, e - 1));
        }
        let mut out: Vec<char> = Vec::new();
        crate::text::push_sub(&mut out, v, 0, e - 1);
        crate::text::push_spaces(&mut out, n);
        out.push(v[e - 1]);
        proof {
            assert(out@ =~= v@.subrange(0, e - 1) + spaces(n as int) + seq![v@[e - 1]]);
        }
        out
    } else {
        let mut out: Vec<char> = Vec::new();
        crate::text::push_sub(&mut out, v, 0, v.len());
        proof {
            if trim_end_s(v@).len() > 0 {
                assert(trim_end_s(v@).last() == v@[e - 1]);
            }
            assert(out@ =~= v@);
        }
        out
    }
}

/// Right-trim the line, pad to the target column, and append the
/// border character.
pub fn add_chars(v: &Vec<char>, bc: char, target: usize) -> (r: Vec<char>)
    requires
        v@.len() <= usize::MAX / 4,
        target <= usize::MAX / 2,
    ensures
        r@ == apply_add_s(v@, bc, target as int),
{
    let e = trim_end_index(v);
    proof {
        lemma_trim_end_len_le(v@);
        assert(trim_end_s(v@) =~= v@.subrange(0, e as int));
    }
    let w = crate::chars::chars_width_range(v, 0, e);
    let pad: usize = if target >= w {
        target - w
    } else {
        0
    };
    let mut out: Vec<char> = Vec::new();
    crate::text::push_sub(&mut out, v, 0, e);
    crate::text::push_spaces(&mut out, pad);
    out.push(bc);
    proof {
        assert(out@ =~= trim_end_s(v@) + spaces(pad as int) + seq![bc]);
    }
    out
}

/// Whether the line is a candidate for a pad revision at this target:
/// it has a suffix border strictly left of the target column.
pub open spec fn line_candidate_pad(l: Seq<char>, target: int) -> bool {
    has_suffix_border(l) && suffix_col(l) < target
}

/// Whether the line is a candidate for an add revision: it is boxy
/// but has no suffix border.
pub open spec fn line_candidate_add(l: Seq<char>) -> bool {
    spec_is_boxy(classify_s(l)) && !has_suffix_border(l)
}

/// The score of the line's candidate revision at this target.
pub open spec fn line_score(l: Seq<char>, target: int) -> int {
    if has_suffix_border(l) {
        pad_score(target - suffix_col(l), classify_s(l) == LineKind::Strong)
    } else {
        add_score(classify_s(l) == LineKind::Strong)
    }
}

/// One iteration's effect on one line: apply the candidate revision
/// when there is one and its score reaches the minimum, else leave
/// the line alone.
pub open spec fn line_step(l: Seq<char>, target: int, bc: char, ms: int) -> Seq<char> {
    if line_candidate_pad(l, target) && line_score(l, target) >= ms {
        apply_pad_s(l, target - suffix_col(l))
    } else if line_candidate_add(l) && line_score(l, target) >= ms {
        apply_add_s(l, bc, target)
    } else {
        l
    }
}

/// 1 when this line's candidate is applied in the iteration.
pub open spec fn line_applied(l: Seq<char>, target: int, ms: int) -> int {
    if (line_candidate_pad(l, target) || line_candidate_add(l)) && line_score(l, target) >= ms {
        1int
    } else {
        0int
    }
}

/// 1 when this line's candidate is generated but filtered out by the
/// minimum score.
pub open spec fn line_skipped(l: Seq<char>, target: int, ms: int) -> int {
    if (line_candidate_pad(l, target) || line_candidate_add(l)) && line_score(l, target) < ms {
        1int
    } else {
        0int
    }
}

/// A line whose right-trimmed text ends in a border character is boxy:
/// the border character is a box character that trimming cannot lose.
pub proof fn lemma_suffix_border_boxy(l: Seq<char>)
    requires
        has_suffix_border(l),
    ensures
        spec_is_boxy(classify_s(l)),
{
    let t = trim_end_s(l);
    let tt = trim_s(l);
    assert(!crate::text::spec_is_ws(t.last()));
    crate::text::lemma_trim_start_shape(t);
    assert(crate::text::trim_start_idx(t) < t.len());
    assert(tt.len() > 0);
    assert(tt.last() == t.last());
    crate::text::lemma_count_box_le(tt.drop_last());
    assert(crate::text::count_box(tt) >= 1);
}

} // verus!
