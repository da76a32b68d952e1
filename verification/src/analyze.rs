//! Per-line analysis: classification into `Blank` / `Prose` / `Weak` /
//! `Strong`, visual width, indentation, and suffix-border detection.
//!
//! A line's class drives both block detection and revision generation:
//! `Weak` and `Strong` lines ("boxy" lines) form diagram blocks, while
//! `Prose` lines pass through the corrector untouched.

use vstd::prelude::*;
use crate::chars::{
    is_border_char, is_corner, is_junction, line_width, spec_is_border_char, spec_is_corner,
    spec_is_junction,
};
use crate::text::{
    count_box, has_corner, trim_end_index, trim_end_len, trim_end_s, trim_s, trim_start_idx,
    is_ws, spec_is_ws, lemma_trim_end_shape, str_to_chars, trim_start_index,
};

verus! {

/// Classification of a line's role in a diagram. `Prose` marks a line
/// with no diagram structure at all; the corrector never touches one.
#[derive(Debug, Clone, Copy, PartialEq, Eq, Structural)]
pub enum LineKind {
    /// Empty or whitespace-only line.
    Blank,
    /// A line with no box-drawing characters at all; passed through
    /// unchanged.
    Prose,
    /// A line with some box-drawing characters that fails the Strong
    /// predicate: typically a content row with a stray border.
    Weak,
    /// A line with strong diagram structure: it holds a corner, or
    /// starts and ends with a border character, or at least a third of
    /// its trimmed characters are box characters.
    Strong,
}

/// Whether a kind takes part in a diagram block.
pub open spec fn spec_is_boxy(k: LineKind) -> bool {
    k == LineKind::Weak || k == LineKind::Strong
}

impl LineKind {
    /// `Weak` and `Strong` lines are together termed boxy.
    pub fn is_boxy(self) -> (r: bool)
        ensures
            r == spec_is_boxy(self),
    {
        match self {
            LineKind::Weak | LineKind::Strong => true,
            _ => false,
        }
    }

    /// Whether this kind is `Strong`.
    pub fn eq_strong(self) -> (r: bool)
        ensures
            r == (self == LineKind::Strong),
    {
        match self {
            LineKind::Strong => true,
            _ => false,
        }
    }
}

/// The classification of a line, over its characters: trim whitespace
/// on both sides; an empty rest is `Blank`; no box characters is
/// `Prose`; a corner, a border at both ends, or box characters making
/// up a third of the rest is `Strong`; anything else is `Weak`.
pub open spec fn classify_s(s: Seq<char>) -> LineKind {
    let t = trim_s(s);
    if t.len() == 0 {
        LineKind::Blank
    } else if count_box(t) == 0 {
        LineKind::Prose
    } else if has_corner(t) || (spec_is_border_char(t.first()) && spec_is_border_char(t.last()))
        || count_box(t) * 3 >= t.len() {
        LineKind::Strong
    } else {
        LineKind::Weak
    }
}

/// `trim_start_idx` is characterised by its shape: everything before
/// `k` is whitespace and the character at `k`, if any, is not.
pub proof fn lemma_trim_start_char(s: Seq<char>, k: int)
    requires
        0 <= k <= s.len(),
        forall|i: int| 0 <= i < k ==> spec_is_ws(#[trigger] s[i]),
        k < s.len() ==> !spec_is_ws(s[k]),
    ensures
        trim_start_idx(s) == k,
    decreases s.len(),
{
    if s.len() > 0 && spec_is_ws(s.first()) {
        assert(k > 0);
        assert forall|i: int| 0 <= i < k - 1 implies spec_is_ws(#[trigger] s.drop_first()[i]) by {
            assert(s.drop_first()[i] == s[i + 1]);
        }
        if k - 1 < s.len() - 1 {
            assert(s.drop_first()[k - 1] == s[k]);
        }
        lemma_trim_start_char(s.drop_first(), k - 1);
    } else {
        if s.len() > 0 && k > 0 {
            assert(spec_is_ws(s[0]));
        }
    }
}

/// Bounds of the fully trimmed line within the line itself:
/// `trim_s(v@) == v@.subrange(b, e)`.
pub fn trim_bounds(v: &Vec<char>) -> (r: (usize, usize))
    ensures
        r.1 == trim_end_len(v@),
        r.0 <= r.1 <= v@.len(),
        trim_s(v@) == v@.subrange(r.0 as int, r.1 as int),
{
    let e = trim_end_index(v);
    proof {
        lemma_trim_end_shape(v@);
    }
    let mut b: usize = 0;
    while b < e && is_ws(v[b])
        invariant
            b <= e <= v@.len(),
            e == trim_end_len(v@),
            forall|i: int| 0 <= i < b ==> spec_is_ws(#[trigger] v@[i]),
        decreases e - b,
    {
        b = b + 1;
    }
    proof {
        let t = trim_end_s(v@);
        assert forall|i: int| 0 <= i < b implies spec_is_ws(#[trigger] t[i]) by {
            assert(t[i] == v@[i]);
        }
        if b < e {
            assert(t[b as int] == v@[b as int]);
        }
        lemma_trim_start_char(t, b as int);
        assert(trim_s(v@) =~= v@.subrange(b as int, e as int));
    }
    (b, e)
}

/// Classify the characters of one line.
pub fn classify_chars(v: &Vec<char>) -> (k: LineKind)
    ensures
        k == classify_s(v@),
{
    let (b, e) = trim_bounds(v);
    if b == e {
        return LineKind::Blank;
    }
    let boxes = crate::text::count_box_range(v, b, e);
    if boxes == 0 {
        return LineKind::Prose;
    }
    let corner = crate::text::has_corner_range(v, b, e);
    let total = e - b;
    let ghost t = trim_s(v@);
    proof {
        assert(t.first() == v@[b as int]);
        assert(t.last() == v@[e - 1]);
    }
    let starts = is_border_char(v[b]);
    let ends = is_border_char(v[e - 1]);
    if corner || (starts && ends) || (boxes as u128) * 3 >= (total as u128) {
        LineKind::Strong
    } else {
        LineKind::Weak
    }
}

/// Classify a single line.
pub fn classify_line(line: &str) -> (k: LineKind)
    ensures
        k == classify_s(line@),
{
    let v = str_to_chars(line);
    classify_chars(&v)
}

/// Whether the line, once right-trimmed, ends in a border character.
pub open spec fn has_suffix_border(s: Seq<char>) -> bool {
    trim_end_s(s).len() > 0 && spec_is_border_char(trim_end_s(s).last())
}

/// The visual column of the suffix border: the width of everything
/// before it on the right-trimmed line.
pub open spec fn suffix_col(s: Seq<char>) -> int {
    line_width(trim_end_s(s).drop_last())
}

/// The suffix border character itself.
pub open spec fn suffix_char(s: Seq<char>) -> char {
    trim_end_s(s).last()
}

/// Whether the suffix border closes the line: corners and junctions
/// do, mid-stroke verticals do not.
pub open spec fn suffix_closing(s: Seq<char>) -> bool {
    spec_is_corner(trim_end_s(s).last()) || spec_is_junction(trim_end_s(s).last())
}

/// Information about a detected right-side border character.
#[derive(Debug, Clone, Copy, PartialEq, Eq, Structural)]
pub struct SuffixBorder {
    /// Visual column at which the border sits (0-indexed): the visual
    /// width of the prefix before it.
    pub column: usize,
    /// The border character itself (`|`, `│`, `+`, ...).
    pub char: char,
    /// True if the character is a corner or junction rather than a
    /// mid-stroke vertical.
    pub is_closing: bool,
}

/// Detect the rightmost border of one line's characters.
pub fn suffix_border_chars(v: &Vec<char>) -> (r: Option<SuffixBorder>)
    requires
        v@.len() <= usize::MAX / 2,
    ensures
        r is Some <==> has_suffix_border(v@),
        r matches Some(b) ==> b.column == suffix_col(v@) && b.char == suffix_char(v@)
            && b.is_closing == suffix_closing(v@),
{
    let e = trim_end_index(v);
    if e == 0 {
        return Option::None;
    }
    proof {
        crate::text::lemma_trim_end_len_le(v@);
    }
    let last = v[e - 1];
    proof {
        assert(trim_end_s(v@).last() == v@[e - 1]);
        assert(trim_end_s(v@).drop_last() =~= v@.subrange(0, e - 1));
    }
    if is_border_char(last) {
        let prefix_width = crate::chars::chars_width_range(v, 0, e - 1);
        Option::Some(
            SuffixBorder {
                column: prefix_width,
                char: last,
                is_closing: is_corner(last) || is_junction(last),
            },
        )
    } else {
        Option::None
    }
}

/// Detect a right-side border in a line.
pub fn detect_suffix_border(line: &str) -> (r: Option<SuffixBorder>)
    requires
        line@.len() <= usize::MAX / 2,
    ensures
        r is Some <==> has_suffix_border(line@),
        r matches Some(b) ==> b.column == suffix_col(line@) && b.char == suffix_char(line@)
            && b.is_closing == suffix_closing(line@),
{
    let v = str_to_chars(line);
    suffix_border_chars(&v)
}

/// Result of analyzing a single line for diagram structure.
#[derive(Debug, Clone)]
pub struct AnalyzedLine {
    /// The original line content, unmodified.
    pub content: String,
    /// Classification of the line.
    pub kind: LineKind,
    /// Visual width of the whole line in terminal columns.
    pub visual_width: usize,
    /// Number of leading whitespace characters.
    pub indent: usize,
    /// The rightmost border of the line, if the line is boxy and has
    /// one.
    pub suffix_border: Option<SuffixBorder>,
}

/// Analyze a line for correction: classify it, measure it, and locate
/// its suffix border. Only boxy lines report a suffix border.
pub fn analyze_line(line: &str) -> (r: AnalyzedLine)
    requires
        line@.len() <= usize::MAX / 2,
    ensures
        r.content@ == line@,
        r.kind == classify_s(line@),
        r.visual_width == line_width(line@),
        r.indent == trim_start_idx(line@),
        r.suffix_border is Some <==> spec_is_boxy(classify_s(line@)) && has_suffix_border(line@),
        r.suffix_border matches Some(b) ==> b.column == suffix_col(line@) && b.char == suffix_char(
            line@,
        ) && b.is_closing == suffix_closing(line@),
{
    let v = str_to_chars(line);
    let kind = classify_chars(&v);
    let width = crate::chars::chars_width(&v);
    let indent = trim_start_index(&v);
    let suffix_border = if kind.is_boxy() {
        suffix_border_chars(&v)
    } else {
        Option::None
    };
    AnalyzedLine {
        content: crate::text::chars_to_string(&v),
        kind,
        visual_width: width,
        indent,
        suffix_border,
    }
}


/// Number of occurrences of `c` in `s`.
pub open spec fn occ(s: Seq<char>, c: char) -> int
    decreases s.len(),
{
    if s.len() == 0 {
        0
    } else {
        occ(s.drop_last(), c) + if s.last() == c {
            1int
        } else {
            0int
        }
    }
}

/// The vertical-border characters of one line, in order.
pub open spec fn vb_filter(s: Seq<char>) -> Seq<char>
    decreases s.len(),
{
    if s.len() == 0 {
        Seq::empty()
    } else {
        vb_filter(s.drop_last()) + if crate::chars::spec_is_vertical_border(s.last()) {
            seq![s.last()]
        } else {
            Seq::empty()
        }
    }
}

/// The vertical-border characters of a run of lines, line by line, in
/// order.
pub open spec fn vbars(ls: Seq<Seq<char>>) -> Seq<char>
    decreases ls.len(),
{
    if ls.len() == 0 {
        Seq::empty()
    } else {
        vbars(ls.drop_last()) + vb_filter(ls.last())
    }
}

/// The index, at or after `i`, of the first element whose occurrence
/// count in `s` is maximal over the whole of `s`.
pub open spec fn first_max_from(s: Seq<char>, i: int) -> int
    decreases s.len() - i,
{
    if i < 0 || i >= s.len() {
        0
    } else if forall|j: int| 0 <= j < s.len() ==> occ(s, #[trigger] s[j]) <= occ(s, s[i]) {
        i
    } else {
        first_max_from(s, i + 1)
    }
}

/// The preferred border character of a run of lines: the most frequent
/// vertical-border character, ties broken by first occurrence, with
/// the ASCII pipe as the fallback when no vertical border occurs.
pub open spec fn border_choice(vb: Seq<char>) -> char {
    if vb.len() == 0 {
        '|'
    } else {
        vb[first_max_from(vb, 0)]
    }
}

/// Among the elements of any nonempty prefix there is one of maximal
/// occurrence count.
proof fn lemma_exists_max(s: Seq<char>, n: int)
    requires
        1 <= n <= s.len(),
    ensures
        exists|i: int|
            #![trigger s[i]]
            0 <= i < n && forall|j: int| 0 <= j < n ==> occ(s, #[trigger] s[j]) <= occ(s, s[i]),
    decreases n,
{
    if n == 1 {
        assert(forall|j: int| 0 <= j < n ==> occ(s, #[trigger] s[j]) <= occ(s, s[0]));
    } else {
        lemma_exists_max(s, n - 1);
        let i = choose|i: int|
            #![trigger s[i]]
            0 <= i < n - 1 && forall|j: int|
                0 <= j < n - 1 ==> occ(s, #[trigger] s[j]) <= occ(s, s[i]);
        if occ(s, s[n - 1]) > occ(s, s[i]) {
            assert(forall|j: int| 0 <= j < n ==> occ(s, #[trigger] s[j]) <= occ(s, s[n - 1]));
        } else {
            assert(forall|j: int| 0 <= j < n ==> occ(s, #[trigger] s[j]) <= occ(s, s[i]));
        }
    }
}

/// `first_max_from` finds exactly the least index whose element's
/// count is maximal.
proof fn lemma_first_max_char(s: Seq<char>, m: int, k: int)
    requires
        0 <= m <= k < s.len(),
        forall|j: int| 0 <= j < s.len() ==> occ(s, #[trigger] s[j]) <= occ(s, s[k]),
        forall|j: int| 0 <= j < k ==> occ(s, #[trigger] s[j]) < occ(s, s[k]),
    ensures
        first_max_from(s, m) == k,
    decreases k - m,
{
    if m == k {
        assert(first_max_from(s, m) == k);
    } else {
        assert(occ(s, s[m]) < occ(s, s[k]));
        assert(!(forall|j: int| 0 <= j < s.len() ==> occ(s, #[trigger] s[j]) <= occ(s, s[m])));
        lemma_first_max_char(s, m + 1, k);
    }
}

/// Count the occurrences of `c` in `v`.
fn count_occurrences(v: &Vec<char>, c: char) -> (n: usize)
    ensures
        n == occ(v@, c),
{
    proof {
        lemma_occ_le(v@, c);
    }
    let mut n: usize = 0;
    let mut i: usize = 0;
    while i < v.len()
        invariant
            i <= v@.len(),
            n == occ(v@.subrange(0, i as int), c),
            n <= i,
        decreases v@.len() - i,
    {
        proof {
            let t = v@.subrange(0, i + 1 as int);
            assert(t.drop_last() =~= v@.subrange(0, i as int));
            assert(t.last() == v@[i as int]);
        }
        if v[i] == c {
            n = n + 1;
        }
        i = i + 1;
    }
    proof {
        assert(v@.subrange(0, v@.len() as int) =~= v@);
    }
    n
}

proof fn lemma_occ_le(s: Seq<char>, c: char)
    ensures
        0 <= occ(s, c) <= s.len(),
    decreases s.len(),
{
    if s.len() > 0 {
        lemma_occ_le(s.drop_last(), c);
    }
}

/// Append the vertical-border characters of `line` to `out`.
pub(crate) fn push_vb_filter(out: &mut Vec<char>, line: &Vec<char>)
    ensures
        final(out)@ == old(out)@ + vb_filter(line@),
{
    let mut i: usize = 0;
    while i < line.len()
        invariant
            i <= line@.len(),
            out@ == old(out)@ + vb_filter(line@.subrange(0, i as int)),
        decreases line@.len() - i,
    {
        proof {
            let t = line@.subrange(0, i + 1 as int);
            assert(t.drop_last() =~= line@.subrange(0, i as int));
            assert(t.last() == line@[i as int]);
        }
        if crate::chars::is_vertical_border(line[i]) {
            out.push(line[i]);
        }
        i = i + 1;
    }
    proof {
        assert(line@.subrange(0, line@.len() as int) =~= line@);
    }
}

/// Pick the most frequent character of `flat`, ties broken by the
/// first occurrence, with `'|'` for an empty sequence.
pub(crate) fn pick_first_max(flat: &Vec<char>) -> (r: char)
    ensures
        r == border_choice(flat@),
{
    if flat.len() == 0 {
        return '|';
    }
    let mut best: char = flat[0];
    let mut best_n: usize = count_occurrences(flat, flat[0]);
    let ghost mut best_i: int = 0;
    let mut i: usize = 1;
    while i < flat.len()
        invariant
            1 <= i <= flat@.len(),
            0 <= best_i < i,
            best == flat@[best_i],
            best_n == occ(flat@, best),
            forall|j: int| 0 <= j < i ==> occ(flat@, #[trigger] flat@[j]) <= best_n,
            forall|j: int| 0 <= j < best_i ==> occ(flat@, #[trigger] flat@[j]) < best_n,
        decreases flat@.len() - i,
    {
        let n = count_occurrences(flat, flat[i]);
        if n > best_n {
            best = flat[i];
            best_n = n;
            proof {
                best_i = i as int;
            }
        }
        i = i + 1;
    }
    proof {
        lemma_first_max_char(flat@, 0, best_i);
    }
    best
}

/// The characters of each line of a slice of string slices.
pub open spec fn views_of_strs(ls: Seq<&str>) -> Seq<Seq<char>> {
    ls.map_values(|l: &str| l@)
}

/// Detect the most common vertical border character in a set of lines:
/// the alignment loop appends this character when it adds a missing
/// border. Ties go to the character seen first; with no vertical
/// border anywhere the ASCII pipe is used.
pub fn detect_vertical_border(lines: &[&str]) -> (r: char)
    ensures
        r == border_choice(vbars(views_of_strs(lines@))),
{
    let mut flat: Vec<char> = Vec::new();
    let mut i: usize = 0;
    proof {
        assert(views_of_strs(lines@.subrange(0, 0)) =~= Seq::<Seq<char>>::empty());
    }
    while i < lines.len()
        invariant
            i <= lines@.len(),
            flat@ == vbars(views_of_strs(lines@.subrange(0, i as int))),
        decreases lines@.len() - i,
    {
        let line = crate::text::str_to_chars(lines[i]);
        push_vb_filter(&mut flat, &line);
        proof {
            let vs1 = views_of_strs(lines@.subrange(0, i + 1 as int));
            assert(vs1.drop_last() =~= views_of_strs(lines@.subrange(0, i as int)));
            assert(vs1.last() == lines@[i as int]@);
        }
        i = i + 1;
    }
    proof {
        assert(lines@.subrange(0, lines@.len() as int) =~= lines@);
    }
    pick_first_max(&flat)
}

} // verus!
