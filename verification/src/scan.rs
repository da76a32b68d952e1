//! Quick-scan triage: decide cheaply whether a document is worth full
//! processing.
//!
//! At most the first thousand lines are scanned; if fewer than one
//! line in a hundred holds a box-drawing character, the document is
//! declared free of diagrams and passed through unchanged.

use vstd::prelude::*;
use crate::chars::spec_is_box_char;
use crate::text::views_of_strings;

verus! {

/// Maximum number of lines examined by the quick scan.
pub const QUICK_SCAN_LIMIT: usize = 1000;

/// Whether a line holds at least one box-drawing character.
pub open spec fn line_has_box(s: Seq<char>) -> bool {
    exists|i: int| 0 <= i < s.len() && spec_is_box_char(#[trigger] s[i])
}

/// How many of the first `n` lines hold a box-drawing character.
pub open spec fn scan_hits(ls: Seq<Seq<char>>, n: int) -> int
    decreases n,
{
    if n <= 0 {
        0
    } else {
        scan_hits(ls, n - 1) + if line_has_box(ls[n - 1]) {
            1int
        } else {
            0int
        }
    }
}

/// How many lines the quick scan examines.
pub open spec fn scan_limit(ls: Seq<Seq<char>>) -> int {
    if ls.len() < QUICK_SCAN_LIMIT {
        ls.len() as int
    } else {
        QUICK_SCAN_LIMIT as int
    }
}

/// The triage outcome: box characters appear on at least one line in
/// a hundred within the examined prefix. An empty document never
/// looks like diagrams.
pub open spec fn scan_likely(ls: Seq<Seq<char>>) -> bool {
    scan_limit(ls) > 0 && 100 * scan_hits(ls, scan_limit(ls)) >= scan_limit(ls)
}

/// Summary of a quick scan decision for diagram detection.
#[derive(Debug, Clone, Copy, PartialEq, Eq, Structural)]
pub struct QuickScanResult {
    /// Number of lines examined, a thousand at most.
    pub lines_scanned: usize,
    /// Count of examined lines holding a box-drawing character.
    pub lines_with_box_chars: usize,
    /// Whether box characters appear often enough to process the text.
    pub likely_has_diagrams: bool,
}

/// Check whether the line holds a box-drawing character.
fn str_has_box(line: &str) -> (r: bool)
    ensures
        r == line_has_box(line@),
{
    let v = crate::text::str_to_chars(line);
    let mut i: usize = 0;
    while i < v.len()
        invariant
            i <= v@.len(),
            v@ == line@,
            forall|j: int| 0 <= j < i ==> !spec_is_box_char(#[trigger] v@[j]),
        decreases v@.len() - i,
    {
        if crate::chars::is_box_char(v[i]) {
            return true;
        }
        i = i + 1;
    }
    false
}

/// Quickly scan input lines to decide whether full processing is
/// necessary.
pub fn quick_scan_for_diagrams(lines: &Vec<String>) -> (r: QuickScanResult)
    ensures
        r.lines_scanned == scan_limit(views_of_strings(lines@)),
        r.lines_with_box_chars == scan_hits(
            views_of_strings(lines@),
            scan_limit(views_of_strings(lines@)),
        ),
        r.likely_has_diagrams == scan_likely(views_of_strings(lines@)),
{
    let ghost vs = views_of_strings(lines@);
    let limit: usize = if lines.len() < QUICK_SCAN_LIMIT {
        lines.len()
    } else {
        QUICK_SCAN_LIMIT
    };
    let mut hits: usize = 0;
    let mut i: usize = 0;
    while i < limit
        invariant
            i <= limit,
            limit == scan_limit(vs),
            limit <= lines@.len(),
            vs == views_of_strings(lines@),
            hits <= i,
            hits == scan_hits(vs, i as int),
        decreases limit - i,
    {
        proof {
            assert(vs[i as int] == lines@[i as int]@);
        }
        if str_has_box(lines[i].as_str()) {
            hits = hits + 1;
        }
        i = i + 1;
    }
    let likely = limit > 0 && 100 * (hits as u64) >= (limit as u64);
    QuickScanResult {
        lines_scanned: limit,
        lines_with_box_chars: hits,
        likely_has_diagrams: likely,
    }
}

} // verus!
