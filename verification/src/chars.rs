//! Character classes for box drawing, and the visual-width model.
//!
//! Code points fall into five disjoint classes: corners, horizontal
//! fills, vertical borders, junctions, and everything else. The union
//! of the first four is the set of box characters, which drives block
//! detection; corners, vertical borders and junctions together are the
//! border characters, which may terminate a diagram line.

use vstd::prelude::*;

verus! {

/// A corner piece: ASCII `+`, or a light, double or rounded Unicode corner.
pub open spec fn spec_is_corner(c: char) -> bool {
    c == '+' || c == '┌' || c == '┐' || c == '└' || c == '┘' || c == '╔' || c == '╗' || c == '╚'
        || c == '╝' || c == '╭' || c == '╮' || c == '╯' || c == '╰'
}

/// A horizontal fill: ASCII `-`, `~`, `=`, or a Unicode horizontal stroke.
pub open spec fn spec_is_horizontal_fill(c: char) -> bool {
    c == '-' || c == '~' || c == '=' || c == '─' || c == '━' || c == '═' || c == '╌' || c == '╍'
        || c == '┄' || c == '┅' || c == '┈' || c == '┉'
}

/// A vertical border: ASCII `|` or a Unicode vertical stroke.
pub open spec fn spec_is_vertical_border(c: char) -> bool {
    c == '|' || c == '│' || c == '┃' || c == '║' || c == '╎' || c == '╏' || c == '┆' || c == '┇'
        || c == '┊' || c == '┋'
}

/// A junction (T- or cross-piece) between box strokes.
pub open spec fn spec_is_junction(c: char) -> bool {
    c == '┬' || c == '┴' || c == '├' || c == '┤' || c == '┼' || c == '╦' || c == '╩' || c == '╠'
        || c == '╣' || c == '╬' || c == '╤' || c == '╧' || c == '╟' || c == '╢' || c == '╫'
        || c == '╪'
}

/// Any code point drawn from the four box-drawing classes.
pub open spec fn spec_is_box_char(c: char) -> bool {
    spec_is_corner(c) || spec_is_horizontal_fill(c) || spec_is_vertical_border(c)
        || spec_is_junction(c)
}

/// A code point that can legally terminate a line's right border.
/// Horizontal fills are excluded: a line ending in `-` is an unfinished
/// stroke, not a closed border.
pub open spec fn spec_is_border_char(c: char) -> bool {
    spec_is_vertical_border(c) || spec_is_corner(c) || spec_is_junction(c)
}

/// Check whether a character is a corner piece (ASCII or Unicode).
#[verifier::when_used_as_spec(spec_is_corner)]
pub fn is_corner(c: char) -> (r: bool)
    ensures
        r == spec_is_corner(c),
{
    c == '+' || c == '┌' || c == '┐' || c == '└' || c == '┘' || c == '╔' || c == '╗' || c == '╚'
        || c == '╝' || c == '╭' || c == '╮' || c == '╯' || c == '╰'
}

/// Check whether a character is a horizontal fill (for borders).
#[verifier::when_used_as_spec(spec_is_horizontal_fill)]
pub fn is_horizontal_fill(c: char) -> (r: bool)
    ensures
        r == spec_is_horizontal_fill(c),
{
    c == '-' || c == '~' || c == '=' || c == '─' || c == '━' || c == '═' || c == '╌' || c == '╍'
        || c == '┄' || c == '┅' || c == '┈' || c == '┉'
}

/// Check whether a character is a vertical border.
#[verifier::when_used_as_spec(spec_is_vertical_border)]
pub fn is_vertical_border(c: char) -> (r: bool)
    ensures
        r == spec_is_vertical_border(c),
{
    c == '|' || c == '│' || c == '┃' || c == '║' || c == '╎' || c == '╏' || c == '┆' || c == '┇'
        || c == '┊' || c == '┋'
}

/// Check whether a character is a T-junction or cross-piece.
#[verifier::when_used_as_spec(spec_is_junction)]
pub fn is_junction(c: char) -> (r: bool)
    ensures
        r == spec_is_junction(c),
{
    c == '┬' || c == '┴' || c == '├' || c == '┤' || c == '┼' || c == '╦' || c == '╩' || c == '╠'
        || c == '╣' || c == '╬' || c == '╤' || c == '╧' || c == '╟' || c == '╢' || c == '╫'
        || c == '╪'
}

/// Check whether a character could be part of a box drawing.
#[verifier::when_used_as_spec(spec_is_box_char)]
pub fn is_box_char(c: char) -> (r: bool)
    ensures
        r == spec_is_box_char(c),
{
    is_corner(c) || is_horizontal_fill(c) || is_vertical_border(c) || is_junction(c)
}

/// Check whether a character can terminate a line border.
#[verifier::when_used_as_spec(spec_is_border_char)]
pub fn is_border_char(c: char) -> (r: bool)
    ensures
        r == spec_is_border_char(c),
{
    is_vertical_border(c) || is_corner(c) || is_junction(c)
}

/// Visual width of one code point in terminal columns: ASCII and box
/// characters take one column; any other code point at or above U+1100
/// (CJK, Hangul, full-width forms, most emoji) takes two; the rest of
/// the range below U+1100 takes one.
pub open spec fn spec_char_width(c: char) -> int {
    if (c as u32) < 0x80 || spec_is_box_char(c) || (c as u32) < 0x1100 {
        1
    } else {
        2
    }
}

/// Visual width of a sequence of code points: the sum of the widths of
/// its characters.
pub open spec fn line_width(s: Seq<char>) -> int
    decreases s.len(),
{
    if s.len() == 0 {
        0
    } else {
        line_width(s.drop_last()) + spec_char_width(s.last())
    }
}

/// Calculate the visual width of a single character in terminal columns.
pub fn char_width(c: char) -> (w: usize)
    ensures
        w == spec_char_width(c),
{
    if (c as u32) < 0x80 || is_box_char(c) || (c as u32) < 0x1100 {
        1
    } else {
        2
    }
}

/// A sequence is at most twice as wide as it is long, and at least as
/// wide as it is long.
pub proof fn lemma_line_width_bounds(s: Seq<char>)
    ensures
        s.len() <= line_width(s) <= 2 * s.len(),
    decreases s.len(),
{
    if s.len() > 0 {
        lemma_line_width_bounds(s.drop_last());
    }
}

/// Width distributes over concatenation.
pub proof fn lemma_line_width_add(a: Seq<char>, b: Seq<char>)
    ensures
        line_width(a + b) == line_width(a) + line_width(b),
    decreases b.len(),
{
    if b.len() == 0 {
        assert(a + b =~= a);
    } else {
        lemma_line_width_add(a, b.drop_last());
        assert((a + b).drop_last() =~= a + b.drop_last());
        assert((a + b).last() == b.last());
    }
}

/// Calculate the visual width of `s[lo..hi]` in terminal columns, CJK
/// and other wide code points counting as two.
pub fn chars_width_range(s: &Vec<char>, lo: usize, hi: usize) -> (w: usize)
    requires
        lo <= hi <= s@.len(),
        s@.len() <= usize::MAX / 2,
    ensures
        w == line_width(s@.subrange(lo as int, hi as int)),
{
    let mut w: usize = 0;
    let mut i: usize = lo;
    while i < hi
        invariant
            lo <= i <= hi <= s@.len(),
            s@.len() <= usize::MAX / 2,
            w == line_width(s@.subrange(lo as int, i as int)),
            w <= 2 * (i - lo),
        decreases hi - i,
    {
        proof {
            lemma_line_width_bounds(s@.subrange(lo as int, i as int));
            assert(s@.subrange(lo as int, i + 1 as int).drop_last() =~= s@.subrange(
                lo as int,
                i as int,
            ));
            assert(s@.subrange(lo as int, i + 1 as int).last() == s@[i as int]);
        }
        w = w + char_width(s[i]);
        i = i + 1;
    }
    w
}

/// Calculate the visual width of the characters of a line in terminal
/// columns.
pub fn chars_width(s: &Vec<char>) -> (w: usize)
    requires
        s@.len() <= usize::MAX / 2,
    ensures
        w == line_width(s@),
{
    let w = chars_width_range(s, 0, s.len());
    proof {
        assert(s@.subrange(0, s@.len() as int) =~= s@);
    }
    w
}


/// Calculate the visual width of a string in terminal columns: ASCII
/// and box-drawing characters take one column, CJK and other wide
/// code points two.
pub fn visual_width(s: &str) -> (w: usize)
    requires
        s@.len() <= usize::MAX / 2,
    ensures
        w == line_width(s@),
{
    let v = crate::text::str_to_chars(s);
    chars_width(&v)
}
} // verus!
