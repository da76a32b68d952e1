//! Character classes and the visual-width model.

use aadc::chars::{
    is_border_char, is_box_char, is_corner, is_horizontal_fill, is_junction, is_vertical_border,
    visual_width,
};

// =========================================================================
// is_corner() tests - 13 corner characters
// =========================================================================

#[test]
fn test_is_corner_ascii() {
    assert!(is_corner('+'), "ASCII plus should be corner");
}

#[test]
fn test_is_corner_light() {
    assert!(is_corner('┌'), "light top-left corner");
    assert!(is_corner('┐'), "light top-right corner");
    assert!(is_corner('└'), "light bottom-left corner");
    assert!(is_corner('┘'), "light bottom-right corner");
}

#[test]
fn test_is_corner_double() {
    assert!(is_corner('╔'), "double top-left corner");
    assert!(is_corner('╗'), "double top-right corner");
    assert!(is_corner('╚'), "double bottom-left corner");
    assert!(is_corner('╝'), "double bottom-right corner");
}

#[test]
fn test_is_corner_rounded() {
    assert!(is_corner('╭'), "rounded top-left corner");
    assert!(is_corner('╮'), "rounded top-right corner");
    assert!(is_corner('╯'), "rounded bottom-right corner");
    assert!(is_corner('╰'), "rounded bottom-left corner");
}

#[test]
fn test_is_corner_negative() {
    assert!(!is_corner('-'), "horizontal fill is not corner");
    assert!(!is_corner('|'), "vertical border is not corner");
    assert!(!is_corner('a'), "letter is not corner");
    assert!(!is_corner(' '), "space is not corner");
    assert!(!is_corner('─'), "horizontal line is not corner");
    assert!(!is_corner('┼'), "junction is not corner");
}

// =========================================================================
// is_horizontal_fill() tests - 12 horizontal fill characters
// =========================================================================

#[test]
fn test_is_horizontal_fill_ascii() {
    assert!(is_horizontal_fill('-'), "ASCII dash");
    assert!(is_horizontal_fill('~'), "ASCII tilde");
    assert!(is_horizontal_fill('='), "ASCII equals");
}

#[test]
fn test_is_horizontal_fill_light() {
    assert!(is_horizontal_fill('─'), "light horizontal");
    assert!(is_horizontal_fill('╌'), "light dashed 2");
    assert!(is_horizontal_fill('┄'), "light dashed 3");
    assert!(is_horizontal_fill('┈'), "light dashed 4");
}

#[test]
fn test_is_horizontal_fill_heavy() {
    assert!(is_horizontal_fill('━'), "heavy horizontal");
    assert!(is_horizontal_fill('╍'), "heavy dashed 2");
    assert!(is_horizontal_fill('┅'), "heavy dashed 3");
    assert!(is_horizontal_fill('┉'), "heavy dashed 4");
}

#[test]
fn test_is_horizontal_fill_double() {
    assert!(is_horizontal_fill('═'), "double horizontal");
}

#[test]
fn test_is_horizontal_fill_negative() {
    assert!(!is_horizontal_fill('|'), "vertical is not horizontal");
    assert!(!is_horizontal_fill('+'), "corner is not horizontal fill");
    assert!(!is_horizontal_fill('a'), "letter is not horizontal fill");
    assert!(!is_horizontal_fill(' '), "space is not horizontal fill");
    assert!(!is_horizontal_fill('│'), "vertical line is not horizontal");
}

// =========================================================================
// is_vertical_border() tests - 10 vertical border characters
// =========================================================================

#[test]
fn test_is_vertical_border_ascii() {
    assert!(is_vertical_border('|'), "ASCII pipe");
}

#[test]
fn test_is_vertical_border_light() {
    assert!(is_vertical_border('│'), "light vertical");
    assert!(is_vertical_border('╎'), "light dashed 2");
    assert!(is_vertical_border('┆'), "light dashed 3");
    assert!(is_vertical_border('┊'), "light dashed 4");
}

#[test]
fn test_is_vertical_border_heavy() {
    assert!(is_vertical_border('┃'), "heavy vertical");
    assert!(is_vertical_border('╏'), "heavy dashed 2");
    assert!(is_vertical_border('┇'), "heavy dashed 3");
    assert!(is_vertical_border('┋'), "heavy dashed 4");
}

#[test]
fn test_is_vertical_border_double() {
    assert!(is_vertical_border('║'), "double vertical");
}

#[test]
fn test_is_vertical_border_negative() {
    assert!(!is_vertical_border('-'), "horizontal is not vertical");
    assert!(!is_vertical_border('+'), "corner is not vertical border");
    assert!(!is_vertical_border('a'), "letter is not vertical border");
    assert!(!is_vertical_border(' '), "space is not vertical border");
    assert!(!is_vertical_border('─'), "horizontal line is not vertical");
}

// =========================================================================
// is_junction() tests - 16 junction characters
// =========================================================================

#[test]
fn test_is_junction_light() {
    assert!(is_junction('┬'), "light down and horizontal");
    assert!(is_junction('┴'), "light up and horizontal");
    assert!(is_junction('├'), "light vertical and right");
    assert!(is_junction('┤'), "light vertical and left");
    assert!(is_junction('┼'), "light vertical and horizontal");
}

#[test]
fn test_is_junction_double() {
    assert!(is_junction('╦'), "double down and horizontal");
    assert!(is_junction('╩'), "double up and horizontal");
    assert!(is_junction('╠'), "double vertical and right");
    assert!(is_junction('╣'), "double vertical and left");
    assert!(is_junction('╬'), "double vertical and horizontal");
}

#[test]
fn test_is_junction_mixed() {
    assert!(is_junction('╤'), "down single and horizontal double");
    assert!(is_junction('╧'), "up single and horizontal double");
    assert!(is_junction('╟'), "vertical double and right single");
    assert!(is_junction('╢'), "vertical double and left single");
    assert!(is_junction('╫'), "vertical double and horizontal single");
    assert!(is_junction('╪'), "vertical single and horizontal double");
}

#[test]
fn test_is_junction_negative() {
    assert!(!is_junction('+'), "ASCII plus is corner, not junction");
    assert!(!is_junction('┌'), "corner is not junction");
    assert!(!is_junction('─'), "horizontal is not junction");
    assert!(!is_junction('│'), "vertical is not junction");
    assert!(!is_junction('a'), "letter is not junction");
}

// =========================================================================
// is_box_char() tests - composite function
// =========================================================================

#[test]
fn test_is_box_char_corners() {
    assert!(is_box_char('+'), "ASCII corner is box char");
    assert!(is_box_char('┌'), "light corner is box char");
    assert!(is_box_char('╔'), "double corner is box char");
    assert!(is_box_char('╭'), "rounded corner is box char");
}

#[test]
fn test_is_box_char_horizontals() {
    assert!(is_box_char('-'), "ASCII dash is box char");
    assert!(is_box_char('─'), "light horizontal is box char");
    assert!(is_box_char('═'), "double horizontal is box char");
}

#[test]
fn test_is_box_char_verticals() {
    assert!(is_box_char('|'), "ASCII pipe is box char");
    assert!(is_box_char('│'), "light vertical is box char");
    assert!(is_box_char('║'), "double vertical is box char");
}

#[test]
fn test_is_box_char_junctions() {
    assert!(is_box_char('┼'), "light junction is box char");
    assert!(is_box_char('╬'), "double junction is box char");
    assert!(is_box_char('╪'), "mixed junction is box char");
}

#[test]
fn test_is_box_char_negative() {
    assert!(!is_box_char('a'), "letter is not box char");
    assert!(!is_box_char(' '), "space is not box char");
    assert!(!is_box_char('0'), "digit is not box char");
    assert!(!is_box_char('\n'), "newline is not box char");
    assert!(!is_box_char('中'), "CJK char is not box char");
}

// =========================================================================
// is_border_char() tests
// =========================================================================

#[test]
fn test_is_border_char_verticals() {
    assert!(is_border_char('|'), "ASCII pipe is border char");
    assert!(is_border_char('│'), "light vertical is border char");
    assert!(is_border_char('║'), "double vertical is border char");
}

#[test]
fn test_is_border_char_corners() {
    assert!(is_border_char('+'), "ASCII corner is border char");
    assert!(is_border_char('┐'), "unicode corner is border char");
    assert!(is_border_char('╝'), "double corner is border char");
}

#[test]
fn test_is_border_char_junctions() {
    assert!(is_border_char('┤'), "junction is border char");
    assert!(is_border_char('╣'), "double junction is border char");
    assert!(is_border_char('╢'), "mixed junction is border char");
}

#[test]
fn test_is_border_char_negative() {
    assert!(!is_border_char('-'), "horizontal fill is not border char");
    assert!(!is_border_char('a'), "letter is not border char");
    assert!(!is_border_char(' '), "space is not border char");
}

// =========================================================================
// visual_width() tests
// =========================================================================

#[test]
fn test_visual_width_empty() {
    assert_eq!(visual_width(""), 0);
}

#[test]
fn test_visual_width_ascii() {
    assert_eq!(visual_width("hello"), 5);
    assert_eq!(visual_width("a b c"), 5);
    assert_eq!(visual_width("test!"), 5);
}

#[test]
fn test_visual_width_box_chars() {
    assert_eq!(visual_width("│──│"), 4);
    assert_eq!(visual_width("┌──┐"), 4);
    assert_eq!(visual_width("╔══╗"), 4);
}

#[test]
fn test_visual_width_cjk() {
    // CJK characters are double-width
    assert_eq!(visual_width("中"), 2);
    assert_eq!(visual_width("中文"), 4);
    assert_eq!(visual_width("日本語"), 6);
}

#[test]
fn test_visual_width_mixed_ascii_cjk() {
    // "a中b" = 1 + 2 + 1 = 4
    assert_eq!(visual_width("a中b"), 4);
    assert_eq!(visual_width("hi中文"), 6); // 2 + 2 + 2
}

#[test]
fn test_visual_width_box_and_cjk() {
    // Box chars in CJK context
    assert_eq!(visual_width("│中│"), 4); // 1 + 2 + 1
}
