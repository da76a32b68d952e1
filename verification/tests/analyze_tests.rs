//! Line classification, analysis, suffix borders, and the border
//! character choice.

use aadc::analyze::{
    analyze_line, classify_line, detect_suffix_border, detect_vertical_border, LineKind,
};

// =========================================================================
// classify_line() tests
// =========================================================================

#[test]
fn test_classify_line_blank_empty() {
    assert_eq!(classify_line(""), LineKind::Blank);
}

#[test]
fn test_classify_line_blank_spaces() {
    assert_eq!(classify_line("   "), LineKind::Blank);
    assert_eq!(classify_line("      "), LineKind::Blank);
}

#[test]
fn test_classify_line_blank_tabs() {
    assert_eq!(classify_line("\t"), LineKind::Blank);
    assert_eq!(classify_line("\t\t"), LineKind::Blank);
}

#[test]
fn test_classify_line_blank_mixed_whitespace() {
    assert_eq!(classify_line("  \t  "), LineKind::Blank);
}

#[test]
fn test_classify_line_none_plain_text() {
    assert_eq!(classify_line("hello world"), LineKind::Prose);
    assert_eq!(classify_line("fn main() {}"), LineKind::Prose);
}

#[test]
fn test_classify_line_none_numbers() {
    assert_eq!(classify_line("12345"), LineKind::Prose);
    assert_eq!(classify_line("3.14159"), LineKind::Prose);
}

#[test]
fn test_classify_line_none_punctuation() {
    assert_eq!(classify_line("..."), LineKind::Prose);
    assert_eq!(classify_line("???"), LineKind::Prose);
}

#[test]
fn test_classify_line_strong_ascii_corners() {
    assert_eq!(classify_line("+---+"), LineKind::Strong);
    assert_eq!(classify_line("+--+"), LineKind::Strong);
}

#[test]
fn test_classify_line_strong_border_both_sides() {
    assert_eq!(classify_line("| x |"), LineKind::Strong);
    assert_eq!(classify_line("| content |"), LineKind::Strong);
}

#[test]
fn test_classify_line_strong_unicode_light() {
    assert_eq!(classify_line("┌───┐"), LineKind::Strong);
    assert_eq!(classify_line("│ y │"), LineKind::Strong);
    assert_eq!(classify_line("└───┘"), LineKind::Strong);
}

#[test]
fn test_classify_line_strong_unicode_double() {
    assert_eq!(classify_line("╔═══╗"), LineKind::Strong);
    assert_eq!(classify_line("║ z ║"), LineKind::Strong);
    assert_eq!(classify_line("╚═══╝"), LineKind::Strong);
}

#[test]
fn test_classify_line_strong_high_ratio() {
    // More than 1/3 box chars = strong
    assert_eq!(classify_line("---"), LineKind::Strong);
    assert_eq!(classify_line("───────"), LineKind::Strong);
}

#[test]
fn test_classify_line_weak_few_box_chars() {
    // Has box chars but doesn't meet strong criteria
    assert_eq!(classify_line("text | here"), LineKind::Weak);
    assert_eq!(classify_line("a - b"), LineKind::Weak);
}

#[test]
fn test_classify_line_weak_single_border() {
    // Only one side has border
    assert_eq!(classify_line("| text"), LineKind::Weak);
    assert_eq!(classify_line("text |"), LineKind::Weak);
}

// =========================================================================
// analyze_line() tests
// =========================================================================

#[test]
fn test_analyze_line_blank() {
    let result = analyze_line("");
    assert_eq!(result.kind, LineKind::Blank);
    assert_eq!(result.visual_width, 0);
    assert!(result.suffix_border.is_none());
}

#[test]
fn test_analyze_line_strong_with_border() {
    let result = analyze_line("| hello |");
    assert_eq!(result.kind, LineKind::Strong);
    assert_eq!(result.visual_width, 9);
    assert!(result.suffix_border.is_some());
    let border = result.suffix_border.unwrap();
    assert_eq!(border.char, '|');
}

#[test]
fn test_analyze_line_indented() {
    let result = analyze_line("  | text |");
    assert_eq!(result.indent, 2);
    assert_eq!(result.kind, LineKind::Strong);
}

#[test]
fn test_analyze_line_no_suffix_border() {
    let result = analyze_line("| missing end");
    assert_eq!(result.kind, LineKind::Weak);
    assert!(result.suffix_border.is_none());
}

#[test]
fn test_analyze_line_unicode_border() {
    let result = analyze_line("│ content │");
    assert_eq!(result.kind, LineKind::Strong);
    assert!(result.suffix_border.is_some());
    let border = result.suffix_border.unwrap();
    assert_eq!(border.char, '│');
}

// =========================================================================
// detect_suffix_border() tests
// =========================================================================

#[test]
fn test_detect_suffix_border_ascii_pipe() {
    let border = detect_suffix_border("| hello |");
    assert!(border.is_some());
    let b = border.unwrap();
    assert_eq!(b.char, '|');
    assert!(!b.is_closing);
    assert_eq!(b.column, 8);
}

#[test]
fn test_detect_suffix_border_unicode_light() {
    let border = detect_suffix_border("│ text │");
    assert!(border.is_some());
    let b = border.unwrap();
    assert_eq!(b.char, '│');
    assert!(!b.is_closing);
}

#[test]
fn test_detect_suffix_border_corner() {
    let border = detect_suffix_border("+---+");
    assert!(border.is_some());
    let b = border.unwrap();
    assert_eq!(b.char, '+');
    assert!(b.is_closing);
}

#[test]
fn test_detect_suffix_border_unicode_corner() {
    let border = detect_suffix_border("┌───┐");
    assert!(border.is_some());
    let b = border.unwrap();
    assert_eq!(b.char, '┐');
    assert!(b.is_closing);
}

#[test]
fn test_detect_suffix_border_junction() {
    let border = detect_suffix_border("│ a ┤");
    assert!(border.is_some());
    let b = border.unwrap();
    assert_eq!(b.char, '┤');
    assert!(b.is_closing);
}

#[test]
fn test_detect_suffix_border_none_no_border() {
    let border = detect_suffix_border("hello world");
    assert!(border.is_none());
}

#[test]
fn test_detect_suffix_border_none_empty() {
    let border = detect_suffix_border("");
    assert!(border.is_none());
}

#[test]
fn test_detect_suffix_border_trailing_spaces() {
    // Should detect border despite trailing spaces
    let border = detect_suffix_border("| text |   ");
    assert!(border.is_some());
    let b = border.unwrap();
    assert_eq!(b.char, '|');
}

#[test]
fn test_detect_suffix_border_column_position() {
    let border = detect_suffix_border("| ab |");
    assert!(border.is_some());
    let b = border.unwrap();
    // "| ab |" has visual width 6, column of | is 5 (0-indexed)
    assert_eq!(b.column, 5);
}

#[test]
fn test_detect_suffix_border() {
    let border = detect_suffix_border("| hello |");
    assert!(border.is_some());
    let b = border.unwrap();
    assert_eq!(b.char, '|');
    assert!(!b.is_closing);

    let no_border = detect_suffix_border("hello world");
    assert!(no_border.is_none());
}

// =========================================================================
// detect_vertical_border() tests - frequency-based detection
// =========================================================================

#[test]
fn test_detect_vertical_border_ascii() {
    let lines = vec!["| hello |", "| world |"];
    assert_eq!(detect_vertical_border(&lines), '|');
}

#[test]
fn test_detect_vertical_border_unicode_light() {
    let lines = vec!["│ hello │", "│ world │"];
    assert_eq!(detect_vertical_border(&lines), '│');
}

#[test]
fn test_detect_vertical_border_unicode_double() {
    let lines = vec!["║ hello ║", "║ world ║"];
    assert_eq!(detect_vertical_border(&lines), '║');
}

#[test]
fn test_detect_vertical_border_mixed_prefers_most_common() {
    let lines = vec!["│ a │", "│ b │", "│ c │", "| d |"];
    // 6 occurrences of │ vs 2 occurrences of |
    assert_eq!(detect_vertical_border(&lines), '│');
}

#[test]
fn test_detect_vertical_border_empty_defaults_to_ascii() {
    let lines: Vec<&str> = vec![];
    assert_eq!(detect_vertical_border(&lines), '|');
}

#[test]
fn test_detect_vertical_border_no_borders_defaults_to_ascii() {
    let lines = vec!["hello world", "no borders here"];
    assert_eq!(detect_vertical_border(&lines), '|');
}

#[test]
fn test_detect_vertical_border_tie_prefers_first_seen() {
    // Two borders tied on frequency: the one seen first wins.
    let lines = vec!["│x|", "|x│"];
    assert_eq!(detect_vertical_border(&lines), '│');
}
