//! Revision scoring and application. Scores are in thousandths, so
//! the documentation's 0-to-1 scale reads as 0 to 1000 here.

use aadc::analyze::{analyze_line, AnalyzedLine};
use aadc::revise::Revision;

fn make_analyzed_lines(lines: &[&str]) -> Vec<AnalyzedLine> {
    lines.iter().map(|l| analyze_line(l)).collect()
}

// =========================================================================
// Revision::score() tests
// =========================================================================

#[test]
fn test_revision_score_pad_small_adjustment() {
    let lines = vec!["| short|", "| longer |"];
    let analyzed = make_analyzed_lines(&lines);
    // Small padding (2 spaces) should have high score
    let rev = Revision::PadBeforeSuffixBorder {
        line_idx: 0,
        spaces_to_add: 2,
        target_column: 10,
    };
    let score = rev.score(&analyzed, 0);
    // Base 800 - 200 penalty + 200 strong bonus = 800 for strong line
    assert!(
        (600..=1000).contains(&score),
        "score={} should be in [600, 1000]",
        score
    );
}

#[test]
fn test_revision_score_pad_large_adjustment() {
    let lines = vec!["| x|", "| very long content |"];
    let analyzed = make_analyzed_lines(&lines);
    // Large padding should have lower score
    let rev = Revision::PadBeforeSuffixBorder {
        line_idx: 0,
        spaces_to_add: 10,
        target_column: 20,
    };
    let score = rev.score(&analyzed, 0);
    // 10 spaces = 1000 penalty capped at 500, so 800 - 500 = 300 base
    assert!(
        (0..=800).contains(&score),
        "large adjustment score={} should be lower",
        score
    );
}

#[test]
fn test_revision_score_pad_strong_line_bonus() {
    let lines = vec!["+---+", "| x |"];
    let analyzed = make_analyzed_lines(&lines);
    let rev = Revision::PadBeforeSuffixBorder {
        line_idx: 0,
        spaces_to_add: 2,
        target_column: 8,
    };
    let score = rev.score(&analyzed, 0);
    // Strong line gets 200 bonus
    assert!(score > 700, "strong line should get bonus, score={}", score);
}

#[test]
fn test_revision_score_add_border_base() {
    let lines = vec!["| text", "| other |"];
    let analyzed = make_analyzed_lines(&lines);
    let rev = Revision::AddSuffixBorder {
        line_idx: 0,
        border_char: '|',
        target_column: 10,
    };
    let score = rev.score(&analyzed, 0);
    // AddSuffixBorder has base 500 + 100-200 strength bonus
    assert!(
        (500..=800).contains(&score),
        "add border score={} should be moderate",
        score
    );
}

#[test]
fn test_revision_score_add_border_strong_line() {
    let lines = vec!["+----", "+----+"];
    let analyzed = make_analyzed_lines(&lines);
    let rev = Revision::AddSuffixBorder {
        line_idx: 0,
        border_char: '+',
        target_column: 6,
    };
    let score = rev.score(&analyzed, 0);
    // Strong line gets 200 bonus instead of 100
    assert!(
        score >= 600,
        "strong line add border score={} should be higher",
        score
    );
}

#[test]
fn test_revision_score_with_block_offset() {
    // Test that block_start offset is correctly applied
    let lines = vec!["| hello|", "| world |"];
    let analyzed = make_analyzed_lines(&lines);
    // Simulate being at block offset 5 in global lines
    let rev = Revision::PadBeforeSuffixBorder {
        line_idx: 5,
        spaces_to_add: 2,
        target_column: 10,
    };
    let score = rev.score(&analyzed, 5);
    assert!(score > 0, "should correctly index with block offset");
}

// =========================================================================
// Revision::apply() tests
// =========================================================================

#[test]
fn test_revision_apply_pad_ascii() {
    let mut lines = vec!["| short|".to_string()];
    let rev = Revision::PadBeforeSuffixBorder {
        line_idx: 0,
        spaces_to_add: 3,
        target_column: 10,
    };
    rev.apply(&mut lines);
    assert_eq!(lines[0], "| short   |", "should pad before closing border");
}

#[test]
fn test_revision_apply_pad_unicode() {
    let mut lines = vec!["│ text│".to_string()];
    let rev = Revision::PadBeforeSuffixBorder {
        line_idx: 0,
        spaces_to_add: 2,
        target_column: 10,
    };
    rev.apply(&mut lines);
    assert_eq!(lines[0], "│ text  │", "should pad before unicode border");
}

#[test]
fn test_revision_apply_pad_corner() {
    let mut lines = vec!["+---+".to_string()];
    let rev = Revision::PadBeforeSuffixBorder {
        line_idx: 0,
        spaces_to_add: 2,
        target_column: 7,
    };
    rev.apply(&mut lines);
    assert_eq!(lines[0], "+---  +", "should pad before corner");
}

#[test]
fn test_revision_apply_pad_preserves_other_lines() {
    let mut lines = vec!["| first|".to_string(), "| second |".to_string()];
    let rev = Revision::PadBeforeSuffixBorder {
        line_idx: 0,
        spaces_to_add: 2,
        target_column: 10,
    };
    rev.apply(&mut lines);
    assert_eq!(lines[0], "| first  |");
    assert_eq!(lines[1], "| second |", "other lines should be unchanged");
}

#[test]
fn test_revision_apply_add_border_ascii() {
    let mut lines = vec!["| text".to_string()];
    let rev = Revision::AddSuffixBorder {
        line_idx: 0,
        border_char: '|',
        target_column: 10,
    };
    rev.apply(&mut lines);
    assert_eq!(
        lines[0], "| text    |",
        "should add border at target column"
    );
}

#[test]
fn test_revision_apply_add_border_unicode() {
    let mut lines = vec!["│ hello".to_string()];
    let rev = Revision::AddSuffixBorder {
        line_idx: 0,
        border_char: '│',
        target_column: 12,
    };
    rev.apply(&mut lines);
    assert_eq!(lines[0], "│ hello     │", "should add unicode border");
}

#[test]
fn test_revision_apply_add_corner() {
    let mut lines = vec!["+----".to_string()];
    let rev = Revision::AddSuffixBorder {
        line_idx: 0,
        border_char: '+',
        target_column: 6,
    };
    rev.apply(&mut lines);
    assert_eq!(lines[0], "+---- +", "should add corner");
}

#[test]
fn test_revision_apply_add_border_no_extra_padding() {
    let mut lines = vec!["| exact len|".to_string()];
    // If current width >= target, padding should be 0
    let rev = Revision::AddSuffixBorder {
        line_idx: 0,
        border_char: '|',
        target_column: 5, // Less than current width
    };
    rev.apply(&mut lines);
    // Should add border with no padding
    assert!(lines[0].ends_with('|'), "should still add border");
}

#[test]
fn test_revision_apply_pad_defensive_drop() {
    // A pad aimed at a line that does not end in a border character is
    // silently dropped.
    let mut lines = vec!["no border here".to_string()];
    let rev = Revision::PadBeforeSuffixBorder {
        line_idx: 0,
        spaces_to_add: 3,
        target_column: 20,
    };
    rev.apply(&mut lines);
    assert_eq!(lines[0], "no border here", "revision must be dropped");
}

#[test]
fn test_revision_apply_add_discards_trailing_whitespace() {
    let mut lines = vec!["| text   ".to_string()];
    let rev = Revision::AddSuffixBorder {
        line_idx: 0,
        border_char: '|',
        target_column: 7,
    };
    rev.apply(&mut lines);
    assert_eq!(lines[0], "| text |", "trailing whitespace is discarded");
}
