//! The correction pipeline end to end, through `correct_lines`.

use aadc::analyze::{classify_line, LineKind};
use aadc::chars::visual_width;
use aadc::config::Config;
use aadc::ranges::LineRange;

fn make_test_config() -> Config {
    Config::new()
}

#[test]
fn test_correction_simple() {
    let config = make_test_config();

    let lines = vec![
        "+------+".to_string(),
        "| short|".to_string(),
        "| longer |".to_string(),
        "+------+".to_string(),
    ];

    let (corrected, stats) = aadc::correct::correct_lines(lines, &config);

    // Should find and process the block
    assert_eq!(stats.blocks_found, 1);

    // All right borders should be aligned
    let widths: Vec<usize> = corrected
        .iter()
        .filter(|l| classify_line(l).is_boxy())
        .map(|l| visual_width(l.trim_end()))
        .collect();

    // Check that boxy lines have consistent width
    if !widths.is_empty() {
        let first = widths[0];
        assert!(widths.iter().all(|&w| w == first || w >= first - 2));
    }
}

#[test]
fn test_correction_no_diagrams() {
    let config = make_test_config();

    let lines = vec![
        "Just plain text".to_string(),
        "No diagrams here".to_string(),
    ];

    let (corrected, stats) = aadc::correct::correct_lines(lines.clone(), &config);
    assert_eq!(stats.blocks_found, 0);
    assert_eq!(stats.blocks_modified, 0);
    assert_eq!(corrected, lines, "content should be unchanged");
}

#[test]
fn test_correction_already_aligned() {
    let config = make_test_config();

    let lines = vec![
        "+------+".to_string(),
        "| text |".to_string(),
        "+------+".to_string(),
    ];

    let (corrected, stats) = aadc::correct::correct_lines(lines.clone(), &config);
    assert_eq!(stats.blocks_found, 1);
    // Perfectly aligned blocks should not be modified
    assert_eq!(corrected, lines);
}

#[test]
fn test_correction_unicode() {
    let config = make_test_config();

    let lines = vec![
        "┌───────┐".to_string(),
        "│ short│".to_string(),
        "│ longer │".to_string(),
        "└───────┘".to_string(),
    ];

    let (corrected, stats) = aadc::correct::correct_lines(lines, &config);
    assert_eq!(stats.blocks_found, 1);
    // Verify correction ran successfully (at least one block found and processed)
    assert!(!corrected.is_empty());
}

#[test]
fn test_correction_with_tabs() {
    let config = make_test_config();

    let lines = vec![
        "+------+".to_string(),
        "|\thi|".to_string(), // Tab should be expanded
        "+------+".to_string(),
    ];

    let (corrected, _) = aadc::correct::correct_lines(lines, &config);
    // Tab should be expanded to spaces
    assert!(!corrected[1].contains('\t'), "tabs should be expanded");
}

#[test]
fn test_correction_max_iters_limit() {
    let mut config = make_test_config();
    config.max_iters = 1; // Only 1 iteration
    config.min_score = 100;

    let lines = vec![
        "+--------+".to_string(),
        "| a|".to_string(),
        "| longer |".to_string(),
        "+--------+".to_string(),
    ];

    let (corrected, stats) = aadc::correct::correct_lines(lines, &config);
    assert_eq!(stats.blocks_found, 1);
    // With limited iterations, some progress should still be made
    assert!(corrected.len() == 4);
}

#[test]
fn test_correction_min_score_filter() {
    let mut config = make_test_config();
    config.min_score = 950; // Very strict

    let lines = vec![
        "+------+".to_string(),
        "| text|".to_string(),
        "+------+".to_string(),
    ];

    let (corrected, _) = aadc::correct::correct_lines(lines.clone(), &config);
    // With very strict min_score, fewer changes should be made
    // The exact behavior depends on the scoring implementation
    assert!(corrected.len() == 3);
}

#[test]
fn test_correction_multiple_blocks() {
    let config = make_test_config();

    let lines = vec![
        "+--+".to_string(),
        "| A|".to_string(),
        "+--+".to_string(),
        "text".to_string(),
        "more".to_string(),
        "even more".to_string(),
        "still more".to_string(),
        "+--+".to_string(),
        "| B|".to_string(),
        "+--+".to_string(),
    ];

    let (corrected, stats) = aadc::correct::correct_lines(lines, &config);
    assert_eq!(stats.blocks_found, 2, "should find two blocks");
    assert_eq!(corrected.len(), 10);
}

#[test]
fn test_correction_empty_input() {
    let config = make_test_config();

    let lines: Vec<String> = vec![];
    let (corrected, stats) = aadc::correct::correct_lines(lines, &config);
    assert_eq!(stats.blocks_found, 0);
    assert!(corrected.is_empty());
}

#[test]
fn test_correction_preserves_non_diagram_content() {
    let config = make_test_config();

    let lines = vec![
        "# Header".to_string(),
        "".to_string(),
        "+---+".to_string(),
        "| x|".to_string(),
        "+---+".to_string(),
        "".to_string(),
        "Footer text".to_string(),
    ];

    let (corrected, _) = aadc::correct::correct_lines(lines, &config);
    assert_eq!(corrected[0], "# Header");
    assert_eq!(corrected[6], "Footer text");
}

#[test]
fn test_correct_lines_passthrough_skips_tabs() {
    let lines = vec!["\tPlain text".to_string()];
    let config = make_test_config();
    let (corrected, stats) = aadc::correct::correct_lines(lines.clone(), &config);

    assert_eq!(corrected, lines);
    assert_eq!(stats.blocks_found, 0);
    assert_eq!(stats.total_revisions, 0);
}

#[test]
fn test_correct_lines_all_blocks_bypasses_quick_scan() {
    let lines = vec!["\tPlain text".to_string()];
    let mut config = make_test_config();
    config.all_blocks = true;
    let (corrected, _stats) = aadc::correct::correct_lines(lines.clone(), &config);

    assert_ne!(corrected, lines);
    assert_eq!(corrected[0], "    Plain text");
}

#[test]
fn test_correct_lines_with_ranges() {
    // Test that line ranges filter which blocks get processed
    // We use a single diagram and verify it's only processed when within range
    let input = "Line 1 prose\nLine 2 prose\n+------+\n| Hi|\n+------+\nLine 6 prose\nLine 7 prose";

    let lines: Vec<String> = input.lines().map(String::from).collect();

    // Test 1: Process lines 3-5 (where diagram is) - diagram SHOULD be corrected
    let mut config = make_test_config();
    config.lines = Some(vec![LineRange { start: 3, end: 5 }]);
    config.all_blocks = true;

    let (output, stats) = aadc::correct::correct_lines(lines.clone(), &config);

    // Diagram lines should be corrected (right border aligned)
    assert!(
        output[3].contains("| Hi") && output[3].ends_with("|"),
        "Diagram should be corrected when in range, got: {:?}",
        output[3]
    );
    assert!(
        stats.blocks_modified >= 1,
        "At least one block should be modified"
    );

    // Test 2: Process lines 1-2 (before diagram) - diagram should NOT be corrected
    let mut config2 = make_test_config();
    config2.lines = Some(vec![LineRange { start: 1, end: 2 }]);
    config2.all_blocks = true;

    let (output2, stats2) = aadc::correct::correct_lines(lines.clone(), &config2);

    // Diagram should be unchanged (original input)
    assert_eq!(
        output2[3], "| Hi|",
        "Diagram outside range should be unchanged"
    );
    assert_eq!(
        stats2.blocks_modified, 0,
        "No blocks should be modified when range excludes diagram"
    );

    // Test 3: Process lines 6-7 (after diagram) - diagram should NOT be corrected
    let mut config3 = make_test_config();
    config3.lines = Some(vec![LineRange { start: 6, end: 7 }]);
    config3.all_blocks = true;

    let (output3, stats3) = aadc::correct::correct_lines(lines.clone(), &config3);

    // Diagram should be unchanged
    assert_eq!(
        output3[3], "| Hi|",
        "Diagram outside range should be unchanged"
    );
    assert_eq!(
        stats3.blocks_modified, 0,
        "No blocks should be modified when range excludes diagram"
    );
}

#[test]
fn test_effective_min_score_with_preset() {
    let mut config = Config::new();
    config.preset = Some(aadc::config::Preset::Strict);
    assert_eq!(config.effective_min_score(), 800);
}

#[test]
fn test_effective_min_score_without_preset() {
    let mut config = Config::new();
    config.min_score = 420;
    assert_eq!(config.effective_min_score(), 420);
}

#[test]
fn test_classify_kind_is_boxy() {
    assert!(LineKind::Weak.is_boxy());
    assert!(LineKind::Strong.is_boxy());
    assert!(!LineKind::Blank.is_boxy());
    assert!(!LineKind::Prose.is_boxy());
}
