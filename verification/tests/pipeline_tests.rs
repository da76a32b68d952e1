//! Whole-pipeline scenarios, boundary behaviors, input decoding, and
//! the smaller support types.

use aadc::config::{exit_code_for_outcome, Config, Preset, Stats};
use aadc::input::parse_bytes_to_lines;
use aadc::scan::quick_scan_for_diagrams;
use aadc::style::VerboseStyle;

fn run(lines: &[&str], config: &Config) -> (Vec<String>, Stats) {
    let owned: Vec<String> = lines.iter().map(|l| l.to_string()).collect();
    aadc::correct::correct_lines(owned, config)
}

// =========================================================================
// Quick scan
// =========================================================================

#[test]
fn test_quick_scan_plain_text() {
    let lines = vec![
        "Hello world".to_string(),
        "This is plain text".to_string(),
        "No diagrams here".to_string(),
    ];
    let result = quick_scan_for_diagrams(&lines);

    assert!(!result.likely_has_diagrams);
    assert_eq!(result.lines_with_box_chars, 0);
}

#[test]
fn test_quick_scan_with_diagram_lines() {
    let lines = vec![
        "+---+".to_string(),
        "| a |".to_string(),
        "+---+".to_string(),
    ];
    let result = quick_scan_for_diagrams(&lines);

    assert!(result.likely_has_diagrams);
    assert!(100 * result.lines_with_box_chars >= result.lines_scanned);
}

#[test]
fn test_quick_scan_empty_document() {
    let lines: Vec<String> = vec![];
    let result = quick_scan_for_diagrams(&lines);
    assert_eq!(result.lines_scanned, 0);
    assert!(!result.likely_has_diagrams);
}

// =========================================================================
// End-to-end scenarios
// =========================================================================

#[test]
fn test_scenario_ascii_box_ragged_right() {
    let config = Config::new();
    let (out, _) = run(
        &[
            "+------------------+",
            "| Short|",
            "| Much longer text |",
            "| Medium|",
            "+------------------+",
        ],
        &config,
    );
    assert_eq!(out[0], "+------------------+");
    assert_eq!(out[1], "| Short            |");
    assert_eq!(out[2], "| Much longer text |");
    assert_eq!(out[3], "| Medium           |");
    assert_eq!(out[4], "+------------------+");
}

#[test]
fn test_scenario_unicode_box_with_cjk() {
    let config = Config::new();
    let (out, _) = run(
        &[
            "┌──────────────────┐",
            "│ Hello 你好│",
            "│ World 世界│",
            "└──────────────────┘",
        ],
        &config,
    );
    // Each CJK code point contributes 2 columns.
    assert_eq!(out[0], "┌──────────────────┐");
    assert_eq!(out[1], "│ Hello 你好       │");
    assert_eq!(out[2], "│ World 世界       │");
    assert_eq!(out[3], "└──────────────────┘");
}

#[test]
fn test_scenario_prose_passthrough() {
    let config = Config::new();
    let (out, stats) = run(&["Just plain text.", "No diagrams here."], &config);
    assert_eq!(out, vec!["Just plain text.", "No diagrams here."]);
    assert_eq!(stats.blocks_found, 0);
    assert_eq!(stats.total_revisions, 0);
}

#[test]
fn test_scenario_two_diagrams_split_by_blanks() {
    let config = Config::new();
    let (out, stats) = run(
        &["+----+", "| A|", "+----+", "", "", "+----+", "| B|", "+----+"],
        &config,
    );
    assert_eq!(stats.blocks_found, 2, "two blocks split by two blanks");
    assert_eq!(out[3], "");
    assert_eq!(out[4], "", "intervening blanks preserved");
    assert_eq!(out[1], "| A  |");
    assert_eq!(out[6], "| B  |");
}

#[test]
fn test_scenario_line_range_restriction() {
    let mut config = Config::new();
    config.lines = Some(vec![aadc::ranges::LineRange { start: 1, end: 2 }]);
    let (out, stats) = run(
        &["one", "two", "+---+", "| a|", "+---+"],
        &config,
    );
    assert_eq!(out[3], "| a|", "diagram outside the ranges is untouched");
    assert_eq!(stats.blocks_found, 1);
    assert_eq!(stats.blocks_modified, 0);
    assert_eq!(stats.blocks_skipped, 1);
}

#[test]
fn test_dry_run_exit_codes() {
    assert_eq!(exit_code_for_outcome(true, true), 3);
    assert_eq!(exit_code_for_outcome(true, false), 0);
    assert_eq!(exit_code_for_outcome(false, true), 0);
    assert_eq!(exit_code_for_outcome(false, false), 0);
}

// =========================================================================
// Boundary behaviors
// =========================================================================

#[test]
fn test_boundary_empty_document() {
    let config = Config::new();
    let (out, stats) = run(&[], &config);
    assert!(out.is_empty());
    assert_eq!(stats.blocks_found, 0);
    assert_eq!(stats.blocks_modified, 0);
    assert_eq!(stats.total_revisions, 0);
}

#[test]
fn test_boundary_block_at_document_edges() {
    // Block beginning exactly at BOF and ending exactly at EOF.
    let config = Config::new();
    let (out, stats) = run(&["+-----+", "| ab|", "+-----+"], &config);
    assert_eq!(stats.blocks_found, 1);
    assert_eq!(out[1], "| ab  |", "edge block corrected normally");
}

#[test]
fn test_boundary_one_blank_gap_preserved() {
    let config = Config::new();
    let (out, stats) = run(
        &["+-----+", "| a |", "", "| b |", "+-----+"],
        &config,
    );
    assert_eq!(stats.blocks_found, 1, "one-blank gap stays inside the block");
    assert_eq!(out[2], "", "the blank line survives in the output");
}

#[test]
fn test_boundary_two_blank_gap_splits() {
    let config = Config::new();
    let (_, stats) = run(
        &["+--+", "|a |", "+--+", "", "", "+--+", "|b |", "+--+"],
        &config,
    );
    assert_eq!(stats.blocks_found, 2, "two blanks split the blocks");
}

#[test]
fn test_idempotence_on_sample() {
    let config = Config::new();
    let (once, _) = run(
        &[
            "+------------------+",
            "| Short|",
            "| Much longer text |",
            "+------------------+",
        ],
        &config,
    );
    let (twice, stats) = aadc::correct::correct_lines(once.clone(), &config);
    assert_eq!(twice, once, "a second run changes nothing");
    assert_eq!(stats.total_revisions, 0);
}

#[test]
fn test_monotonicity_on_sample() {
    // Each output line holds its input line as a subsequence.
    let config = Config::new();
    let input = vec!["+-----+", "| a|", "| bc |", "+-----+"];
    let (out, _) = run(&input, &config);
    for (inp, outp) in input.iter().zip(out.iter()) {
        let mut oc = outp.chars();
        for c in inp.chars() {
            assert!(
                oc.any(|x| x == c),
                "{:?} is not a subsequence of {:?}",
                inp,
                outp
            );
        }
    }
}

#[test]
fn test_width_never_shrinks_on_sample() {
    let config = Config::new();
    let input = vec!["+-------+", "| x|", "+-------+"];
    let (out, _) = run(&input, &config);
    for (inp, outp) in input.iter().zip(out.iter()) {
        assert!(
            aadc::chars::visual_width(outp) >= aadc::chars::visual_width(inp),
            "{:?} narrower than {:?}",
            outp,
            inp
        );
    }
}

#[test]
fn test_line_count_preserved() {
    let config = Config::new();
    let input = vec!["x", "+--+", "|a |", "+--+", "y"];
    let (out, stats) = run(&input, &config);
    assert_eq!(out.len(), input.len());
    assert_eq!(stats.total_lines, input.len());
}

// =========================================================================
// Input decoding
// =========================================================================

#[test]
fn test_parse_bytes_plain_text() {
    let lines = parse_bytes_to_lines(b"one\ntwo\nthree".to_vec(), "stdin").unwrap();
    assert_eq!(lines, vec!["one", "two", "three"]);
}

#[test]
fn test_parse_bytes_trailing_newline() {
    let lines = parse_bytes_to_lines(b"one\ntwo\n".to_vec(), "stdin").unwrap();
    assert_eq!(lines, vec!["one", "two"]);
}

#[test]
fn test_parse_bytes_crlf() {
    let lines = parse_bytes_to_lines(b"one\r\ntwo\r\n".to_vec(), "stdin").unwrap();
    assert_eq!(lines, vec!["one", "two"]);
}

#[test]
fn test_parse_bytes_multibyte_roundtrip() {
    let lines = parse_bytes_to_lines("你好\n│ box │".as_bytes().to_vec(), "f.txt").unwrap();
    assert_eq!(lines, vec!["你好", "│ box │"]);
}

#[test]
fn test_parse_bytes_binary_rejected() {
    let err = parse_bytes_to_lines(vec![b'a', 0u8, b'b'], "f.bin").unwrap_err();
    assert_eq!(err, "Input appears to be binary: f.bin");
}

#[test]
fn test_parse_bytes_invalid_utf8_rejected() {
    let err = parse_bytes_to_lines(vec![b'o', b'k', 0xFF, b'x'], "f.txt").unwrap_err();
    assert!(err.contains("Invalid UTF-8 at byte position 2"));
    assert!(err.contains("0xFF"));
    assert!(err.contains("f.txt"));
}

#[test]
fn test_parse_bytes_empty() {
    let lines = parse_bytes_to_lines(Vec::new(), "stdin").unwrap();
    assert!(lines.is_empty());
}

// =========================================================================
// Presets, stats, styling
// =========================================================================

#[test]
fn test_preset_scores() {
    assert_eq!(Preset::Strict.min_score(), 800);
    assert_eq!(Preset::Normal.min_score(), 500);
    assert_eq!(Preset::Aggressive.min_score(), 300);
    assert_eq!(Preset::Relaxed.min_score(), 100);
}

#[test]
fn test_config_validation_bounds() {
    let mut config = Config::new();
    assert!(config.is_valid());
    config.max_iters = 0;
    assert!(!config.is_valid());
    config.max_iters = 1;
    config.tab_width = 0;
    assert!(!config.is_valid());
    config.tab_width = 17;
    assert!(!config.is_valid());
    config.tab_width = 16;
    assert!(config.is_valid());
    config.min_score = 1001;
    assert!(!config.is_valid());
}

#[test]
fn test_stats_merge() {
    let mut a = Stats::zero();
    a.blocks_found = 2;
    a.total_revisions = 5;
    a.total_lines = 10;
    let mut b = Stats::zero();
    b.blocks_found = 1;
    b.blocks_modified = 1;
    b.revisions_skipped = 3;
    b.total_lines = 7;
    a.merge(&b);
    assert_eq!(a.blocks_found, 3);
    assert_eq!(a.blocks_modified, 1);
    assert_eq!(a.total_revisions, 5);
    assert_eq!(a.revisions_skipped, 3);
    assert_eq!(a.total_lines, 17);
}

#[test]
fn test_stats_merge_saturates() {
    let mut a = Stats::zero();
    a.total_lines = usize::MAX;
    let mut b = Stats::zero();
    b.total_lines = 2;
    a.merge(&b);
    assert_eq!(a.total_lines, usize::MAX);
}

#[test]
fn test_verbose_style_wrap() {
    let plain = VerboseStyle::new(false);
    assert_eq!(plain.wrap("bold", "hi"), "hi");
    let colored = VerboseStyle::new(true);
    assert_eq!(colored.wrap("bold", "hi"), "[bold]hi[/]");
    assert_eq!(colored.header("t"), "[bold cyan]t[/]");
    assert_eq!(colored.separator(), "[dim]───[/]");
}
