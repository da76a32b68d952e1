//! Block detection over whole documents. Confidence is reported in
//! thousandths.

use aadc::blocks::find_diagram_blocks;

#[test]
fn test_find_diagram_blocks_simple() {
    let lines: Vec<String> = vec![
        "Some text".to_string(),
        "+---+".to_string(),
        "| x |".to_string(),
        "+---+".to_string(),
        "More text".to_string(),
    ];

    let blocks = find_diagram_blocks(&lines, false);
    assert_eq!(blocks.len(), 1);
    assert_eq!(blocks[0].start, 1);
    assert_eq!(blocks[0].end, 4);
}

#[test]
fn test_find_diagram_blocks_no_diagrams() {
    let lines: Vec<String> = vec![
        "Just plain text".to_string(),
        "No diagrams here".to_string(),
        "More text".to_string(),
    ];

    let blocks = find_diagram_blocks(&lines, false);
    assert_eq!(blocks.len(), 0);
}

#[test]
fn test_find_diagram_blocks_multiple() {
    // Need more than 3 non-boxy lines to prevent lookahead merging
    let lines: Vec<String> = vec![
        "+--+".to_string(),
        "| A|".to_string(),
        "+--+".to_string(),
        "plain text".to_string(),
        "more text".to_string(),
        "even more".to_string(),
        "still more".to_string(),
        "+--+".to_string(),
        "| B|".to_string(),
        "+--+".to_string(),
    ];

    let blocks = find_diagram_blocks(&lines, false);
    assert_eq!(blocks.len(), 2, "should find two separate blocks");
    assert_eq!(blocks[0].start, 0);
    assert_eq!(blocks[0].end, 3);
    assert_eq!(blocks[1].start, 7);
    assert_eq!(blocks[1].end, 10);
}

#[test]
fn test_find_diagram_blocks_with_blank_gap() {
    let lines: Vec<String> = vec![
        "+---+".to_string(),
        "| a |".to_string(),
        "".to_string(), // Single blank allowed
        "| b |".to_string(),
        "+---+".to_string(),
    ];

    let blocks = find_diagram_blocks(&lines, false);
    assert_eq!(blocks.len(), 1, "single blank gap should be allowed");
    assert_eq!(blocks[0].start, 0);
    assert_eq!(blocks[0].end, 5);
}

#[test]
fn test_find_diagram_blocks_large_gap_splits() {
    let lines: Vec<String> = vec![
        "+--+".to_string(),
        "| A|".to_string(),
        "+--+".to_string(),
        "".to_string(),
        "".to_string(), // Two blank lines should split
        "+--+".to_string(),
        "| B|".to_string(),
        "+--+".to_string(),
    ];

    let blocks = find_diagram_blocks(&lines, false);
    assert_eq!(blocks.len(), 2, "double blank gap should split blocks");
}

#[test]
fn test_find_diagram_blocks_unicode() {
    let lines: Vec<String> = vec![
        "┌───┐".to_string(),
        "│ x │".to_string(),
        "└───┘".to_string(),
    ];

    let blocks = find_diagram_blocks(&lines, false);
    assert_eq!(blocks.len(), 1);
    assert_eq!(blocks[0].start, 0);
    assert_eq!(blocks[0].end, 3);
}

#[test]
fn test_find_diagram_blocks_at_start() {
    let lines: Vec<String> = vec!["+--+".to_string(), "|xy|".to_string(), "+--+".to_string()];

    let blocks = find_diagram_blocks(&lines, false);
    assert_eq!(blocks.len(), 1);
    assert_eq!(blocks[0].start, 0);
}

#[test]
fn test_find_diagram_blocks_at_end() {
    let lines: Vec<String> = vec![
        "text".to_string(),
        "+--+".to_string(),
        "|xy|".to_string(),
        "+--+".to_string(),
    ];

    let blocks = find_diagram_blocks(&lines, false);
    assert_eq!(blocks.len(), 1);
    assert_eq!(blocks[0].end, 4, "should go to end of lines");
}

#[test]
fn test_find_diagram_blocks_confidence_high() {
    let lines: Vec<String> = vec![
        "+------+".to_string(),
        "| text |".to_string(),
        "| more |".to_string(),
        "+------+".to_string(),
    ];

    let blocks = find_diagram_blocks(&lines, false);
    assert_eq!(blocks.len(), 1);
    assert!(
        blocks[0].confidence > 500,
        "all strong lines should have high confidence"
    );
}

#[test]
fn test_find_diagram_blocks_all_flag() {
    let lines: Vec<String> = vec![
        "text | here".to_string(), // Weak line
        "more".to_string(),
    ];

    // Without all_blocks flag, low confidence blocks are skipped
    let blocks_default = find_diagram_blocks(&lines, false);

    // With all_blocks flag, low confidence blocks are included
    let blocks_all = find_diagram_blocks(&lines, true);

    assert!(
        blocks_all.len() >= blocks_default.len(),
        "all_blocks=true should include more blocks"
    );
}

#[test]
fn test_find_diagram_blocks_trims_trailing_blank() {
    let lines: Vec<String> = vec![
        "+--+".to_string(),
        "|ab|".to_string(),
        "+--+".to_string(),
        "".to_string(), // Trailing blank
    ];

    let blocks = find_diagram_blocks(&lines, false);
    assert_eq!(blocks.len(), 1);
    assert_eq!(blocks[0].end, 3, "should trim trailing blank");
}

#[test]
fn test_find_diagram_blocks_empty_input() {
    let lines: Vec<String> = vec![];
    let blocks = find_diagram_blocks(&lines, false);
    assert_eq!(blocks.len(), 0);
}

#[test]
fn test_find_diagram_blocks_only_blanks() {
    let lines: Vec<String> = vec!["".to_string(), "   ".to_string(), "".to_string()];
    let blocks = find_diagram_blocks(&lines, false);
    assert_eq!(blocks.len(), 0);
}
