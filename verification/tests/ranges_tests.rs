//! Line-range parsing, merging, membership, overlap and display.

use aadc::blocks::DiagramBlock;
use aadc::ranges::{
    block_overlaps_ranges, format_line_ranges, line_in_ranges, parse_line_ranges, LineRange,
};

#[test]
fn test_parse_simple_range() {
    let ranges = parse_line_ranges("10-50").unwrap();
    assert_eq!(ranges.len(), 1);
    assert_eq!(ranges[0].start, 10);
    assert_eq!(ranges[0].end, 50);
}

#[test]
fn test_parse_multiple_ranges() {
    let ranges = parse_line_ranges("1-10, 20-30, 50-60").unwrap();
    assert_eq!(ranges.len(), 3);
    assert_eq!(ranges[0], LineRange { start: 1, end: 10 });
    assert_eq!(ranges[1], LineRange { start: 20, end: 30 });
    assert_eq!(ranges[2], LineRange { start: 50, end: 60 });
}

#[test]
fn test_parse_open_ended_start() {
    let ranges = parse_line_ranges("50-").unwrap();
    assert_eq!(ranges.len(), 1);
    assert_eq!(ranges[0].start, 50);
    assert_eq!(ranges[0].end, usize::MAX);
}

#[test]
fn test_parse_open_ended_end() {
    let ranges = parse_line_ranges("-100").unwrap();
    assert_eq!(ranges.len(), 1);
    assert_eq!(ranges[0].start, 1);
    assert_eq!(ranges[0].end, 100);
}

#[test]
fn test_parse_single_line() {
    let ranges = parse_line_ranges("42").unwrap();
    assert_eq!(ranges.len(), 1);
    assert_eq!(ranges[0].start, 42);
    assert_eq!(ranges[0].end, 42);
}

#[test]
fn test_merge_overlapping_ranges() {
    let ranges = parse_line_ranges("1-50, 40-100").unwrap();
    assert_eq!(ranges.len(), 1);
    assert_eq!(ranges[0].start, 1);
    assert_eq!(ranges[0].end, 100);
}

#[test]
fn test_merge_adjacent_ranges() {
    let ranges = parse_line_ranges("1-10, 11-20").unwrap();
    assert_eq!(ranges.len(), 1);
    assert_eq!(ranges[0].start, 1);
    assert_eq!(ranges[0].end, 20);
}

#[test]
fn test_invalid_range_reversed() {
    let result = parse_line_ranges("50-10");
    assert!(result.is_err());
    assert!(result.unwrap_err().contains("start (50) > end (10)"));
}

#[test]
fn test_invalid_range_non_numeric() {
    let result = parse_line_ranges("abc");
    assert!(result.is_err());
    assert!(result.unwrap_err().contains("Invalid line number"));
}

#[test]
fn test_invalid_range_zero() {
    let result = parse_line_ranges("0-10");
    assert!(result.is_err());
    assert!(result.unwrap_err().contains("Line numbers start at 1"));
}

#[test]
fn test_line_in_ranges() {
    let ranges = vec![
        LineRange { start: 1, end: 10 },
        LineRange { start: 20, end: 30 },
    ];
    assert!(line_in_ranges(5, &ranges));
    assert!(line_in_ranges(1, &ranges));
    assert!(line_in_ranges(10, &ranges));
    assert!(line_in_ranges(25, &ranges));
    assert!(!line_in_ranges(15, &ranges));
    assert!(!line_in_ranges(31, &ranges));
}

#[test]
fn test_block_overlaps_ranges() {
    let ranges = vec![LineRange { start: 10, end: 20 }];

    // Block fully inside range
    let block_inside = DiagramBlock {
        start: 11, // 0-indexed, so line 12
        end: 15,   // exclusive, so through line 15
        confidence: 1000,
    };
    assert!(block_overlaps_ranges(&block_inside, &ranges));

    // Block overlapping start of range
    let block_overlap_start = DiagramBlock {
        start: 5,
        end: 12,
        confidence: 1000,
    };
    assert!(block_overlaps_ranges(&block_overlap_start, &ranges));

    // Block overlapping end of range
    let block_overlap_end = DiagramBlock {
        start: 18,
        end: 25,
        confidence: 1000,
    };
    assert!(block_overlaps_ranges(&block_overlap_end, &ranges));

    // Block completely outside range
    let block_outside = DiagramBlock {
        start: 25,
        end: 30,
        confidence: 1000,
    };
    assert!(!block_overlaps_ranges(&block_outside, &ranges));
}

#[test]
fn test_format_line_ranges() {
    let ranges = vec![
        LineRange { start: 1, end: 10 },
        LineRange { start: 20, end: 30 },
    ];
    let formatted = format_line_ranges(&ranges, 100);
    assert!(formatted.contains("1-10"));
    assert!(formatted.contains("20-30"));
    assert!(formatted.contains("21 of 100 lines"));
}

#[test]
fn test_format_line_ranges_open_ended() {
    let ranges = vec![LineRange {
        start: 50,
        end: usize::MAX,
    }];
    let formatted = format_line_ranges(&ranges, 100);
    assert!(formatted.contains("50-"));
    assert!(formatted.contains("51 of 100 lines"));
}

#[test]
fn test_parse_empty_spec_rejected() {
    let result = parse_line_ranges("");
    assert!(result.is_err());
    assert!(result.unwrap_err().contains("No valid ranges specified"));
}

#[test]
fn test_parse_invalid_end_token() {
    let result = parse_line_ranges("5-x");
    assert!(result.is_err());
    assert!(result.unwrap_err().contains("Invalid end line"));
}

#[test]
fn test_parse_invalid_start_token() {
    let result = parse_line_ranges("x-5");
    assert!(result.is_err());
    assert!(result.unwrap_err().contains("Invalid start line"));
}

#[test]
fn test_parse_overflowing_number_rejected() {
    let result = parse_line_ranges("99999999999999999999999999");
    assert!(result.is_err());
    assert!(result.unwrap_err().contains("Invalid line number"));
}
