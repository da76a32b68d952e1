//! Tab expansion and hook-script generation.

use aadc::hooks::{generate_autofix_hook, generate_check_hook, generate_default_hook};
use aadc::tabs::expand_tabs;

// =========================================================================
// expand_tabs() tests
// =========================================================================

#[test]
fn test_expand_tabs_start_of_line() {
    assert_eq!(expand_tabs("\thello", 4), "    hello");
}

#[test]
fn test_expand_tabs_middle_of_line() {
    assert_eq!(expand_tabs("a\tb", 4), "a   b");
    assert_eq!(expand_tabs("ab\tc", 4), "ab  c");
    assert_eq!(expand_tabs("abc\td", 4), "abc d");
}

#[test]
fn test_expand_tabs_multiple() {
    assert_eq!(expand_tabs("\t\t", 4), "        ");
    assert_eq!(expand_tabs("a\tb\tc", 4), "a   b   c");
}

#[test]
fn test_expand_tabs_width_2() {
    assert_eq!(expand_tabs("\thello", 2), "  hello");
    assert_eq!(expand_tabs("a\tb", 2), "a b");
}

#[test]
fn test_expand_tabs_width_8() {
    assert_eq!(expand_tabs("\thello", 8), "        hello");
}

#[test]
fn test_expand_tabs_no_tabs() {
    assert_eq!(expand_tabs("no tabs here", 4), "no tabs here");
}

#[test]
fn test_expand_tabs_empty() {
    assert_eq!(expand_tabs("", 4), "");
}

#[test]
fn test_expand_tabs_with_cjk() {
    // CJK character "中" has visual width 2, so:
    // "中\tx" with tab_width=4: col starts at 0, "中" takes cols 0-1 (width 2),
    // tab at col 2 should expand to 2 spaces to reach col 4
    assert_eq!(expand_tabs("中\tx", 4), "中  x");

    // "a中\tx" with tab_width=4: "a" at col 0 (width 1), "中" at cols 1-2 (width 2),
    // col is now 3, tab expands to 1 space to reach col 4
    assert_eq!(expand_tabs("a中\tx", 4), "a中 x");

    // "中中\tx" with tab_width=4: two CJK chars = width 4, col is 4,
    // tab at col 4 expands to 4 spaces to reach col 8
    assert_eq!(expand_tabs("中中\tx", 4), "中中    x");
}

// =========================================================================
// Hook generation tests
// =========================================================================

#[test]
fn test_generate_check_hook() {
    let hook = generate_check_hook(&["*.md", "*.txt"]);

    assert!(hook.contains("#!/usr/bin/env bash"));
    assert!(hook.contains("# aadc pre-commit hook (check mode)"));
    assert!(hook.contains("aadc --dry-run"));
    assert!(hook.contains("*.md *.txt"));
    // Should not *execute* aadc -i (the help message is allowed to mention it)
    assert!(!hook.contains("aadc -i \"$file\""));
}

#[test]
fn test_generate_autofix_hook() {
    let hook = generate_autofix_hook(&["*.md"]);

    assert!(hook.contains("#!/usr/bin/env bash"));
    assert!(hook.contains("# aadc pre-commit hook (auto-fix mode)"));
    assert!(hook.contains("aadc -i"));
    assert!(hook.contains("git add"));
    assert!(hook.contains("*.md"));
}

#[test]
fn test_default_hook_is_check_mode() {
    let default = generate_default_hook(&["*.txt"]);
    let check = generate_check_hook(&["*.txt"]);

    // Default should be identical to check mode
    assert_eq!(default, check);
}

#[test]
fn test_hook_patterns() {
    let hook = generate_check_hook(&["*.rs", "*.go", "*.py"]);

    assert!(hook.contains("PATTERNS=\"*.rs *.go *.py\""));
}
