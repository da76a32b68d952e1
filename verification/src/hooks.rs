//! Generation of the pre-commit hook scripts: plain text assembly of
//! a shell script around the caller's file patterns. Installing,
//! removing and inspecting the hook is the caller's business; only
//! the script text is produced here.

use vstd::prelude::*;
use crate::analyze::views_of_strs;
use crate::text::{chars_to_string, push_str_chars};

verus! {

/// The check-mode script up to the patterns assignment.
pub open spec fn spec_check_head() -> Seq<char> {
    "#!/usr/bin/env bash\n# aadc pre-commit hook (check mode)\n# Generated by: aadc hook install --check-only\n# Blocks commits if diagrams have misaligned borders\n\nset -e\n\nPATTERNS=\""@
}

/// The check-mode script after the patterns assignment.
pub open spec fn spec_check_tail() -> Seq<char> {
    "\"\n\n# Get staged files matching patterns\nstaged_files() {\n    for pattern in $PATTERNS; do\n        git diff --cached --name-only --diff-filter=ACM | grep -E \"${pattern//\\*/.*}\" || true\n    done | sort -u\n}\n\nfiles=$(staged_files)\nif [[ -z \"$files\" ]]; then\n    exit 0\nfi\n\nfailed=0\nfor file in $files; do\n    if ! aadc --dry-run \"$file\" > /dev/null 2>&1; then\n        echo \"aadc: Diagram alignment needed: $file\"\n        ((failed++)) || true\n    fi\ndone\n\nif [[ $failed -gt 0 ]]; then\n    echo \"\"\n    echo \"Run 'aadc -i <file>' to fix, or 'git commit --no-verify' to skip\"\n    exit 1\nfi\n"@
}

/// The auto-fix script up to the patterns assignment.
pub open spec fn spec_fix_head() -> Seq<char> {
    "#!/usr/bin/env bash\n# aadc pre-commit hook (auto-fix mode)\n# Generated by: aadc hook install --auto-fix\n# Automatically fixes diagram alignment before commit\n\nset -e\n\nPATTERNS=\""@
}

/// The auto-fix script after the patterns assignment.
pub open spec fn spec_fix_tail() -> Seq<char> {
    "\"\n\n# Get staged files matching patterns\nstaged_files() {\n    for pattern in $PATTERNS; do\n        git diff --cached --name-only --diff-filter=ACM | grep -E \"${pattern//\\*/.*}\" || true\n    done | sort -u\n}\n\nfiles=$(staged_files)\nif [[ -z \"$files\" ]]; then\n    exit 0\nfi\n\nmodified=0\nfor file in $files; do\n    if ! aadc --dry-run \"$file\" > /dev/null 2>&1; then\n        echo \"aadc: Auto-fixing diagrams: $file\"\n        aadc -i \"$file\"\n        git add \"$file\"\n        ((modified++)) || true\n    fi\ndone\n\nif [[ $modified -gt 0 ]]; then\n    echo \"aadc: Auto-fixed $modified file(s)\"\nfi\n"@
}

/// File patterns joined with single spaces.
pub open spec fn join_spaces(ps: Seq<Seq<char>>, i: int) -> Seq<char>
    decreases i,
{
    if i <= 0 {
        Seq::empty()
    } else if i == 1 {
        ps[0]
    } else {
        join_spaces(ps, i - 1) + " "@ + ps[i - 1]
    }
}

/// The check-mode hook script around the joined patterns.
pub open spec fn check_hook_s(ps: Seq<Seq<char>>) -> Seq<char> {
    spec_check_head() + join_spaces(ps, ps.len() as int) + spec_check_tail()
}

/// The auto-fix-mode hook script around the joined patterns.
pub open spec fn autofix_hook_s(ps: Seq<Seq<char>>) -> Seq<char> {
    spec_fix_head() + join_spaces(ps, ps.len() as int) + spec_fix_tail()
}

/// Append the patterns joined with spaces.
fn push_joined(out: &mut Vec<char>, patterns: &[&str])
    ensures
        final(out)@ == old(out)@ + join_spaces(
            views_of_strs(patterns@),
            patterns@.len() as int,
        ),
{
    let ghost ps = views_of_strs(patterns@);
    let mut i: usize = 0;
    proof {
        assert(old(out)@ + join_spaces(ps, 0) =~= old(out)@);
    }
    while i < patterns.len()
        invariant
            i <= patterns@.len(),
            ps == views_of_strs(patterns@),
            out@ == old(out)@ + join_spaces(ps, i as int),
        decreases patterns@.len() - i,
    {
        if i > 0 {
            push_str_chars(out, " ");
        }
        let p = patterns[i];
        push_str_chars(out, p);
        proof {
            assert(ps[i as int] == patterns@[i as int]@);
            assert(out@ =~= old(out)@ + join_spaces(ps, i + 1));
        }
        i = i + 1;
    }
}

/// Generate the check-mode hook script: it refuses the commit when a
/// staged file matching the patterns still needs alignment.
pub fn generate_check_hook(patterns: &[&str]) -> (r: String)
    ensures
        r@ == check_hook_s(views_of_strs(patterns@)),
{
    let mut out: Vec<char> = Vec::new();
    push_str_chars(&mut out, "#!/usr/bin/env bash\n# aadc pre-commit hook (check mode)\n# Generated by: aadc hook install --check-only\n# Blocks commits if diagrams have misaligned borders\n\nset -e\n\nPATTERNS=\"");
    push_joined(&mut out, patterns);
    push_str_chars(&mut out, "\"\n\n# Get staged files matching patterns\nstaged_files() {\n    for pattern in $PATTERNS; do\n        git diff --cached --name-only --diff-filter=ACM | grep -E \"${pattern//\\*/.*}\" || true\n    done | sort -u\n}\n\nfiles=$(staged_files)\nif [[ -z \"$files\" ]]; then\n    exit 0\nfi\n\nfailed=0\nfor file in $files; do\n    if ! aadc --dry-run \"$file\" > /dev/null 2>&1; then\n        echo \"aadc: Diagram alignment needed: $file\"\n        ((failed++)) || true\n    fi\ndone\n\nif [[ $failed -gt 0 ]]; then\n    echo \"\"\n    echo \"Run 'aadc -i <file>' to fix, or 'git commit --no-verify' to skip\"\n    exit 1\nfi\n");
    proof {
        assert(out@ =~= check_hook_s(views_of_strs(patterns@)));
    }
    chars_to_string(&out)
}

/// Generate the auto-fix-mode hook script: it rewrites and re-stages
/// a staged file whose diagrams need alignment.
pub fn generate_autofix_hook(patterns: &[&str]) -> (r: String)
    ensures
        r@ == autofix_hook_s(views_of_strs(patterns@)),
{
    let mut out: Vec<char> = Vec::new();
    push_str_chars(&mut out, "#!/usr/bin/env bash\n# aadc pre-commit hook (auto-fix mode)\n# Generated by: aadc hook install --auto-fix\n# Automatically fixes diagram alignment before commit\n\nset -e\n\nPATTERNS=\"");
    push_joined(&mut out, patterns);
    push_str_chars(&mut out, "\"\n\n# Get staged files matching patterns\nstaged_files() {\n    for pattern in $PATTERNS; do\n        git diff --cached --name-only --diff-filter=ACM | grep -E \"${pattern//\\*/.*}\" || true\n    done | sort -u\n}\n\nfiles=$(staged_files)\nif [[ -z \"$files\" ]]; then\n    exit 0\nfi\n\nmodified=0\nfor file in $files; do\n    if ! aadc --dry-run \"$file\" > /dev/null 2>&1; then\n        echo \"aadc: Auto-fixing diagrams: $file\"\n        aadc -i \"$file\"\n        git add \"$file\"\n        ((modified++)) || true\n    fi\ndone\n\nif [[ $modified -gt 0 ]]; then\n    echo \"aadc: Auto-fixed $modified file(s)\"\nfi\n");
    proof {
        assert(out@ =~= autofix_hook_s(views_of_strs(patterns@)));
    }
    chars_to_string(&out)
}

/// Generate the default hook script, which is the check-mode one.
pub fn generate_default_hook(patterns: &[&str]) -> (r: String)
    ensures
        r@ == check_hook_s(views_of_strs(patterns@)),
{
    generate_check_hook(patterns)
}

} // verus!
