//! Runtime configuration of the corrector, its presets, the run
//! statistics, and the exit codes the program reports.
//!
//! Scores and thresholds are measured in thousandths, so the familiar
//! scale from 0 to 1 is the integer range 0 to 1000 here.

use vstd::prelude::*;
use crate::ranges::LineRange;

verus! {

/// Success: completed without errors.
pub const EXIT_SUCCESS: i32 = 0;

/// General error (file not found, permission denied, I/O error).
pub const EXIT_ERROR: i32 = 1;

/// Invalid command-line arguments.
pub const EXIT_INVALID_ARGS: i32 = 2;

/// Dry-run mode: changes would be made.
pub const EXIT_WOULD_CHANGE: i32 = 3;

/// Parse error (invalid UTF-8 or binary input detected).
pub const EXIT_PARSE_ERROR: i32 = 4;

/// Confidence threshold presets, from most to least conservative.
#[derive(Debug, Clone, Copy, PartialEq, Eq, Structural)]
pub enum Preset {
    /// Conservative: only high-confidence edits (800 thousandths).
    Strict,
    /// Balanced threshold (500 thousandths).
    Normal,
    /// Accept lower-confidence edits (300 thousandths).
    Aggressive,
    /// Accept almost any edit (100 thousandths).
    Relaxed,
}

/// The score threshold of each preset, in thousandths.
pub open spec fn preset_score(p: Preset) -> int {
    match p {
        Preset::Strict => 800,
        Preset::Normal => 500,
        Preset::Aggressive => 300,
        Preset::Relaxed => 100,
    }
}

impl Preset {
    /// The minimum score this preset demands, in thousandths.
    pub fn min_score(self) -> (s: u32)
        ensures
            s == preset_score(self),
    {
        match self {
            Preset::Strict => 800,
            Preset::Normal => 500,
            Preset::Aggressive => 300,
            Preset::Relaxed => 100,
        }
    }
}

/// Runtime configuration of the correction pipeline.
#[derive(Debug, Clone)]
pub struct Config {
    /// Safety bound on fixed-point iterations per block; at least 1.
    pub max_iters: usize,
    /// Minimum score for applying a revision, in thousandths.
    pub min_score: u32,
    /// When set, overrides `min_score`.
    pub preset: Option<Preset>,
    /// Spaces per tab stop, between 1 and 16.
    pub tab_width: usize,
    /// Process every block and bypass the quick scan.
    pub all_blocks: bool,
    /// When set, only blocks overlapping these 1-indexed ranges are
    /// corrected.
    pub lines: Option<Vec<LineRange>>,
}

/// The threshold the run actually uses: the preset's when one is
/// chosen, else the configured minimum score.
pub open spec fn spec_effective_min_score(c: Config) -> int {
    match c.preset {
        Option::Some(p) => preset_score(p),
        Option::None => c.min_score as int,
    }
}

/// What a well-formed configuration looks like: the bounds the
/// option validation enforces before any processing starts.
pub open spec fn config_valid(c: Config) -> bool {
    &&& c.max_iters >= 1
    &&& c.min_score <= 1000
    &&& 1 <= c.tab_width <= 16
}

impl Config {
    /// The threshold in force: the preset's score when a preset is
    /// chosen, the configured minimum otherwise.
    pub fn effective_min_score(&self) -> (s: u32)
        ensures
            s == spec_effective_min_score(*self),
    {
        match self.preset {
            Option::Some(p) => p.min_score(),
            Option::None => self.min_score,
        }
    }

    /// Check the bounds that every run demands: at least one
    /// iteration, a threshold within the scale, and a tab width
    /// between 1 and 16.
    pub fn is_valid(&self) -> (r: bool)
        ensures
            r == config_valid(*self),
    {
        self.max_iters >= 1 && self.min_score <= 1000 && self.tab_width >= 1 && self.tab_width
            <= 16
    }

    /// A configuration with the defaults: threshold 500, ten
    /// iterations, tab width 4, quick scan active, no line filter.
    pub fn new() -> (c: Config)
        ensures
            c.max_iters == 10,
            c.min_score == 500,
            c.preset is None,
            c.tab_width == 4,
            !c.all_blocks,
            c.lines is None,
            config_valid(c),
    {
        Config {
            max_iters: 10,
            min_score: 500,
            preset: Option::None,
            tab_width: 4,
            all_blocks: false,
            lines: Option::None,
        }
    }
}

/// Statistics collected during correction.
#[derive(Debug, Clone, Copy, PartialEq, Eq, Structural)]
pub struct Stats {
    /// Number of diagram blocks detected.
    pub blocks_found: usize,
    /// Number of blocks that received modifications.
    pub blocks_modified: usize,
    /// Number of blocks skipped because they fall outside the line
    /// ranges.
    pub blocks_skipped: usize,
    /// Total number of revisions applied.
    pub total_revisions: usize,
    /// Number of revisions skipped below the score threshold.
    pub revisions_skipped: usize,
    /// Total number of lines processed.
    pub total_lines: usize,
    /// Processing time in milliseconds, measured by the caller; the
    /// core always reports zero.
    pub elapsed_ms: u64,
}

/// A sum clamped to the machine's counter range.
pub open spec fn sat_add(a: int, b: int, max: int) -> int {
    if a + b > max {
        max
    } else {
        a + b
    }
}

fn usize_sat_add(a: usize, b: usize) -> (r: usize)
    ensures
        r == sat_add(a as int, b as int, usize::MAX as int),
{
    if a > usize::MAX - b {
        usize::MAX
    } else {
        a + b
    }
}

fn u64_sat_add(a: u64, b: u64) -> (r: u64)
    ensures
        r == sat_add(a as int, b as int, u64::MAX as int),
{
    if a > u64::MAX - b {
        u64::MAX
    } else {
        a + b
    }
}

impl Stats {
    /// All counters zero.
    pub fn zero() -> (s: Stats)
        ensures
            s == spec_zero_stats(),
    {
        Stats {
            blocks_found: 0,
            blocks_modified: 0,
            blocks_skipped: 0,
            total_revisions: 0,
            revisions_skipped: 0,
            total_lines: 0,
            elapsed_ms: 0,
        }
    }

    /// Merge another `Stats` into this one, for aggregating across
    /// files: every counter is summed, saturating at the counter's
    /// range.
    pub fn merge(&mut self, other: &Stats)
        ensures
            final(self).blocks_found == sat_add(
                old(self).blocks_found as int,
                other.blocks_found as int,
                usize::MAX as int,
            ),
            final(self).blocks_modified == sat_add(
                old(self).blocks_modified as int,
                other.blocks_modified as int,
                usize::MAX as int,
            ),
            final(self).blocks_skipped == sat_add(
                old(self).blocks_skipped as int,
                other.blocks_skipped as int,
                usize::MAX as int,
            ),
            final(self).total_revisions == sat_add(
                old(self).total_revisions as int,
                other.total_revisions as int,
                usize::MAX as int,
            ),
            final(self).revisions_skipped == sat_add(
                old(self).revisions_skipped as int,
                other.revisions_skipped as int,
                usize::MAX as int,
            ),
            final(self).total_lines == sat_add(
                old(self).total_lines as int,
                other.total_lines as int,
                usize::MAX as int,
            ),
            final(self).elapsed_ms == sat_add(
                old(self).elapsed_ms as int,
                other.elapsed_ms as int,
                u64::MAX as int,
            ),
    {
        self.blocks_found = usize_sat_add(self.blocks_found, other.blocks_found);
        self.blocks_modified = usize_sat_add(self.blocks_modified, other.blocks_modified);
        self.blocks_skipped = usize_sat_add(self.blocks_skipped, other.blocks_skipped);
        self.total_revisions = usize_sat_add(self.total_revisions, other.total_revisions);
        self.revisions_skipped = usize_sat_add(self.revisions_skipped, other.revisions_skipped);
        self.total_lines = usize_sat_add(self.total_lines, other.total_lines);
        self.elapsed_ms = u64_sat_add(self.elapsed_ms, other.elapsed_ms);
    }
}

/// The all-zero statistics record.
pub open spec fn spec_zero_stats() -> Stats {
    Stats {
        blocks_found: 0,
        blocks_modified: 0,
        blocks_skipped: 0,
        total_revisions: 0,
        revisions_skipped: 0,
        total_lines: 0,
        elapsed_ms: 0,
    }
}

/// The exit code of a finished run: a dry run that found something to
/// change exits with the would-change code, every other successful
/// run with success.
pub fn exit_code_for_outcome(dry_run: bool, would_change: bool) -> (c: i32)
    ensures
        c == EXIT_WOULD_CHANGE <==> (dry_run && would_change),
        c == EXIT_SUCCESS <==> !(dry_run && would_change),
{
    if dry_run && would_change {
        EXIT_WOULD_CHANGE
    } else {
        EXIT_SUCCESS
    }
}

} // verus!
