//! Admissibility preflight for agent-authored diffs.
//!
//! Parses unified diffs, recognises the authority-bearing files they touch
//! (LICENSE, NOTICE, CODEOWNERS, SECURITY.md) and cooks one intent record per
//! such file for an admissibility kernel to judge.

pub mod clock;
pub mod cook;
pub mod diff;
pub mod digest;
pub mod intent;
pub mod order;
pub mod surfaces;
pub mod text;
pub mod verdict;

pub use cook::{cook_diff, CookError, CookOpts, CookedIntent};
pub use diff::{parse, FileChanges, ParsedDiff};
pub use intent::{Intent, StandingClass, SurfaceVerdict};
pub use surfaces::{classify_path, AuthoritySurface};
pub use verdict::{exit_code, parse_standing, snake, worst_of, worst_verdict};
