//! Settings of the enumeration of candidate positions for musicians.
use vstd::prelude::*;

verus! {

/// Which placement patterns to enumerate, how many of each to keep, and
/// which filters to apply.
pub struct CandidateConfig {
    pub use_pattern1: bool,
    pub use_pattern2: bool,
    pub use_pattern3: bool,
    pub use_pattern4: bool,
    pub use_pattern23: bool,
    pub limit_pattern2: Option<usize>,
    pub limit_pattern3: Option<usize>,
    pub limit_pattern23: Option<usize>,
    pub filter_by_reach23: bool,
    pub filter_by_reach14: bool,
    /// Candidates that intersect more than this many others are dropped.
    pub filter_by_intersections1: Option<usize>,
    pub filter_by_intersections234: Option<usize>,
    pub pattern2_disallow_blocked: bool,
}

} // verus!
