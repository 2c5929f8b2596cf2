use vstd::prelude::*;

verus! {

/// Which scoring rules a problem uses.
#[derive(Clone, Copy, Debug, PartialEq, Eq, Structural, PartialOrd)]
pub enum Version {
    One,
    Two,
}

/// Problems up to 55 belong to the lightning round (rules version one);
/// later problems use the full rules.
pub open spec fn version_of_problem(problem_id: int) -> Version {
    if problem_id <= 55 {
        Version::One
    } else {
        Version::Two
    }
}

impl Version {
    pub fn from_problem_id(problem_id: i32) -> (v: Self)
        ensures
            v == version_of_problem(problem_id as int),
    {
        if problem_id <= 55 {
            Version::One
        } else {
            Version::Two
        }
    }

    /// The rules a problem file points to: problems with pillars are scored
    /// by the full rules, problems without by the lightning-round rules.
    pub fn from_pillar_count(n_pillars: usize) -> (v: Self)
        ensures
            v == (if n_pillars == 0 {
                Version::One
            } else {
                Version::Two
            }),
    {
        if n_pillars == 0 {
            Version::One
        } else {
            Version::Two
        }
    }
}

} // verus!
