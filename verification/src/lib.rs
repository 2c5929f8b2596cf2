//! Verified core of the team's ICFPC 2023 tool set: a minimum-cost
//! circulation solver and the assignment problems built on it, together
//! with the integer and text logic around problems, submissions and secrets.
use vstd::prelude::*;

pub mod minmax;
pub mod version;
pub mod mcf;
pub mod api;
pub mod candidate_positions;
pub mod candidate_tree;
pub mod problem;
pub mod scorer;
pub mod heap;
pub mod paths;
pub mod secret;
pub mod sql;
