//! Minimum-XP anvil enchanting planner.
//!
//! Given a list of enchantment selections, the solver searches all legal
//! orders of pairwise anvil merges and returns the cheapest sequence that
//! combines every selection onto the target item.

pub mod registry;
pub mod solver;
pub mod step_ext;
pub mod units;
