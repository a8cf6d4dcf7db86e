//! Layered label propagation: a clustering of the vertices of a symmetric,
//! loopless graph whose induced order puts adjacent vertices close together.
//!
//! - `graph`: successor lists with cumulative out-degrees;
//! - `label_store`: labels and label volumes;
//! - `schedule`: ranges of vertices of about equal arc counts;
//! - `propagation`: one vertex update, one pass, the loop for one γ, and the
//!   combination of the labellings of all γ;
//! - `combine`: the common refinement of two labellings;
//! - `perm`: permutations and their inversion in place;
//! - `gap_cost`: the log-gap cost of a numbering of the graph;
//! - `preds`: stopping rules.
use vstd::prelude::*;

pub mod combine;
pub mod gap_cost;
pub mod graph;
pub mod label_store;
pub mod perm;
pub mod preds;
pub mod propagation;
mod random;
pub mod schedule;
mod sorting;

verus! {

} // verus!
