//! User-based collaborative filtering over sparse integer ratings.
//!
//! The store maps users to their item ratings; the similarity engine scores
//! every other user against a target by the fixed-point cosine of the two
//! rating vectors over their overlap set; the recommendation engine
//! aggregates the neighbours' ratings into predicted scores, filters by
//! popularity, ranks deterministically and draws a randomized selection from
//! the top of the ranking.
pub mod data_processing;
pub mod pairs;
pub mod recommendation;
pub mod similarity;
pub mod titles;
