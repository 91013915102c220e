//! Minimum-cost search-tree solver over a sorted key sequence with access
//! weights, where each internal node may keep up to two split keys.

pub mod laws;
pub mod model;
pub mod solver;

pub use solver::MinCostB3Tree;
pub use solver::TreeError;
pub use model::best_cost;
pub use model::best_split;
pub use model::interval_sum;
