//! A self-balancing vantage-point tree: a nearest-neighbour index over locations
//! compared by a user-supplied metric, with incremental insertion, local rebuilds
//! that bound the height, removal, and a lazy best-first nearest-neighbour search.
pub mod metric;
pub mod motion_validator;
pub mod state;
pub mod vp_tree;
