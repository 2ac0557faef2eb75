//! Control flow structuring: a graph of basic blocks becomes a nested region tree.
//!
//! 1. Dominators are computed by the iterative algorithm over reverse postorder.
//! 2. Exception ranges are grouped by span; try regions are carved out first,
//!    bodies and handlers are structured recursively.
//! 3. Inside each flow scope, blocks are walked from the entry:
//!    - a loop header (target of a back edge that it dominates) becomes a loop
//!      region,
//!    - a conditional terminal becomes an if region, its branches structured up
//!      to the merge,
//!    - a switch terminal becomes a switch region with a scope per case,
//!    - a forward jump within the scope continues the walk at its target,
//!    - edges that leave the scope become jumps.

pub mod branch;
pub mod branch_laws;
pub mod cases;
pub mod chain_laws;
pub mod claims;
pub mod dominators;
pub mod env;
pub mod follow;
pub mod graph;
pub mod guards;
pub mod handlers;
pub mod heads;
pub mod laws;
pub mod loop_laws;
pub mod loops;
pub mod merge_laws;
pub mod merge_point;
pub mod method;
pub mod model;
pub mod postdom;
pub mod query;
pub mod reach;
pub mod region;
pub mod region_laws;
pub mod sample;
pub mod scope;
pub mod sides;
pub mod state;
pub mod structurer;
pub mod suppressed;
pub mod tail;
pub mod try_group;
pub mod walk;

pub use dominators::{compute_dominators, reverse_postorder, DomInfo};
pub use graph::reachable_within;
pub use guards::{
    reset_visit_stats, set_budget_override, set_dom_counters, set_walk_deadline, set_walk_visit_budget,
    walk_visits_consumed, WalkGuards,
};
pub use merge_point::immediate_postdom;
pub use postdom::compute_postdominators;
pub use reach::{can_reach_avoiding, can_reach_cfg, can_reach_cfg_barred};
pub use region::Region;
pub use structurer::Structurer;
pub use try_group::{group_exceptions, group_exceptions_with, TryGroup};
