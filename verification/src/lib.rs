//! Information Set Monte Carlo Tree Search (ISMCTS).
//!
//! A decision-making engine for sequential games with imperfect information.
//! Given a game position seen from the deciding player's perspective, the
//! engine builds a search tree from many randomized playouts and recommends
//! the most robust next move.

mod fixed;
mod fmt;
mod game;
mod games;
mod rng;
mod stats;
mod clock;
mod engine;
mod handler;
mod laws;
mod tree;

pub use fixed::{floor_log2, isqrt, ln_micro, lg, sqrt_floor, ln_micro_spec, sat_add, sat_add_spec, SCALE, LN2_MICRO};
pub use fmt::{dec_string, dec_chars, dec_spec, label_count};
pub use game::{Game, random_rollout, reachable, lemma_reachable_mono, lemma_reachable_step, lemma_reachable_trans};
pub use stats::{NodeStatistics, ucb1_spec};
pub use tree::{Tree, Node, wf, mature, bounded, root_moves, root_visit_sum, sum_visits, same_tree, node_has_child_move, in_subtree, subtree_correspondence};
pub use engine::{has_untried_root_move, moves_subset, min_int, preserves_shape, on_path_above, iteration_visits, played_from};
pub use handler::{IsmctsHandler, most_visited_at, is_max_visits, child_report, report_over, is_visit_order, trace_line, select_trace, is_tree_path};
pub use games::{TenMoveGame, KuhnPoker, MisereNim};
pub use laws::{lemma_children_moves_unique, lemma_availability_dominates_visits, lemma_no_parent_cycles, parent_chain_reaches_root};
