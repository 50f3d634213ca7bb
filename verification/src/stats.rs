//! Per-node search statistics and the UCB1 selection score.

use vstd::prelude::*;
use crate::fixed::{ln_micro, ln_micro_spec, isqrt, sqrt_floor, sat_add, SCALE};

verus! {

/// Counters attached to every node of the search tree.
///
/// * `visit_count` — iterations whose backpropagation passed through the node.
/// * `availability_count` — iterations in which the node was among the legal
///   children of its parent while the parent was being selected.
/// * `reward` — cumulative terminal payoff credited to the player who just
///   moved into the node, in micro units (saturating).
#[derive(Clone, Copy, Debug)]
pub struct NodeStatistics {
    pub visit_count: u64,
    pub availability_count: u64,
    pub reward: u64,
}

/// The UCB1 score in micro units: mean reward plus the exploration bonus
/// `sqrt(2 * ln_micro(availability) / visits)`, saturating at `u64::MAX`.
/// The logarithm is the piecewise-linear fixed-point approximation
/// [`ln_micro_spec`] (exact at powers of two, interpolated between them), not
/// the real logarithm; the square root and every other step are exact.
pub open spec fn ucb1_spec(visit: u64, avail: u64, reward: u64) -> u64 {
    let exploit = reward as int / visit as int;
    let inner = 2 * ln_micro_spec(avail as nat) / visit as int;
    let explore = sqrt_floor((inner * SCALE) as nat) as int;
    if exploit + explore > u64::MAX {
        u64::MAX
    } else {
        (exploit + explore) as u64
    }
}

impl Default for NodeStatistics {
    /// Fresh counters, all zero.
    fn default() -> (r: NodeStatistics)
        ensures
            r.visit_count == 0,
            r.availability_count == 0,
            r.reward == 0,
    {
        NodeStatistics { visit_count: 0, availability_count: 0, reward: 0 }
    }
}

impl NodeStatistics {
    /// Fresh counters, all zero.
    pub fn zeroed() -> (r: NodeStatistics)
        ensures
            r.visit_count == 0,
            r.availability_count == 0,
            r.reward == 0,
    {
        NodeStatistics { visit_count: 0, availability_count: 0, reward: 0 }
    }

    /// The UCB1 selection score of these counters, in micro units.
    pub fn ucb1(&self) -> (r: u64)
        requires
            1 <= self.visit_count,
            1 <= self.availability_count,
        ensures
            r == ucb1_spec(self.visit_count, self.availability_count, self.reward),
    {
        let exploit = self.reward / self.visit_count;
        let l = ln_micro(self.availability_count);
        proof {
            vstd::arithmetic::div_mod::lemma_div_nonincreasing(
                2 * l as int,
                self.visit_count as int,
            );
        }
        let inner = (2 * l) / self.visit_count;
        let scaled = inner * SCALE;
        let explore = isqrt(scaled);
        sat_add(exploit, explore)
    }
}

} // verus!
