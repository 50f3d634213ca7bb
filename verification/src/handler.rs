//! The public façade: a handler owning the root game state and the search
//! tree, with operations to run iterations, inspect statistics, pick the
//! most robust move and advance the root.

use vstd::prelude::*;
use crate::game::Game;
use crate::tree::{
    Tree, Node, wf, mature, bounded, wf_node, wf_children, root_moves, root_visit_sum, sum_visits,
    same_tree, lemma_sum_push, node_has_child_move, lemma_child_positions_distinct,
    lemma_root_move_iff, subtree_correspondence,
};
use crate::engine::{ismcts_work_thread_iterations, moves_subset, min_int, preserves_shape, has_untried_root_move};
use crate::fmt::dec_chars;
use crate::tree::{pos_is_legal, selected_at};
use vstd::string::StringExecFns;

verus! {

/// The `k0`-th root child carries the move `m` and the maximal visit count,
/// with earlier children visited strictly less (ties go to the first).
pub open spec fn most_visited_at(t: Seq<Node>, k0: int, m: u64) -> bool {
    &&& 0 <= k0 < t[0].children@.len()
    &&& t[t[0].children@[k0] as int].mov == Some(m)
    &&& forall|k: int|
        0 <= k < t[0].children@.len() ==> t[(#[trigger] t[0].children@[
            k]) as int].statistics.visit_count <= t[
            t[0].children@[k0] as int].statistics.visit_count
    &&& forall|k: int|
        0 <= k < k0 ==> t[(#[trigger] t[0].children@[k]) as int].statistics.visit_count < t[
            t[0].children@[k0] as int].statistics.visit_count
}

/// `v` is the largest visit count among the root's children (zero if none).
pub open spec fn is_max_visits(t: Seq<Node>, v: u64) -> bool {
    &&& forall|k: int|
        0 <= k < t[0].children@.len() ==> t[(#[trigger] t[0].children@[
            k]) as int].statistics.visit_count <= v
    &&& (t[0].children@.len() == 0 ==> v == 0)
    &&& (t[0].children@.len() > 0 ==> exists|k: int|
        0 <= k < t[0].children@.len() && t[(#[trigger] t[0].children@[
            k]) as int].statistics.visit_count == v)
}

/// One line of the children report: the entering move and the counters of
/// the `k`-th root child.
pub open spec fn child_report(t: Seq<Node>, k: int) -> Seq<char> {
    "move "@ + dec_chars(t[t[0].children@[k] as int].mov.unwrap() as nat) + ": visits "@
        + dec_chars(t[t[0].children@[k] as int].statistics.visit_count as nat) + ", availability "@
        + dec_chars(t[t[0].children@[k] as int].statistics.availability_count as nat)
        + ", reward "@ + dec_chars(t[t[0].children@[k] as int].statistics.reward as nat) + "\n"@
}

/// `order` lists every root-child position exactly once, arranged by
/// non-decreasing visit count.
pub open spec fn is_visit_order(t: Seq<Node>, order: Seq<usize>) -> bool {
    &&& order.len() == t[0].children@.len()
    &&& order.no_duplicates()
    &&& forall|p: int| 0 <= p < order.len() ==> (#[trigger] order[p]) < t[0].children@.len()
    &&& forall|a: int, b: int|
        #![trigger order[a], order[b]]
        0 <= a < b < order.len() ==> t[t[0].children@[order[a] as int] as int].statistics.visit_count <= t[t[0].children@[order[b] as int] as int].statistics.visit_count
}

/// The children report for the first `k` positions of `order`.
pub open spec fn report_over(t: Seq<Node>, order: Seq<usize>, k: int) -> Seq<char>
    decreases k,
{
    if k <= 0 {
        Seq::empty()
    } else {
        report_over(t, order, k - 1) + child_report(t, order[k - 1] as int)
    }
}

/// One line of the selection trace: the depth entered and the counters of
/// the node chosen at that depth.
pub open spec fn trace_line(t: Seq<Node>, depth: nat, j: int) -> Seq<char> {
    "depth "@ + dec_chars(depth) + ": move "@ + dec_chars(t[j].mov.unwrap() as nat) + ", visits "@
        + dec_chars(t[j].statistics.visit_count as nat) + ", availability "@ + dec_chars(
        t[j].statistics.availability_count as nat,
    ) + "\n"@
}

/// The rendered trace of the first `k` nodes of a descent along `path`:
/// one line per node after the root, at depths 0, 1, and so on.
pub open spec fn select_trace(t: Seq<Node>, path: Seq<usize>, k: int) -> Seq<char>
    decreases k,
{
    if k <= 1 {
        Seq::empty()
    } else {
        select_trace(t, path, k - 1) + trace_line(t, (k - 2) as nat, path[k - 1] as int)
    }
}

/// A root-anchored chain of parent links with strictly growing indices.
pub open spec fn is_tree_path(t: Seq<Node>, path: Seq<usize>) -> bool {
    &&& path.len() >= 1
    &&& path[0] == 0
    &&& forall|p: int| 0 <= p < path.len() ==> (#[trigger] path[p]) < t.len()
    &&& forall|p: int|
        1 <= p < path.len() ==> t[(#[trigger] path[p]) as int].parent == Some(path[p - 1])
            && path[p - 1] < path[p]
}

/// The trace depends only on the first `k` path entries.
proof fn lemma_select_trace_prefix(t: Seq<Node>, p1: Seq<usize>, p2: Seq<usize>, k: int)
    requires
        k <= p1.len(),
        k <= p2.len(),
        forall|q: int| 0 <= q < k ==> p1[q] == #[trigger] p2[q],
    ensures
        select_trace(t, p1, k) == select_trace(t, p2, k),
    decreases k,
{
    if k > 1 {
        lemma_select_trace_prefix(t, p1, p2, k - 1);
    }
}

/// The ISMCTS search handler.
pub struct IsmctsHandler<G: Game> {
    /// The game state at the root of the search tree.
    pub root_state: G,
    /// The shared search tree.
    pub tree: Tree,
    /// How many iterations have been run against the tree.
    pub iterations: u64,
}

impl<G: Game> IsmctsHandler<G> {
    /// Well-formedness: a valid root state and a well-formed tree whose
    /// counters are bounded by the number of iterations run so far.
    pub open spec fn inv(&self) -> bool {
        &&& self.root_state.inv()
        &&& wf(self.tree@)
        &&& mature(self.tree@)
        &&& bounded(self.tree@, self.iterations as int)
    }

    /// The current root state.
    pub open spec fn state_view(&self) -> G {
        self.root_state
    }

    /// The nodes of the search tree.
    pub open spec fn tree_view(&self) -> Seq<Node> {
        self.tree@
    }

    /// The number of iterations run so far.
    pub open spec fn iterations(&self) -> int {
        self.iterations as int
    }

    /// A fresh handler: the given root state and an empty tree.
    pub fn new(root_state: G) -> (h: Self)
        requires
            root_state.inv(),
        ensures
            h.inv(),
            h.state_view() == root_state,
            h.iterations() == 0,
            h.tree_view().len() == 1,
            h.tree_view()[0].children@.len() == 0,
            h.tree_view()[0].statistics.visit_count == 0,
            h.tree_view()[0].statistics.availability_count == 0,
            h.tree_view()[0].statistics.reward == 0,
    {
        let tree = Tree::new();
        IsmctsHandler { root_state, tree, iterations: 0 }
    }

    /// Read-only access to the current root state.
    pub fn state(&self) -> (r: &G)
        ensures
            *r == self.state_view(),
    {
        &self.root_state
    }

    /// Run `n_threads * n_iterations_per_thread` search iterations against
    /// the shared tree: each worker's quota in turn.
    ///
    /// When the root is not terminal, the visits of the root's children grow
    /// by exactly the number of iterations, and as long as legal root moves
    /// are missing from the tree each iteration adds one of them, so the
    /// number of root children reaches the number of distinct legal moves as
    /// soon as the iteration budget does.
    pub fn run_iterations(&mut self, n_threads: usize, n_iterations_per_thread: usize)
        requires
            old(self).inv(),
            old(self).iterations() + n_threads * n_iterations_per_thread + 1 <= u64::MAX,
        ensures
            final(self).inv(),
            final(self).state_view() == old(self).state_view(),
            final(self).iterations() == old(self).iterations() + n_threads
                * n_iterations_per_thread,
            !old(self).state_view().is_terminal() ==> root_visit_sum(final(self).tree_view())
                == root_visit_sum(old(self).tree_view()) + n_threads * n_iterations_per_thread,
            old(self).state_view().is_terminal() ==> same_tree(
                old(self).tree_view(),
                final(self).tree_view(),
            ),
            !old(self).state_view().is_terminal() && moves_subset(
                root_moves(old(self).tree_view()),
                old(self).state_view().legal_moves(),
            ) ==> moves_subset(
                root_moves(final(self).tree_view()),
                old(self).state_view().legal_moves(),
            ) && root_moves(final(self).tree_view()).len() == min_int(
                root_moves(old(self).tree_view()).len() + n_threads * n_iterations_per_thread,
                old(self).state_view().legal_moves().to_set().len() as int,
            ),
            final(self).tree_view().len() <= old(self).tree_view().len() + n_threads
                * n_iterations_per_thread,
            preserves_shape(old(self).tree_view(), final(self).tree_view()),
            final(self).tree_view()[0].statistics == old(self).tree_view()[0].statistics,
    {
        let ghost t0 = self.tree@;
        let ghost n0 = self.iterations as int;
        let ghost rl = self.root_state.legal_moves();
        let ghost m_all = rl.to_set().len() as int;
        proof {
            crate::engine::lemma_preserves_shape_refl(t0);
            if !self.root_state.is_terminal() && moves_subset(root_moves(t0), rl) {
                crate::engine::lemma_root_moves_no_duplicates(t0);
                crate::engine::lemma_seq_subset_count(root_moves(t0), rl);
            }
        }
        let mut t: usize = 0;
        while t < n_threads
            invariant
                self.root_state.inv(),
                self.root_state == old(self).root_state,
                wf(self.tree@),
                mature(self.tree@),
                t <= n_threads,
                self.iterations as int == n0 + t * n_iterations_per_thread,
                bounded(self.tree@, self.iterations as int),
                0 <= n0,
                n0 + n_threads * n_iterations_per_thread + 1 <= u64::MAX,
                wf(t0),
                !self.root_state.is_terminal() ==> root_visit_sum(self.tree@) == root_visit_sum(t0)
                    + t * n_iterations_per_thread,
                self.root_state.is_terminal() ==> same_tree(t0, self.tree@),
                !self.root_state.is_terminal() && moves_subset(root_moves(t0), rl) ==> moves_subset(
                    root_moves(self.tree@),
                    rl,
                ) && root_moves(self.tree@).len() == min_int(
                    root_moves(t0).len() + t * n_iterations_per_thread,
                    m_all,
                ),
                rl == self.root_state.legal_moves(),
                m_all == rl.to_set().len(),
                self.tree@.len() <= t0.len() + t * n_iterations_per_thread,
                preserves_shape(t0, self.tree@),
                self.tree@[0].statistics == t0[0].statistics,
            decreases n_threads - t,
        {
            let ghost t_i = self.tree@;
            proof {
                assert(t * n_iterations_per_thread + n_iterations_per_thread == (t + 1)
                    * n_iterations_per_thread) by (nonlinear_arith);
                assert((t + 1) * n_iterations_per_thread <= n_threads * n_iterations_per_thread)
                    by (nonlinear_arith)
                    requires t + 1 <= n_threads, 0 <= n_iterations_per_thread;
            }
            ismcts_work_thread_iterations(
                &self.root_state,
                &mut self.tree,
                n_iterations_per_thread,
                Ghost(self.iterations as int),
            );
            self.iterations = self.iterations + n_iterations_per_thread as u64;
            proof {
                crate::engine::lemma_preserves_shape_trans(t0, t_i, self.tree@);
                if self.root_state.is_terminal() {
                    assert(same_tree(t_i, self.tree@));
                    assert forall|j: int| 0 <= j < t0.len() implies (#[trigger] self.tree@[j]).mov
                        == t0[j].mov && self.tree@[j].parent == t0[j].parent && self.tree@[
                    j].children@ == t0[j].children@ && self.tree@[j].player_just_moved == t0[
                    j].player_just_moved && self.tree@[j].statistics == t0[j].statistics by {};
                    assert(same_tree(t0, self.tree@));
                }
            }
            t += 1;
        }
    }

    /// Run workers against the shared tree until `time` has elapsed since the
    /// start of the call, checking the clock at iteration boundaries. The
    /// workers run in turn here, so the whole call observes one shared
    /// wall-clock window.
    pub fn run_timed(&mut self, n_threads: usize, time: core::time::Duration)
        requires
            old(self).inv(),
        ensures
            final(self).inv(),
            final(self).state_view() == old(self).state_view(),
            final(self).iterations() >= old(self).iterations(),
            !old(self).state_view().is_terminal() ==> root_visit_sum(final(self).tree_view())
                == root_visit_sum(old(self).tree_view()) + (final(self).iterations() - old(self).iterations()),
            old(self).state_view().is_terminal() ==> same_tree(
                old(self).tree_view(),
                final(self).tree_view(),
            ),
            !old(self).state_view().is_terminal() && moves_subset(
                root_moves(old(self).tree_view()),
                old(self).state_view().legal_moves(),
            ) ==> moves_subset(
                root_moves(final(self).tree_view()),
                old(self).state_view().legal_moves(),
            ) && root_moves(final(self).tree_view()).len() == min_int(
                root_moves(old(self).tree_view()).len() + (final(self).iterations() - old(self).iterations()),
                old(self).state_view().legal_moves().to_set().len() as int,
            ),
            final(self).tree_view().len() <= old(self).tree_view().len() + (final(self).iterations() - old(self).iterations()),
            preserves_shape(old(self).tree_view(), final(self).tree_view()),
            final(self).tree_view()[0].statistics == old(self).tree_view()[0].statistics,
    {
        let _ = n_threads;
        crate::engine::ismcts_work_thread_timed(
            &self.root_state,
            &mut self.tree,
            &time,
            &mut self.iterations,
        );
    }

    /// Advance the root along `mov`: the root state applies the move and the
    /// root child entered by `mov` becomes the new root, its subtree kept
    /// with all statistics and every sibling subtree discarded.
    ///
    /// The caller must pass a legal move that has been explored; anything
    /// else is a fatal misuse, as the tree has no node to advance to.
    pub fn make_move(&mut self, mov: u64)
        requires
            old(self).inv(),
            old(self).state_view().legal_moves().contains(mov),
            node_has_child_move(old(self).tree_view(), 0, mov),
        ensures
            final(self).inv(),
            final(self).state_view() == old(self).state_view().apply_move_spec(mov),
            final(self).iterations() == old(self).iterations(),
            final(self).tree_view().len() <= old(self).tree_view().len(),
            forall|k: int|
                0 <= k < old(self).tree_view()[0].children@.len() && old(self).tree_view()[(
                #[trigger] old(self).tree_view()[0].children@[k]) as int].mov == Some(mov)
                    ==> final(self).tree_view()[0].statistics == old(self).tree_view()[old(self).tree_view()[0].children@[k] as int].statistics && final(self).tree_view()[0].children@.len() == old(self).tree_view()[old(self).tree_view()[0].children@[k] as int].children@.len(),
            // The promoted child's own children are carried over one by one:
            // same entering move, same player, same statistics, same number
            // of children below them.
            forall|k2: int, k: int|
                #![trigger old(self).tree_view()[0].children@[k2], final(self).tree_view()[0].children@[k]]
                0 <= k2 < old(self).tree_view()[0].children@.len() && old(self).tree_view()[old(self).tree_view()[0].children@[k2] as int].mov == Some(mov) && 0 <= k < old(self).tree_view()[old(self).tree_view()[0].children@[k2] as int].children@.len()
                    ==> final(self).tree_view()[(final(self).tree_view()[0].children@[
                    k]) as int].mov == old(self).tree_view()[old(self).tree_view()[old(self).tree_view()[0].children@[k2] as int].children@[k] as int].mov && final(self).tree_view()[(final(self).tree_view()[0].children@[k]) as int].player_just_moved
                    == old(self).tree_view()[old(self).tree_view()[old(self).tree_view()[
                    0].children@[k2] as int].children@[k] as int].player_just_moved && final(self).tree_view()[(final(self).tree_view()[0].children@[k]) as int].statistics == old(self).tree_view()[old(self).tree_view()[old(self).tree_view()[0].children@[
                    k2] as int].children@[k] as int].statistics && final(self).tree_view()[(final(self).tree_view()[0].children@[k]) as int].children@.len() == old(self).tree_view()[old(self).tree_view()[old(self).tree_view()[0].children@[k2] as int].children@[
                    k] as int].children@.len(),
            // The whole promoted subtree, node for node: every survivor is a
            // node of the chosen child's old subtree (so every sibling
            // subtree is discarded), every node of that subtree survives,
            // and labels, statistics and structure are carried over.
            forall|k2: int|
                0 <= k2 < old(self).tree_view()[0].children@.len() && old(self).tree_view()[(
                #[trigger] old(self).tree_view()[0].children@[k2]) as int].mov == Some(mov)
                    ==> exists|olds: Seq<usize>|
                    #[trigger] subtree_correspondence(
                        old(self).tree_view(),
                        final(self).tree_view(),
                        old(self).tree_view()[0].children@[k2] as int,
                        olds,
                    ),
    {
        let ghost t0 = self.tree@;
        proof {
            assert(wf_children(t0, 0));
        }
        // Find the explored child entered by `mov`.
        let n = self.tree.child_count(0);
        let mut k: usize = 0;
        let mut c: usize = 0;
        let mut found = false;
        while k < n
            invariant
                self.inv(),
                t0 == self.tree@,
                n == t0[0].children@.len(),
                k <= n,
                found ==> exists|k2: int|
                    0 <= k2 < k && (#[trigger] t0[0].children@[k2]) == c && t0[c as int].mov
                        == Some(mov),
                !found ==> forall|k2: int|
                    0 <= k2 < k ==> t0[(#[trigger] t0[0].children@[k2]) as int].mov != Some(mov),
                found ==> 1 <= c < t0.len(),
            decreases n - k,
        {
            if !found {
                proof {
                    assert(wf_children(t0, 0));
                }
                let c2 = self.tree.child_at(0, k);
                proof {
                    assert(wf_node(t0, c2 as int));
                }
                if self.tree.move_of(c2) == mov {
                    c = c2;
                    found = true;
                }
            }
            k += 1;
        }
        proof {
            // The explored child exists, so the scan found it.
            if !found {
                let kw = choose|kw: int|
                    0 <= kw < t0[0].children@.len() && t0[#[trigger] t0[
                        0].children@[kw] as int].mov == Some(mov);
                assert(t0[t0[0].children@[kw] as int].mov != Some(mov));
            }
            self.root_state.lemma_terminal_iff_no_moves();
        }
        self.root_state.make_move(mov);
        self.tree.reroot(c);
        proof {
            // The promoted subtree keeps every counter, so all bounds carry
            // over from the old tree.
            assert forall|jn: int| 1 <= jn < self.tree@.len() implies 1 <= (#[trigger] self.tree@[
            jn]).statistics.visit_count && self.tree@[jn].statistics.visit_count
                <= self.iterations as int && self.tree@[jn].statistics.availability_count
                <= self.iterations as int + 1 by {
                let jo = choose|jo: int|
                    1 <= jo < t0.len() && (#[trigger] self.tree@[jn]).statistics == t0[
                        jo].statistics;
                assert(t0[jo].statistics.visit_count <= self.iterations as int);
            };
            // Any position holding `mov` is the position of `c`.
            lemma_child_positions_distinct(t0, 0);
            assert forall|k2: int|
                0 <= k2 < t0[0].children@.len() && t0[(#[trigger] t0[0].children@[
                k2]) as int].mov == Some(mov) implies t0[0].children@[k2] == c by {
                let kc = choose|kc: int|
                    0 <= kc < t0[0].children@.len() && (#[trigger] t0[0].children@[kc]) == c && t0[
                        c as int].mov == Some(mov);
                assert(wf_children(t0, 0));
                if k2 != kc {
                    assert(t0[t0[0].children@[k2] as int].mov != t0[t0[
                        0].children@[kc] as int].mov);
                }
            };
            // Hand the rebuild's index table on to every matching position.
            assert forall|k2: int|
                0 <= k2 < t0[0].children@.len() && t0[(#[trigger] t0[0].children@[
                k2]) as int].mov == Some(mov) implies exists|olds: Seq<usize>|
                #[trigger] subtree_correspondence(
                    t0,
                    self.tree@,
                    t0[0].children@[k2] as int,
                    olds,
                ) by {
                assert(t0[0].children@[k2] == c);
                let olds_w = choose|olds: Seq<usize>|
                    #[trigger] subtree_correspondence(t0, self.tree@, c as int, olds);
                assert(subtree_correspondence(
                    t0,
                    self.tree@,
                    t0[0].children@[k2] as int,
                    olds_w,
                ));
            };
        }
    }

    /// The number of children of the root.
    pub fn root_child_count(&self) -> (r: usize)
        requires
            self.inv(),
        ensures
            r == self.tree_view()[0].children@.len(),
    {
        self.tree.child_count(0)
    }

    /// The number of children of the `k`-th root child.
    pub fn root_grandchild_count(&self, k: usize) -> (r: usize)
        requires
            self.inv(),
            k < self.tree_view()[0].children@.len(),
        ensures
            r == self.tree_view()[self.tree_view()[0].children@[k as int] as int].children@.len(),
    {
        let c = self.tree.child_at(0, k);
        self.tree.child_count(c)
    }

    /// The entering move of the most-visited root child (ties go to the
    /// first); absent when the root has no children.
    pub fn best_move(&self) -> (r: Option<u64>)
        requires
            self.inv(),
        ensures
            r is Some <==> self.tree_view()[0].children@.len() > 0,
            r is Some ==> exists|k0: int|
                #[trigger] most_visited_at(self.tree_view(), k0, r.unwrap()),
    {
        let ghost t = self.tree@;
        let n = self.tree.child_count(0);
        let mut k: usize = 0;
        let mut best_mov: u64 = 0;
        let mut best_vis: u64 = 0;
        let ghost mut best_pos: int = 0;
        let mut found = false;
        while k < n
            invariant
                self.inv(),
                t == self.tree@,
                n == t[0].children@.len(),
                k <= n,
                found <==> k > 0,
                found ==> {
                    &&& 0 <= best_pos < k
                    &&& t[t[0].children@[best_pos] as int].mov == Some(best_mov)
                    &&& best_vis == t[t[0].children@[best_pos] as int].statistics.visit_count
                    &&& forall|k2: int|
                        0 <= k2 < k ==> t[(#[trigger] t[0].children@[
                            k2]) as int].statistics.visit_count <= best_vis
                    &&& forall|k2: int|
                        0 <= k2 < best_pos ==> t[(#[trigger] t[0].children@[
                            k2]) as int].statistics.visit_count < best_vis
                },
            decreases n - k,
        {
            proof {
                assert(wf_children(t, 0));
            }
            let c = self.tree.child_at(0, k);
            proof {
                assert(wf_node(t, c as int));
            }
            let st = self.tree.stats_of(c);
            if !found || st.visit_count > best_vis {
                found = true;
                best_vis = st.visit_count;
                best_mov = self.tree.move_of(c);
                proof {
                    best_pos = k as int;
                }
            }
            k += 1;
        }
        let r = if found {
            Some(best_mov)
        } else {
            None
        };
        proof {
            if found {
                assert(most_visited_at(t, best_pos, r.unwrap()));
            }
        }
        r
    }

    /// The largest visit count among the root's children; zero when there
    /// are none.
    pub fn max_visits(&self) -> (r: u64)
        requires
            self.inv(),
        ensures
            is_max_visits(self.tree_view(), r),
    {
        let ghost t = self.tree@;
        let n = self.tree.child_count(0);
        let mut k: usize = 0;
        let mut best: u64 = 0;
        while k < n
            invariant
                self.inv(),
                t == self.tree@,
                n == t[0].children@.len(),
                k <= n,
                forall|k2: int|
                    0 <= k2 < k ==> t[(#[trigger] t[0].children@[
                        k2]) as int].statistics.visit_count <= best,
                k == 0 ==> best == 0,
                k > 0 ==> exists|k2: int|
                    0 <= k2 < k && t[(#[trigger] t[0].children@[
                        k2]) as int].statistics.visit_count == best,
            decreases n - k,
        {
            proof {
                assert(wf_children(t, 0));
            }
            let c = self.tree.child_at(0, k);
            let st = self.tree.stats_of(c);
            if k == 0 || st.visit_count > best {
                best = st.visit_count;
            }
            k += 1;
        }
        best
    }

    /// The total visit count over the root's children, saturating at
    /// `u64::MAX`.
    pub fn total_visits(&self) -> (r: u64)
        requires
            self.inv(),
        ensures
            r as int == min_int(root_visit_sum(self.tree_view()), u64::MAX as int),
    {
        let ghost t = self.tree@;
        let ghost cs = t[0].children@;
        let n = self.tree.child_count(0);
        let mut k: usize = 0;
        let mut acc: u64 = 0;
        proof {
            assert(cs.take(0) =~= Seq::<usize>::empty());
            assert(sum_visits(t, cs.take(0)) == 0);
        }
        while k < n
            invariant
                self.inv(),
                t == self.tree@,
                cs == t[0].children@,
                n == cs.len(),
                k <= n,
                acc as int == min_int(sum_visits(t, cs.take(k as int)), u64::MAX as int),
            decreases n - k,
        {
            proof {
                assert(wf_children(t, 0));
            }
            let c = self.tree.child_at(0, k);
            let st = self.tree.stats_of(c);
            let next = crate::fixed::sat_add(acc, st.visit_count);
            proof {
                assert(cs.take(k as int + 1) =~= cs.take(k as int).push(cs[k as int]));
                lemma_sum_push(t, cs.take(k as int), cs[k as int]);
                // Visits are non-negative, so saturation composes with the sum.
                assert(sum_visits(t, cs.take(k as int)) >= 0) by {
                    lemma_sum_nonneg(t, cs.take(k as int));
                };
            }
            acc = next;
            k += 1;
        }
        proof {
            assert(cs.take(n as int) =~= cs);
        }
        acc
    }
}

impl<G: Game> IsmctsHandler<G> {
    /// A one-line summary of the strongest root child's visit count.
    pub fn debug_max_visits(&self) -> (r: String)
        requires
            self.inv(),
        ensures
            exists|v: u64|
                #[trigger] is_max_visits(self.tree_view(), v) && r@ == "Max visit count: "@
                    + dec_chars(v as nat),
    {
        let v = self.max_visits();
        crate::fmt::label_count("Max visit count: ", v)
    }

    /// The visit count of the `p`-th root child.
    fn root_child_visits_at(&self, p: usize) -> (r: u64)
        requires
            self.inv(),
            p < self.tree_view()[0].children@.len(),
        ensures
            r == self.tree_view()[self.tree_view()[0].children@[p as int] as int].statistics.visit_count,
    {
        proof {
            assert(wf_children(self.tree@, 0));
        }
        let c = self.tree.child_at(0, p);
        self.tree.stats_of(c).visit_count
    }

    /// The root-child positions arranged by non-decreasing visit count,
    /// built by insertion sort.
    fn visit_order(&self) -> (ord: Vec<usize>)
        requires
            self.inv(),
        ensures
            is_visit_order(self.tree_view(), ord@),
    {
        let ghost t = self.tree@;
        let n = self.tree.child_count(0);
        let mut ord: Vec<usize> = Vec::new();
        let mut q: usize = 0;
        while q < n
            invariant
                self.inv(),
                t == self.tree@,
                n == t[0].children@.len(),
                q <= n,
                ord@.len() == q,
                ord@.no_duplicates(),
                forall|p: int| 0 <= p < ord@.len() ==> (#[trigger] ord@[p]) < q,
                forall|a: int, b: int|
                    #![trigger ord@[a], ord@[b]]
                    0 <= a < b < ord@.len() ==> t[t[0].children@[ord@[a] as int] as int].statistics.visit_count <= t[t[0].children@[ord@[b] as int] as int].statistics.visit_count,
            decreases n - q,
        {
            let vq = self.root_child_visits_at(q);
            let mut ins: usize = 0;
            while ins < ord.len() && self.root_child_visits_at(ord[ins]) <= vq
                invariant
                    self.inv(),
                    t == self.tree@,
                    n == t[0].children@.len(),
                    q < n,
                    vq == t[t[0].children@[q as int] as int].statistics.visit_count,
                    ins <= ord@.len(),
                    forall|p: int| 0 <= p < ord@.len() ==> (#[trigger] ord@[p]) < q,
                    forall|p: int|
                        0 <= p < ins ==> t[t[0].children@[(#[trigger] ord@[p]) as int] as int].statistics.visit_count <= vq,
                decreases ord@.len() - ins,
            {
                ins += 1;
            }
            let ghost pre = ord@;
            ord.insert(ins, q);
            proof {
                // The inserted position is fresh and lands between smaller
                // and larger visit counts.
                assert forall|a: int, b: int| 0 <= a < b < ord@.len() implies #[trigger] ord@[a]
                    != #[trigger] ord@[b] by {
                    if a < ins && b == ins {
                        assert(ord@[a] == pre[a] && pre[a] < q);
                    } else if a == ins && b > ins {
                        assert(ord@[b] == pre[b - 1] && pre[b - 1] < q);
                    }
                };
                assert forall|a: int, b: int|
                    #![trigger ord@[a], ord@[b]]
                    0 <= a < b < ord@.len() implies t[t[0].children@[
                    ord@[a] as int] as int].statistics.visit_count <= t[t[0].children@[
                    ord@[b] as int] as int].statistics.visit_count by {
                    if b < ins {
                    } else if b == ins {
                        assert(ord@[a] == pre[a]);
                    } else if a == ins {
                        assert(ord@[b] == pre[b - 1]);
                        if ins < pre.len() {
                            assert(vq < t[t[0].children@[
                                pre[ins as int] as int] as int].statistics.visit_count);
                        }
                    } else if a < ins {
                        assert(ord@[a] == pre[a] && ord@[b] == pre[b - 1]);
                    } else {
                        assert(ord@[a] == pre[a - 1] && ord@[b] == pre[b - 1]);
                    }
                };
            }
            q += 1;
        }
        ord
    }

    /// One line per root child — its entering move and its counters — in
    /// order of non-decreasing visit count.
    pub fn debug_children(&self) -> (r: String)
        requires
            self.inv(),
        ensures
            exists|order: Seq<usize>|
                #[trigger] is_visit_order(self.tree_view(), order) && r@ == report_over(
                    self.tree_view(),
                    order,
                    order.len() as int,
                ),
    {
        let ghost t = self.tree@;
        let ord = self.visit_order();
        let n = ord.len();
        let mut s = <String as StringExecFns>::from_str("");
        proof {
            reveal_strlit("");
            assert(s@ =~= report_over(t, ord@, 0));
        }
        let mut k: usize = 0;
        while k < n
            invariant
                self.inv(),
                t == self.tree@,
                is_visit_order(t, ord@),
                n == ord@.len(),
                k <= n,
                s@ == report_over(t, ord@, k as int),
            decreases n - k,
        {
            proof {
                assert(wf_children(t, 0));
            }
            let pos = ord[k];
            let c = self.tree.child_at(0, pos);
            proof {
                assert(wf_node(t, c as int));
            }
            let st = self.tree.stats_of(c);
            let mov = self.tree.move_of(c);
            s.append("move ");
            let d1 = crate::fmt::dec_string(mov);
            s.append(d1.as_str());
            s.append(": visits ");
            let d2 = crate::fmt::dec_string(st.visit_count);
            s.append(d2.as_str());
            s.append(", availability ");
            let d3 = crate::fmt::dec_string(st.availability_count);
            s.append(d3.as_str());
            s.append(", reward ");
            let d4 = crate::fmt::dec_string(st.reward);
            s.append(d4.as_str());
            s.append("\n");
            k += 1;
            proof {
                assert(s@ =~= report_over(t, ord@, k as int));
            }
        }
        proof {
            assert(is_visit_order(self.tree_view(), ord@) && s@ == report_over(
                self.tree_view(),
                ord@,
                ord@.len() as int,
            ));
        }
        s
    }

    /// A trace of one UCB1 descent from the root on a fresh determinization:
    /// one line per chosen child, giving the depth entered and the child's
    /// counters. The walk only reads the tree; no counter changes. The
    /// returned string renders exactly one root-anchored path of the tree.
    pub fn debug_select(&self) -> (r: String)
        requires
            self.inv(),
        ensures
            exists|path: Seq<usize>|
                #[trigger] is_tree_path(self.tree_view(), path) && r@ == select_trace(
                    self.tree_view(),
                    path,
                    path.len() as int,
                ) && ((!self.state_view().is_terminal() && !has_untried_root_move(
                    self.tree_view(),
                    self.state_view().legal_moves(),
                )) ==> path.len() >= 2 && exists|k0: int|
                    #[trigger] selected_at(
                        self.tree_view(),
                        0,
                        k0,
                        self.state_view().legal_moves(),
                        path[1],
                    )),
    {
        let ghost tr = self.tree@;
        let ghost rl = self.root_state.legal_moves();
        let ghost covered = !self.root_state.is_terminal() && !has_untried_root_move(tr, rl);
        let ghost mut gpath: Seq<usize> = seq![0usize];
        let mut s = <String as StringExecFns>::from_str("");
        proof {
            reveal_strlit("");
            assert(s@ =~= select_trace(tr, gpath, gpath.len() as int));
        }
        let mut state = self.root_state.duplicate();
        let obs = state.current_player();
        state.randomize_determination(obs);
        let mut cur: usize = 0;
        let mut depth: u64 = 0;
        let mut legal: Vec<u64> = state.available_moves();
        proof {
            state.lemma_terminal_iff_no_moves();
        }
        let mut untried: Vec<u64> = self.tree.untried_moves(cur, &legal);
        proof {
            // With the root covered, the first loop test must pass: the
            // determinization keeps the observer's legal moves, so every one
            // of them already has a root child.
            if covered {
                assert(legal@ == rl);
                assert(legal@.len() > 0);
                if untried@.len() > 0 {
                    assert(untried@.contains(untried@[0]));
                    lemma_root_move_iff(tr, untried@[0]);
                    assert(has_untried_root_move(tr, rl));
                }
                assert(untried@.len() == 0);
            }
        }
        while legal.len() > 0 && untried.len() == 0
            invariant
                self.inv(),
                tr == self.tree@,
                state.inv(),
                cur < tr.len(),
                depth <= cur,
                is_tree_path(tr, gpath),
                gpath.last() == cur,
                depth == gpath.len() - 1,
                s@ == select_trace(tr, gpath, gpath.len() as int),
                rl == self.root_state.legal_moves(),
                covered == (!self.root_state.is_terminal() && !has_untried_root_move(tr, rl)),
                covered ==> (gpath.len() >= 2 && exists|k0: int|
                    #[trigger] selected_at(tr, 0, k0, rl, gpath[1])) || (cur == 0 && legal@ == rl
                    && untried@.len() == 0 && legal@.len() > 0),
                legal@ == state.legal_moves(),
                legal@.no_duplicates(),
                legal@.len() == 0 <==> state.is_terminal(),
                forall|m: u64|
                    #[trigger] untried@.contains(m) <==> (legal@.contains(m)
                        && !node_has_child_move(tr, cur as int, m)),
            decreases tr.len() - cur,
        {
            let copt = self.tree.peek_best(cur, &legal);
            proof {
                assert(wf_children(tr, cur as int));
                let m0 = legal@[0];
                assert(legal@.contains(m0));
                assert(!untried@.contains(m0));
                assert(node_has_child_move(tr, cur as int, m0));
                let k = choose|k: int|
                    0 <= k < tr[cur as int].children@.len() && tr[#[trigger] tr[
                        cur as int].children@[k] as int].mov == Some(m0);
                assert(wf_node(tr, tr[cur as int].children@[k] as int));
                assert(pos_is_legal(tr, cur as int, k, legal@));
            }
            let c = copt.unwrap();
            let ghost k0 = choose|k0: int| selected_at(tr, cur as int, k0, legal@, c);
            proof {
                assert(selected_at(tr, cur as int, k0, legal@, c));
                assert(wf_children(tr, cur as int));
                assert(tr[cur as int].children@[k0] == c);
                assert(cur < tr[cur as int].children@[k0] as int);
                assert(tr[cur as int].children@[k0] < tr.len());
                assert(wf_node(tr, c as int));
            }
            let st = self.tree.stats_of(c);
            let mov = self.tree.move_of(c);
            let ghost pre_s = s@;
            s.append("depth ");
            let d0 = crate::fmt::dec_string(depth);
            s.append(d0.as_str());
            s.append(": move ");
            let d1 = crate::fmt::dec_string(mov);
            s.append(d1.as_str());
            s.append(", visits ");
            let d2 = crate::fmt::dec_string(st.visit_count);
            s.append(d2.as_str());
            s.append(", availability ");
            let d3 = crate::fmt::dec_string(st.availability_count);
            s.append(d3.as_str());
            s.append("\n");
            proof {
                assert(s@ =~= pre_s + trace_line(tr, depth as nat, c as int));
                let gnext = gpath.push(c);
                lemma_select_trace_prefix(tr, gnext, gpath, gpath.len() as int);
                assert(gnext[gnext.len() - 1] == c);
                assert(s@ =~= select_trace(tr, gnext, gnext.len() as int));
                // The first chosen child is UCB1-maximal for the root's own
                // legal moves, which the determinization preserved.
                if covered && gpath.len() == 1 {
                    assert(legal@ == rl);
                    assert(selected_at(tr, 0, k0, rl, c));
                    assert(gnext[1] == c);
                }
                if covered && gpath.len() >= 2 {
                    assert(gnext[1] == gpath[1]);
                }
                gpath = gnext;
                assert(pos_is_legal(tr, cur as int, k0, legal@));
                assert(legal@.contains(mov));
                state.lemma_terminal_iff_no_moves();
            }
            state.make_move(mov);
            depth += 1;
            cur = c;
            legal = state.available_moves();
            proof {
                state.lemma_terminal_iff_no_moves();
            }
            untried = self.tree.untried_moves(cur, &legal);
        }
        proof {
            assert(is_tree_path(self.tree_view(), gpath) && s@ == select_trace(
                self.tree_view(),
                gpath,
                gpath.len() as int,
            ));
            if covered {
                assert(gpath.len() >= 2 && exists|k0: int|
                    #[trigger] selected_at(tr, 0, k0, rl, gpath[1]));
                let k0w = choose|k0: int| #[trigger] selected_at(tr, 0, k0, rl, gpath[1]);
                assert(selected_at(
                    self.tree_view(),
                    0,
                    k0w,
                    self.state_view().legal_moves(),
                    gpath[1],
                ));
            }
        }
        s
    }
}

/// A sum of visit counts is never negative.
pub proof fn lemma_sum_nonneg(t: Seq<Node>, cs: Seq<usize>)
    ensures
        sum_visits(t, cs) >= 0,
    decreases cs.len(),
{
    if cs.len() > 0 {
        lemma_sum_nonneg(t, cs.drop_first());
    }
}

} // verus!
