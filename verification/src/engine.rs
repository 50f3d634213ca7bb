//! The four-phase ISMCTS iteration: determinize, select, expand, simulate,
//! backpropagate — executed against the shared search tree.

use vstd::prelude::*;
use crate::game::{Game, random_rollout, reachable, lemma_reachable_mono, lemma_reachable_step, lemma_reachable_trans};
use crate::fixed::sat_add_spec;
use crate::rng::random_below;
use crate::tree::{
    Tree, Node, wf, mature, bounded, wf_node, wf_children, node_has_child_move, root_moves,
    root_visit_sum, sum_visits, is_legal_child, pos_is_legal, selected_at, same_tree,
    lemma_root_move_iff, lemma_root_moves_frame, lemma_root_moves_push, lemma_sum_same,
    lemma_sum_push, lemma_sum_bump_at, lemma_child_positions_distinct,
};

verus! {

/// Some legal move at the root is not yet represented by a root child.
pub open spec fn has_untried_root_move(t: Seq<Node>, legal: Seq<u64>) -> bool {
    exists|m: u64| #[trigger] legal.contains(m) && !root_moves(t).contains(m)
}

/// Every move of `a` also occurs in `b`.
pub open spec fn moves_subset(a: Seq<u64>, b: Seq<u64>) -> bool {
    forall|m: u64| #[trigger] a.contains(m) ==> b.contains(m)
}

/// The smaller of two integers.
pub open spec fn min_int(a: int, b: int) -> int {
    if a <= b {
        a
    } else {
        b
    }
}

/// The entering moves of the root's children are pairwise distinct.
pub proof fn lemma_root_moves_no_duplicates(t: Seq<Node>)
    requires
        wf(t),
    ensures
        root_moves(t).no_duplicates(),
{
    assert(wf_children(t, 0));
    assert forall|k1: int, k2: int|
        0 <= k1 < root_moves(t).len() && 0 <= k2 < root_moves(t).len() && k1 != k2 implies
        root_moves(t)[k1] != root_moves(t)[k2] by {
        let c1 = t[0].children@[k1] as int;
        let c2 = t[0].children@[k2] as int;
        assert(wf_node(t, c1));
        assert(wf_node(t, c2));
        assert(t[c1].mov != t[c2].mov);
    };
}

/// A duplicate-free sequence drawn from `rl` has at most as many entries as
/// `rl` has distinct moves; when the counts agree it covers all of `rl`.
pub proof fn lemma_seq_subset_count(rm: Seq<u64>, rl: Seq<u64>)
    requires
        rm.no_duplicates(),
        moves_subset(rm, rl),
    ensures
        rm.len() <= rl.to_set().len(),
        rm.len() == rl.to_set().len() ==> moves_subset(rl, rm),
{
    broadcast use vstd::set::group_set_axioms;

    rm.unique_seq_to_set();
    vstd::seq_lib::seq_to_set_is_finite(rm);
    vstd::seq_lib::seq_to_set_is_finite(rl);
    assert forall|x: u64| rm.to_set().contains(x) implies rl.to_set().contains(x) by {
        assert(rm.contains(x));
    };
    assert(rm.to_set().subset_of(rl.to_set()));
    vstd::set_lib::lemma_len_subset(rm.to_set(), rl.to_set());
    if rm.len() == rl.to_set().len() {
        assert forall|m: u64| #[trigger] rl.contains(m) implies rm.contains(m) by {
            if !rm.contains(m) {
                assert(!rm.to_set().contains(m));
                assert(rm.to_set().subset_of(rl.to_set().remove(m)));
                vstd::set_lib::lemma_len_subset(rm.to_set(), rl.to_set().remove(m));
                assert(rl.to_set().remove(m).len() == rl.to_set().len() - 1);
            }
        };
    }
}

/// One iteration's effect on the root moves, counted: while some legal root
/// move is untried the list grows by one legal move, and once all are tried
/// it stays fixed.
pub proof fn lemma_coverage_step(t_i: Seq<Node>, t_n: Seq<Node>, rl: Seq<u64>)
    requires
        wf(t_i),
        moves_subset(root_moves(t_i), rl),
        has_untried_root_move(t_i, rl) ==> exists|m: u64|
            #[trigger] rl.contains(m) && !root_moves(t_i).contains(m) && root_moves(t_n)
                == root_moves(t_i).push(m),
        !has_untried_root_move(t_i, rl) ==> root_moves(t_n) == root_moves(t_i),
    ensures
        moves_subset(root_moves(t_n), rl),
        root_moves(t_i).len() <= rl.to_set().len(),
        root_moves(t_i).len() < rl.to_set().len() ==> root_moves(t_n).len() == root_moves(
            t_i,
        ).len() + 1,
        root_moves(t_i).len() == rl.to_set().len() ==> root_moves(t_n) == root_moves(t_i),
{
    lemma_root_moves_no_duplicates(t_i);
    lemma_seq_subset_count(root_moves(t_i), rl);
    if has_untried_root_move(t_i, rl) {
        let m = choose|m: u64|
            #[trigger] rl.contains(m) && !root_moves(t_i).contains(m) && root_moves(t_n)
                == root_moves(t_i).push(m);
        assert(root_moves(t_n).len() == root_moves(t_i).len() + 1);
        assert forall|m2: u64| #[trigger] root_moves(t_n).contains(m2) implies rl.contains(
            m2,
        ) by {
            let k = choose|k: int| 0 <= k < root_moves(t_n).len() && root_moves(t_n)[k] == m2;
            if k < root_moves(t_i).len() {
                assert(root_moves(t_i).contains(m2));
            } else {
                assert(m2 == m);
            }
        };
        // An untried move means the count is short of the distinct legal moves.
        assert(root_moves(t_i).len() < rl.to_set().len()) by {
            if root_moves(t_i).len() == rl.to_set().len() {
                let mu = choose|mu: u64|
                    #[trigger] rl.contains(mu) && !root_moves(t_i).contains(mu);
                assert(moves_subset(rl, root_moves(t_i)));
            }
        };
    } else {
        // Every legal move is tried: the count has reached the distinct
        // legal moves.
        if root_moves(t_i).len() < rl.to_set().len() {
            broadcast use vstd::set::group_set_axioms;

            vstd::seq_lib::seq_to_set_is_finite(rl);
            let rms = root_moves(t_i);
            rms.unique_seq_to_set();
            assert forall|x: u64| rms.to_set().contains(x) implies rl.to_set().contains(x) by {
                assert(rms.contains(x));
            };
            assert(rms.to_set().subset_of(rl.to_set()));
            if rl.to_set() =~= rms.to_set() {
                assert(rl.to_set().len() == rms.to_set().len());
            } else {
                let xm = choose|xm: u64| rl.to_set().contains(xm) != rms.to_set().contains(xm);
                assert(rl.contains(xm) && !rms.contains(xm));
                assert(has_untried_root_move(t_i, rl));
            }
        }
    }
}

/// A worker's time budget: run iterations against the shared tree until the
/// wall clock has moved past `time` (checked at iteration boundaries), each
/// on a fresh clone of the root state. `iterations` counts every finished
/// iteration, ever; the loop also stops short of overflowing it.
pub(crate) fn ismcts_work_thread_timed<G: Game>(
    root_state: &G,
    tree: &mut Tree,
    time: &core::time::Duration,
    iterations: &mut u64,
)
    requires
        root_state.inv(),
        wf(old(tree)@),
        mature(old(tree)@),
        bounded(old(tree)@, *old(iterations) as int),
    ensures
        wf(final(tree)@),
        mature(final(tree)@),
        bounded(final(tree)@, *final(iterations) as int),
        *final(iterations) >= *old(iterations),
        !root_state.is_terminal() ==> root_visit_sum(final(tree)@) == root_visit_sum(old(tree)@)
            + (*final(iterations) - *old(iterations)),
        root_state.is_terminal() ==> same_tree(old(tree)@, final(tree)@),
        !root_state.is_terminal() && moves_subset(
            root_moves(old(tree)@),
            root_state.legal_moves(),
        ) ==> moves_subset(root_moves(final(tree)@), root_state.legal_moves()) && root_moves(
            final(tree)@,
        ).len() == min_int(
            root_moves(old(tree)@).len() + (*final(iterations) - *old(iterations)),
            root_state.legal_moves().to_set().len() as int,
        ),
        final(tree)@.len() <= old(tree)@.len() + (*final(iterations) - *old(iterations)),
        preserves_shape(old(tree)@, final(tree)@),
        final(tree)@[0].statistics == old(tree)@[0].statistics,
{
    let ghost t0 = tree@;
    let ghost rl = root_state.legal_moves();
    let ghost m_all = rl.to_set().len() as int;
    proof {
        lemma_preserves_shape_refl(t0);
        if !root_state.is_terminal() && moves_subset(root_moves(t0), rl) {
            lemma_root_moves_no_duplicates(t0);
            lemma_seq_subset_count(root_moves(t0), rl);
        }
    }
    let start = crate::clock::instant_now();
    let mut running = true;
    while running
        invariant
            root_state.inv(),
            wf(tree@),
            mature(tree@),
            bounded(tree@, *iterations as int),
            *iterations >= *old(iterations),
            wf(t0),
            !root_state.is_terminal() ==> root_visit_sum(tree@) == root_visit_sum(t0) + (
            *iterations - *old(iterations)),
            root_state.is_terminal() ==> same_tree(t0, tree@),
            !root_state.is_terminal() && moves_subset(root_moves(t0), rl) ==> moves_subset(
                root_moves(tree@),
                rl,
            ) && root_moves(tree@).len() == min_int(
                root_moves(t0).len() + (*iterations - *old(iterations)),
                m_all,
            ),
            rl == root_state.legal_moves(),
            m_all == rl.to_set().len(),
            tree@.len() <= t0.len() + (*iterations - *old(iterations)),
            preserves_shape(t0, tree@),
            tree@[0].statistics == t0[0].statistics,
        decreases u64::MAX - *iterations + (if running {
            1int
        } else {
            0int
        }),
    {
        let el = crate::clock::elapsed_since(&start);
        if crate::clock::duration_exceeds(&el, time) || *iterations >= u64::MAX - 2 {
            running = false;
        } else {
            let ghost t_i = tree@;
            ismcts_one_iteration(root_state, tree, Ghost(*iterations as int));
            *iterations = *iterations + 1;
            proof {
                lemma_preserves_shape_trans(t0, t_i, tree@);
                if root_state.is_terminal() {
                    assert(same_tree(t_i, tree@));
                    assert forall|j: int| 0 <= j < t0.len() implies (#[trigger] tree@[j]).mov
                        == t0[j].mov && tree@[j].parent == t0[j].parent && tree@[j].children@
                        == t0[j].children@ && tree@[j].player_just_moved == t0[j].player_just_moved
                        && tree@[j].statistics == t0[j].statistics by {};
                    assert(same_tree(t0, tree@));
                } else if moves_subset(root_moves(t0), rl) {
                    lemma_coverage_step(t_i, tree@, rl);
                }
            }
        }
    }
}

/// A worker's quota: run `n_iterations` iterations against the shared tree,
/// each on a fresh clone of the root state.
pub(crate) fn ismcts_work_thread_iterations<G: Game>(
    root_state: &G,
    tree: &mut Tree,
    n_iterations: usize,
    done: Ghost<int>,
)
    requires
        root_state.inv(),
        wf(old(tree)@),
        mature(old(tree)@),
        bounded(old(tree)@, done@),
        0 <= done@,
        done@ + n_iterations + 1 <= u64::MAX,
    ensures
        wf(final(tree)@),
        mature(final(tree)@),
        bounded(final(tree)@, done@ + n_iterations),
        !root_state.is_terminal() ==> root_visit_sum(final(tree)@) == root_visit_sum(old(tree)@)
            + n_iterations,
        root_state.is_terminal() ==> same_tree(old(tree)@, final(tree)@),
        !root_state.is_terminal() && moves_subset(
            root_moves(old(tree)@),
            root_state.legal_moves(),
        ) ==> moves_subset(root_moves(final(tree)@), root_state.legal_moves()) && root_moves(
            final(tree)@,
        ).len() == min_int(
            root_moves(old(tree)@).len() + n_iterations,
            root_state.legal_moves().to_set().len() as int,
        ),
        final(tree)@.len() <= old(tree)@.len() + n_iterations,
        preserves_shape(old(tree)@, final(tree)@),
        final(tree)@[0].statistics == old(tree)@[0].statistics,
{
    let ghost t0 = tree@;
    let ghost rl = root_state.legal_moves();
    let ghost m_all = rl.to_set().len() as int;
    proof {
        lemma_preserves_shape_refl(t0);
        if !root_state.is_terminal() && moves_subset(root_moves(t0), rl) {
            lemma_root_moves_no_duplicates(t0);
            lemma_seq_subset_count(root_moves(t0), rl);
        }
    }
    let mut i: usize = 0;
    while i < n_iterations
        invariant
            root_state.inv(),
            wf(tree@),
            mature(tree@),
            bounded(tree@, done@ + i),
            0 <= done@,
            done@ + n_iterations + 1 <= u64::MAX,
            i <= n_iterations,
            wf(t0),
            !root_state.is_terminal() ==> root_visit_sum(tree@) == root_visit_sum(t0) + i,
            root_state.is_terminal() ==> same_tree(t0, tree@),
            !root_state.is_terminal() && moves_subset(root_moves(t0), rl) ==> moves_subset(
                root_moves(tree@),
                rl,
            ) && root_moves(tree@).len() == min_int(root_moves(t0).len() + i, m_all),
            rl == root_state.legal_moves(),
            m_all == rl.to_set().len(),
            tree@.len() <= t0.len() + i,
            preserves_shape(t0, tree@),
            tree@[0].statistics == t0[0].statistics,
        decreases n_iterations - i,
    {
        let ghost t_i = tree@;
        ismcts_one_iteration(root_state, tree, Ghost(done@ + i as int));
        i += 1;
        proof {
            lemma_preserves_shape_trans(t0, t_i, tree@);
            if !root_state.is_terminal() {
                if moves_subset(root_moves(t0), rl) {
                    lemma_coverage_step(t_i, tree@, rl);
                }
            } else {
                assert(same_tree(t_i, tree@));
                assert forall|j: int| 0 <= j < t0.len() implies (#[trigger] tree@[j]).mov == t0[
                j].mov && tree@[j].parent == t0[j].parent && tree@[j].children@ == t0[j].children@
                    && tree@[j].player_just_moved == t0[j].player_just_moved && tree@[j].statistics
                    == t0[j].statistics by {};
                assert(same_tree(t0, tree@));
            }
        }
    }
}

/// Node `j` stands at a path position strictly above `kk`.
pub open spec fn on_path_above(path_f: Seq<usize>, kk: int, j: int) -> bool {
    exists|p: int| kk < p < path_f.len() && #[trigger] path_f[p] == j
}

/// Exactly the nodes at path positions above `kk` have gained one visit.
pub open spec fn visits_updated_above(
    t_exp: Seq<Node>,
    t: Seq<Node>,
    path_f: Seq<usize>,
    kk: int,
) -> bool {
    forall|j: int|
        0 <= j < t_exp.len() ==> (#[trigger] t[j]).statistics.visit_count == t_exp[
            j].statistics.visit_count + (
        if on_path_above(path_f, kk, j) {
            1int
        } else {
            0int
        })
}

/// Exactly the nodes at path positions above `kk` have been credited the
/// terminal payoff of the player who just moved into them.
pub open spec fn rewards_updated_above<G: Game>(
    t_exp: Seq<Node>,
    t: Seq<Node>,
    path_f: Seq<usize>,
    kk: int,
    ts: G,
) -> bool {
    forall|j: int|
        0 <= j < t_exp.len() ==> (#[trigger] t[j]).statistics.reward as int == (
        if on_path_above(path_f, kk, j) {
            sat_add_spec(
                t_exp[j].statistics.reward,
                ts.result_spec(t_exp[j].player_just_moved.unwrap()),
            ) as int
        } else {
            t_exp[j].statistics.reward as int
        })
}

/// The tree only grows: every old node keeps its labels and its child list
/// as a prefix; new nodes are only appended.
pub open spec fn preserves_shape(t0: Seq<Node>, t1: Seq<Node>) -> bool {
    &&& t0.len() <= t1.len()
    &&& forall|j: int|
        0 <= j < t0.len() ==> (#[trigger] t1[j]).mov == t0[j].mov && t1[j].parent == t0[j].parent
            && t1[j].player_just_moved == t0[j].player_just_moved && t1[j].children@.len() >= t0[
            j].children@.len() && t1[j].children@.take(t0[j].children@.len() as int) == t0[
            j].children@
}

/// A statistics-only change preserves the shape.
proof fn lemma_shape_from_frame(t1: Seq<Node>, t2: Seq<Node>)
    requires
        t2.len() == t1.len(),
        forall|j: int|
            0 <= j < t1.len() ==> (#[trigger] t2[j]).mov == t1[j].mov && t2[j].parent == t1[
                j].parent && t2[j].children == t1[j].children && t2[j].player_just_moved == t1[
                j].player_just_moved,
    ensures
        preserves_shape(t1, t2),
{
    assert forall|j: int| 0 <= j < t1.len() implies (#[trigger] t2[j]).mov == t1[j].mov && t2[
    j].parent == t1[j].parent && t2[j].player_just_moved == t1[j].player_just_moved && t2[
    j].children@.len() >= t1[j].children@.len() && t2[j].children@.take(
        t1[j].children@.len() as int,
    ) == t1[j].children@ by {
        assert(t2[j].children == t1[j].children);
        assert(t2[j].children@.take(t1[j].children@.len() as int) =~= t1[j].children@);
    };
}

/// `preserves_shape` is reflexive.
pub proof fn lemma_preserves_shape_refl(t: Seq<Node>)
    ensures
        preserves_shape(t, t),
{
    assert forall|j: int| 0 <= j < t.len() implies (#[trigger] t[j]).mov == t[j].mov && t[j].parent
        == t[j].parent && t[j].player_just_moved == t[j].player_just_moved && t[j].children@.len()
        >= t[j].children@.len() && t[j].children@.take(t[j].children@.len() as int) == t[
    j].children@ by {
        assert(t[j].children@.take(t[j].children@.len() as int) =~= t[j].children@);
    };
}

/// `preserves_shape` composes.
pub proof fn lemma_preserves_shape_trans(a: Seq<Node>, b: Seq<Node>, c: Seq<Node>)
    requires
        preserves_shape(a, b),
        preserves_shape(b, c),
    ensures
        preserves_shape(a, c),
{
    assert forall|j: int| 0 <= j < a.len() implies (#[trigger] c[j]).mov == a[j].mov && c[j].parent
        == a[j].parent && c[j].player_just_moved == a[j].player_just_moved && c[j].children@.len()
        >= a[j].children@.len() && c[j].children@.take(a[j].children@.len() as int) == a[
    j].children@ by {
        assert(c[j].children@.take(a[j].children@.len() as int) =~= c[j].children@.take(
            b[j].children@.len() as int,
        ).take(a[j].children@.len() as int));
        assert(b[j].children@.take(a[j].children@.len() as int) == a[j].children@);
    };
}

/// One full iteration, seen node by node: exactly the non-root nodes on a
/// root-anchored path gained one visit and were credited the payoff, for
/// the player who just moved into them, of one terminal state; the visit
/// count and reward of every other node are unchanged; at most one node was
/// created, and it lies at the tip of the path with a single visit.
pub open spec fn iteration_visits<G: Game>(
    t0: Seq<Node>,
    t1: Seq<Node>,
    path: Seq<usize>,
    ts: G,
) -> bool {
    &&& ts.inv()
    &&& ts.is_terminal()
    &&& 2 <= path.len()
    &&& path[0] == 0
    &&& forall|p: int| 0 <= p < path.len() ==> (#[trigger] path[p]) < t1.len()
    &&& forall|p: int|
        1 <= p < path.len() ==> t1[(#[trigger] path[p]) as int].parent == Some(path[p - 1])
            && path[p - 1] < path[p]
    &&& t0.len() <= t1.len() <= t0.len() + 1
    &&& forall|j: int|
        0 <= j < t0.len() ==> (#[trigger] t1[j]).statistics.visit_count == t0[
            j].statistics.visit_count + (
        if on_path_above(path, 0, j) {
            1int
        } else {
            0int
        })
    &&& forall|j: int|
        0 <= j < t0.len() ==> (#[trigger] t1[j]).statistics.reward as int == (
        if on_path_above(path, 0, j) {
            sat_add_spec(
                t0[j].statistics.reward,
                ts.result_spec(t1[j].player_just_moved.unwrap()),
            ) as int
        } else {
            t0[j].statistics.reward as int
        })
    &&& forall|j: int|
        t0.len() <= j < t1.len() ==> (#[trigger] t1[j]).statistics.visit_count == 1 && t1[
            j].statistics.reward == ts.result_spec(t1[j].player_just_moved.unwrap())
            && on_path_above(path, 0, j) && path[path.len() - 1] == j
}

/// `ts` is the end of a game legally played out from a determinization of
/// `root`: a state agreeing with `root` on everything the player to move
/// observes — terminality, turn, and that player's legal moves — from which
/// `ts` arises by legal moves alone.
pub open spec fn played_from<G: Game>(root: G, s_det: G, ts: G) -> bool {
    &&& s_det.inv()
    &&& s_det.is_terminal() == root.is_terminal()
    &&& s_det.cur_player() == root.cur_player()
    &&& s_det.legal_moves() == root.legal_moves()
    &&& reachable(s_det, ts, s_det.remaining())
}

/// One backpropagation step extends the updated suffix of the path by one,
/// both for visits and for rewards.
proof fn lemma_backprop_step<G: Game>(
    t_exp: Seq<Node>,
    t_b: Seq<Node>,
    t_a: Seq<Node>,
    path_f: Seq<usize>,
    kk: int,
    ts: G,
)
    requires
        1 <= kk < path_f.len(),
        forall|p: int| 1 <= p < path_f.len() ==> path_f[p - 1] < #[trigger] path_f[p],
        forall|p: int| 0 <= p < path_f.len() ==> (#[trigger] path_f[p]) < t_exp.len(),
        t_b.len() == t_exp.len(),
        t_a.len() == t_b.len(),
        visits_updated_above(t_exp, t_b, path_f, kk),
        rewards_updated_above(t_exp, t_b, path_f, kk, ts),
        forall|j: int| 0 <= j < t_a.len() && j != path_f[kk] ==> t_a[j] == t_b[j],
        t_b[path_f[kk] as int].player_just_moved == t_exp[
            path_f[kk] as int].player_just_moved,
        t_a[path_f[kk] as int].statistics.visit_count == t_b[
            path_f[kk] as int].statistics.visit_count + 1,
        t_a[path_f[kk] as int].statistics.reward == sat_add_spec(
            t_b[path_f[kk] as int].statistics.reward,
            ts.result_spec(t_b[path_f[kk] as int].player_just_moved.unwrap()),
        ),
    ensures
        visits_updated_above(t_exp, t_a, path_f, kk - 1),
        rewards_updated_above(t_exp, t_a, path_f, kk - 1, ts),
{
    let b = path_f[kk];
    assert forall|p: int| kk < p < path_f.len() implies #[trigger] path_f[p] != b by {
        lemma_path_strictly_increasing(path_f, kk, p);
    };
    assert(!on_path_above(path_f, kk, b as int));
    assert(t_b[b as int].statistics.visit_count == t_exp[b as int].statistics.visit_count);
    assert(t_b[b as int].statistics.reward == t_exp[b as int].statistics.reward);
    assert forall|j: int| 0 <= j < t_exp.len() implies (#[trigger] t_a[
    j]).statistics.visit_count == t_exp[j].statistics.visit_count + (
    if on_path_above(path_f, kk - 1, j) {
        1int
    } else {
        0int
    }) && t_a[j].statistics.reward as int == (
    if on_path_above(path_f, kk - 1, j) {
        sat_add_spec(
            t_exp[j].statistics.reward,
            ts.result_spec(t_exp[j].player_just_moved.unwrap()),
        ) as int
    } else {
        t_exp[j].statistics.reward as int
    }) by {
        if j == b {
            assert(path_f[kk] == j);
            assert(on_path_above(path_f, kk - 1, j));
        } else {
            assert(t_a[j] == t_b[j]);
            if on_path_above(path_f, kk - 1, j) {
                let p = choose|p: int| kk - 1 < p < path_f.len() && #[trigger] path_f[p] == j;
                assert(p != kk);
                assert(kk < p < path_f.len() && path_f[p] == j);
                assert(on_path_above(path_f, kk, j));
            } else {
                if on_path_above(path_f, kk, j) {
                    let p = choose|p: int| kk < p < path_f.len() && #[trigger] path_f[p] == j;
                    assert(kk - 1 < p);
                    assert(on_path_above(path_f, kk - 1, j));
                }
            }
        }
    };
}

/// Along a strictly increasing path, later positions hold larger indices.
proof fn lemma_path_strictly_increasing(path_f: Seq<usize>, a: int, b: int)
    requires
        forall|p: int| 1 <= p < path_f.len() ==> path_f[p - 1] < #[trigger] path_f[p],
        0 <= a < b < path_f.len(),
    ensures
        path_f[a] < path_f[b],
    decreases b - a,
{
    if a + 1 < b {
        lemma_path_strictly_increasing(path_f, a + 1, b);
    }
}

/// After a full backpropagation along a path that leaves the root, the sum
/// of root-child visits has grown by exactly one: the unique root child on
/// the path.
proof fn lemma_visit_conservation(
    t_exp: Seq<Node>,
    t_fin: Seq<Node>,
    path_f: Seq<usize>,
)
    requires
        wf(t_exp),
        t_fin.len() == t_exp.len(),
        path_f.len() >= 2,
        path_f[0] == 0,
        forall|p: int| 0 <= p < path_f.len() ==> (#[trigger] path_f[p]) < t_exp.len(),
        forall|p: int|
            1 <= p < path_f.len() ==> t_exp[(#[trigger] path_f[p]) as int].parent == Some(
                path_f[p - 1],
            ) && path_f[p - 1] < path_f[p],
        visits_updated_above(t_exp, t_fin, path_f, 0),
    ensures
        sum_visits(t_fin, t_exp[0].children@) == sum_visits(t_exp, t_exp[0].children@) + 1,
{
    let cs = t_exp[0].children@;
    let rc = path_f[1];
    assert(t_exp[rc as int].parent == Some(path_f[0]));
    assert(path_f[0] == 0usize);
    assert(wf_node(t_exp, rc as int));
    assert(cs.contains(rc));
    let pos0 = choose|pos0: int| 0 <= pos0 < cs.len() && cs[pos0] == rc;
    lemma_child_positions_distinct(t_exp, 0);
    assert(wf_children(t_exp, 0));
    assert forall|p: int| 0 <= p < cs.len() && p != pos0 implies #[trigger] cs[p] != rc by {};
    assert(t_fin[rc as int].statistics.visit_count == t_exp[rc as int].statistics.visit_count
        + 1) by {
        assert(path_f[1] == rc);
        assert(exists|p: int| 0 < p < path_f.len() && #[trigger] path_f[p] == rc);
    };
    assert forall|p: int| 0 <= p < cs.len() && cs[p] != rc implies t_fin[(#[trigger] cs[
    p]) as int].statistics.visit_count == t_exp[cs[p] as int].statistics.visit_count by {
        assert(t_exp[cs[p] as int].parent == Some(0usize));
        if exists|q: int| 0 < q < path_f.len() && #[trigger] path_f[q] == cs[p] as int {
            let q = choose|q: int| 0 < q < path_f.len() && #[trigger] path_f[q] == cs[p] as int;
            if q >= 2 {
                assert(t_exp[path_f[q] as int].parent == Some(path_f[q - 1]));
                assert(path_f[1] <= path_f[q - 1]) by {
                    if q - 1 > 1 {
                        lemma_path_strictly_increasing(path_f, 1, q - 1);
                    }
                };
                assert(path_f[q - 1] >= 1);
            } else {
                assert(path_f[q] == rc);
            }
        }
    };
    lemma_sum_bump_at(t_exp, t_fin, cs, rc, pos0);
}

/// After selection (statistics-only changes) and at most one expansion, the
/// old tree's shape survives and no visit or reward has moved yet.
proof fn lemma_expand_frame(
    t0: Seq<Node>,
    t_sel: Seq<Node>,
    t_exp: Seq<Node>,
    exp_parent: usize,
    expanded: bool,
)
    requires
        t_sel.len() == t0.len(),
        exp_parent < t0.len(),
        forall|j: int|
            0 <= j < t0.len() ==> (#[trigger] t_sel[j]).mov == t0[j].mov && t_sel[j].parent == t0[
                j].parent && t_sel[j].children == t0[j].children && t_sel[j].player_just_moved
                == t0[j].player_just_moved && t_sel[j].statistics.visit_count == t0[
                j].statistics.visit_count && t_sel[j].statistics.reward == t0[j].statistics.reward,
        t_sel[0].statistics == t0[0].statistics,
        expanded ==> {
            &&& t_exp.len() == t0.len() + 1
            &&& forall|j: int| 0 <= j < t0.len() && j != exp_parent ==> t_exp[j] == t_sel[j]
            &&& t_exp[exp_parent as int].mov == t_sel[exp_parent as int].mov
            &&& t_exp[exp_parent as int].parent == t_sel[exp_parent as int].parent
            &&& t_exp[exp_parent as int].player_just_moved == t_sel[
                exp_parent as int].player_just_moved
            &&& t_exp[exp_parent as int].statistics == t_sel[exp_parent as int].statistics
            &&& t_exp[exp_parent as int].children@ == t_sel[exp_parent as int].children@.push(
                t0.len() as usize,
            )
            &&& t_exp[t0.len() as int].statistics.visit_count == 0
            &&& t_exp[t0.len() as int].statistics.reward == 0
        },
        !expanded ==> t_exp == t_sel,
    ensures
        preserves_shape(t0, t_exp),
        t_exp[0].statistics == t0[0].statistics,
        t0.len() <= t_exp.len() <= t0.len() + 1,
        forall|j: int|
            0 <= j < t0.len() ==> (#[trigger] t_exp[j]).statistics.visit_count == t0[
                j].statistics.visit_count && t_exp[j].statistics.reward == t0[j].statistics.reward,
        expanded ==> t_exp.len() == t0.len() + 1 && t_exp[t_exp.len() - 1].statistics.visit_count
            == 0 && t_exp[t_exp.len() - 1].statistics.reward == 0,
        !expanded ==> t_exp.len() == t0.len(),
{
    assert forall|j: int| 0 <= j < t0.len() implies (#[trigger] t_exp[j]).mov == t0[j].mov
        && t_exp[j].parent == t0[j].parent && t_exp[j].player_just_moved == t0[j].player_just_moved
        && t_exp[j].children@.len() >= t0[j].children@.len() && t_exp[j].children@.take(
        t0[j].children@.len() as int,
    ) == t0[j].children@ && t_exp[j].statistics.visit_count == t0[j].statistics.visit_count
        && t_exp[j].statistics.reward == t0[j].statistics.reward by {
        if expanded && j == exp_parent {
            assert(t_exp[j].children@ == t0[j].children@.push(t0.len() as usize));
            assert(t_exp[j].children@.take(t0[j].children@.len() as int) =~= t0[j].children@);
        } else {
            assert(t_exp[j].children == t0[j].children);
            assert(t_exp[j].children@.take(t0[j].children@.len() as int) =~= t0[j].children@);
        }
    };
}

/// The per-node account of one iteration, assembled from the expansion frame
/// and the backpropagation bookkeeping.
proof fn lemma_iteration_account<G: Game>(
    t0: Seq<Node>,
    t_exp: Seq<Node>,
    t_fin: Seq<Node>,
    path_f: Seq<usize>,
    expanded: bool,
    ts: G,
)
    requires
        ts.inv(),
        ts.is_terminal(),
        2 <= path_f.len(),
        path_f[0] == 0,
        forall|p: int| 0 <= p < path_f.len() ==> (#[trigger] path_f[p]) < t_exp.len(),
        forall|p: int|
            1 <= p < path_f.len() ==> t_exp[(#[trigger] path_f[p]) as int].parent == Some(
                path_f[p - 1],
            ) && path_f[p - 1] < path_f[p],
        t_fin.len() == t_exp.len(),
        forall|j: int|
            0 <= j < t_exp.len() ==> (#[trigger] t_fin[j]).mov == t_exp[j].mov && t_fin[j].parent
                == t_exp[j].parent && t_fin[j].children == t_exp[j].children && t_fin[
                j].player_just_moved == t_exp[j].player_just_moved,
        visits_updated_above(t_exp, t_fin, path_f, 0),
        rewards_updated_above(t_exp, t_fin, path_f, 0, ts),
        t0.len() <= t_exp.len() <= t0.len() + 1,
        forall|j: int|
            0 <= j < t0.len() ==> (#[trigger] t_exp[j]).statistics.visit_count == t0[
                j].statistics.visit_count && t_exp[j].statistics.reward == t0[j].statistics.reward,
        expanded ==> t_exp.len() == t0.len() + 1 && t_exp[t_exp.len() - 1].statistics.visit_count
            == 0 && t_exp[t_exp.len() - 1].statistics.reward == 0 && path_f[path_f.len() - 1]
            == t_exp.len() - 1,
        !expanded ==> t_exp.len() == t0.len(),
    ensures
        iteration_visits(t0, t_fin, path_f, ts),
{
    assert forall|p: int| 1 <= p < path_f.len() implies t_fin[(#[trigger] path_f[
    p]) as int].parent == Some(path_f[p - 1]) && path_f[p - 1] < path_f[p] by {};
    assert forall|j: int| 0 <= j < t0.len() implies (#[trigger] t_fin[j]).statistics.visit_count
        == t0[j].statistics.visit_count + (
    if on_path_above(path_f, 0, j) {
        1int
    } else {
        0int
    }) && t_fin[j].statistics.reward as int == (
    if on_path_above(path_f, 0, j) {
        sat_add_spec(
            t0[j].statistics.reward,
            ts.result_spec(t_fin[j].player_just_moved.unwrap()),
        ) as int
    } else {
        t0[j].statistics.reward as int
    }) by {
        assert(t_fin[j].player_just_moved == t_exp[j].player_just_moved);
    };
    assert forall|j: int| t0.len() <= j < t_fin.len() implies (#[trigger] t_fin[
    j]).statistics.visit_count == 1 && t_fin[j].statistics.reward == ts.result_spec(
        t_fin[j].player_just_moved.unwrap(),
    ) && on_path_above(path_f, 0, j) && path_f[path_f.len() - 1] == j by {
        assert(expanded);
        assert(j == t_exp.len() - 1);
        assert(path_f[path_f.len() - 1] == j);
        assert(on_path_above(path_f, 0, j));
        assert(t_fin[j].statistics.reward == sat_add_spec(
            0,
            ts.result_spec(t_exp[j].player_just_moved.unwrap()),
        ));
    };
}

/// Descend the tree by UCB1 over the legal children of each node, then
/// expand one untried move if there is one. Returns the node where the walk
/// ended together with the (ghost) path from the root to it and whether a
/// node was created.
#[verifier::rlimit(100)]
pub(crate) fn select_and_expand<G: Game>(state: &mut G, tree: &mut Tree, done: Ghost<int>) -> (r: (
    usize,
    Ghost<Seq<usize>>,
    Ghost<bool>,
))
    requires
        old(state).inv(),
        wf(old(tree)@),
        mature(old(tree)@),
        bounded(old(tree)@, done@),
        0 <= done@,
        done@ + 2 <= u64::MAX,
    ensures
        final(state).inv(),
        final(state).remaining() <= old(state).remaining(),
        reachable(
            *old(state),
            *final(state),
            (old(state).remaining() - final(state).remaining()) as nat,
        ),
        wf(final(tree)@),
        old(tree)@.len() <= final(tree)@.len() <= old(tree)@.len() + 1,
        preserves_shape(old(tree)@, final(tree)@),
        final(tree)@[0].statistics == old(tree)@[0].statistics,
        forall|j: int|
            0 <= j < old(tree)@.len() ==> (#[trigger] final(tree)@[j]).statistics.visit_count
                == old(tree)@[j].statistics.visit_count && final(tree)@[j].statistics.reward == old(tree)@[j].statistics.reward,
        r.2@ ==> final(tree)@.len() == old(tree)@.len() + 1 && final(tree)@[final(tree)@.len() - 1].statistics.visit_count == 0 && final(tree)@[final(tree)@.len() - 1].statistics.reward == 0,
        !r.2@ ==> final(tree)@.len() == old(tree)@.len(),
        r.1@.len() >= 1,
        r.1@[0] == 0,
        r.1@.last() == r.0,
        r.0 < final(tree)@.len(),
        forall|p: int| 0 <= p < r.1@.len() ==> (#[trigger] r.1@[p]) < final(tree)@.len(),
        forall|p: int|
            1 <= p < r.1@.len() ==> final(tree)@[(#[trigger] r.1@[p]) as int].parent == Some(
                r.1@[p - 1],
            ) && r.1@[p - 1] < r.1@[p],
        forall|p: int|
            1 <= p < r.1@.len() ==> (#[trigger] final(tree)@[
                r.1@[p] as int]).statistics.visit_count < final(tree)@[
                r.1@[p] as int].statistics.availability_count,
        forall|j: int|
            1 <= j < final(tree)@.len() ==> (#[trigger] final(tree)@[j]).statistics.visit_count
                <= done@,
        forall|j: int|
            1 <= j < final(tree)@.len() ==> (#[trigger] final(tree)@[
                j]).statistics.availability_count <= done@ + 2,
        forall|j: int|
            1 <= j < final(tree)@.len() && !(r.2@ && j == final(tree)@.len() - 1) ==> 1 <= (
            #[trigger] final(tree)@[j]).statistics.visit_count,
        r.2@ ==> r.1@.len() >= 2 && r.1@.last() == final(tree)@.len() - 1,
        sum_visits(final(tree)@, final(tree)@[0].children@) == root_visit_sum(old(tree)@),
        !old(state).is_terminal() ==> r.1@.len() >= 2,
        old(state).is_terminal() ==> same_tree(old(tree)@, final(tree)@) && r.1@.len() == 1,
        !old(state).is_terminal() && has_untried_root_move(old(tree)@, old(state).legal_moves())
            ==> exists|m: u64|
            #[trigger] old(state).legal_moves().contains(m) && !root_moves(
                old(tree)@,
            ).contains(m) && root_moves(final(tree)@) == root_moves(old(tree)@).push(m),
        !old(state).is_terminal() && !has_untried_root_move(old(tree)@, old(state).legal_moves())
            ==> root_moves(final(tree)@) == root_moves(old(tree)@),
{
    let ghost t0 = tree@;
    let ghost rl = state.legal_moves();

    let mut cur: usize = 0;
    let ghost mut path: Seq<usize> = seq![0usize];
    let mut legal: Vec<u64> = state.available_moves();
    proof {
        state.lemma_terminal_iff_no_moves();
    }
    let ghost legal0 = legal@;
    let mut untried: Vec<u64> = tree.untried_moves(cur, &legal);
    let ghost untried0 = untried@;
    proof {
        assert forall|j: int| 1 <= j < t0.len() implies (#[trigger] t0[
        j]).statistics.availability_count <= done@ + 1 by {
            assert(t0[j].statistics.visit_count <= done@);
        };
    }

    while legal.len() > 0 && untried.len() == 0
        invariant
            state.inv(),
            state.remaining() <= old(state).remaining(),
            reachable(
                *old(state),
                *state,
                (old(state).remaining() - state.remaining()) as nat,
            ),
            wf(tree@),
            mature(tree@),
            wf(t0),
            0 <= done@,
            done@ + 2 <= u64::MAX,
            tree@.len() == t0.len(),
            forall|j: int|
                0 <= j < t0.len() ==> (#[trigger] tree@[j]).mov == t0[j].mov && tree@[j].parent
                    == t0[j].parent && tree@[j].children == t0[j].children
                    && tree@[j].player_just_moved == t0[j].player_just_moved
                    && tree@[j].statistics.visit_count == t0[j].statistics.visit_count
                    && tree@[j].statistics.reward == t0[j].statistics.reward,
            forall|j: int|
                1 <= j < t0.len() ==> (#[trigger] tree@[j]).statistics.availability_count <= done@
                    + 2,
            forall|j: int|
                1 <= j < t0.len() && tree@[j].parent.unwrap() >= cur ==> (#[trigger] tree@[
                    j]).statistics.availability_count <= done@ + 1,
            tree@[0].statistics == t0[0].statistics,
            cur < t0.len(),
            path.len() >= 1,
            path[0] == 0,
            path.last() == cur,
            forall|p: int| 0 <= p < path.len() ==> (#[trigger] path[p]) < t0.len(),
            forall|p: int|
                1 <= p < path.len() ==> tree@[(#[trigger] path[p]) as int].parent == Some(
                    path[p - 1],
                ) && path[p - 1] < path[p],
            forall|p: int|
                1 <= p < path.len() ==> (#[trigger] tree@[path[p] as int]).statistics.visit_count
                    < tree@[path[p] as int].statistics.availability_count,
            cur == 0 <==> path.len() == 1,
            cur == 0 ==> tree@ == t0 && untried@ == untried0 && legal@ == legal0,
            legal0.len() == 0 ==> cur == 0,
            untried0.len() > 0 ==> cur == 0,
            legal@ == state.legal_moves(),
            legal@.no_duplicates(),
            legal@.len() == 0 <==> state.is_terminal(),
            forall|m: u64|
                #[trigger] untried@.contains(m) <==> (legal@.contains(m) && !node_has_child_move(
                    tree@,
                    cur as int,
                    m,
                )),
        decreases t0.len() - cur,
    {
        let prev = cur;
        let ghost t_pre = tree@;
        let ghost legal_pre = legal@;
        proof {
            assert(wf_children(t_pre, prev as int));
            assert forall|c: int|
                0 <= c < t_pre.len() && is_legal_child(t_pre, prev as int, c, legal_pre) implies (
            #[trigger] t_pre[c]).statistics.availability_count < u64::MAX by {
                let k = choose|k: int|
                    0 <= k < t_pre[prev as int].children@.len() && #[trigger] t_pre[
                        prev as int].children@[k] == c;
                assert(t_pre[c].parent == Some(prev));
            };
        }
        let copt = tree.select_child(prev, &legal);
        proof {
            // A legal child exists: legal is non-empty and every legal move is tried.
            let m0 = legal_pre[0];
            assert(legal_pre.contains(m0));
            assert(!untried@.contains(m0));
            assert(node_has_child_move(t_pre, prev as int, m0));
            let k = choose|k: int|
                0 <= k < t_pre[prev as int].children@.len() && t_pre[#[trigger] t_pre[
                    prev as int].children@[k] as int].mov == Some(m0);
            assert(wf_node(t_pre, t_pre[prev as int].children@[k] as int));
            assert(pos_is_legal(t_pre, prev as int, k, legal_pre));
        }
        let c = copt.unwrap();
        let ghost k0 = choose|k0: int| selected_at(t_pre, prev as int, k0, legal_pre, c);
        proof {
            assert(selected_at(t_pre, prev as int, k0, legal_pre, c));
            assert(t_pre[prev as int].children@[k0] == c);
            assert(prev < t_pre[prev as int].children@[k0] as int);
            assert(t_pre[prev as int].children@[k0] < t_pre.len());
            assert(wf_node(t_pre, c as int));
            assert(is_legal_child(t_pre, prev as int, c as int, legal_pre));
            path = path.push(c);
        }
        let m = tree.move_of(c);
        proof {
            assert(pos_is_legal(t_pre, prev as int, k0, legal_pre));
            assert(legal_pre.contains(m));
            state.lemma_terminal_iff_no_moves();
        }
        let ghost pre_move = *state;
        state.make_move(m);
        cur = c;
        legal = state.available_moves();
        proof {
            lemma_reachable_step(
                *old(state),
                pre_move,
                (old(state).remaining() - pre_move.remaining()) as nat,
                m,
            );
            lemma_reachable_mono(
                *old(state),
                *state,
                ((old(state).remaining() - pre_move.remaining()) + 1) as nat,
                (old(state).remaining() - state.remaining()) as nat,
            );
            state.lemma_terminal_iff_no_moves();
        }
        untried = tree.untried_moves(cur, &legal);
        proof {
            // The root is nobody's child, so its counters are untouched.
            assert(!is_legal_child(t_pre, prev as int, 0, legal_pre)) by {
                if is_legal_child(t_pre, prev as int, 0, legal_pre) {
                    let k = choose|k: int|
                        0 <= k < t_pre[prev as int].children@.len() && #[trigger] t_pre[
                            prev as int].children@[k] == 0;
                    assert(wf_children(t_pre, prev as int));
                    assert(prev < t_pre[prev as int].children@[k] as int);
                }
            };
            assert(tree@[0].statistics == t_pre[0].statistics);
            // Only children of `prev` were bumped, and each had headroom.
            assert forall|j: int| 1 <= j < t0.len() implies (#[trigger] tree@[
            j]).statistics.availability_count <= done@ + 2 by {
                if is_legal_child(t_pre, prev as int, j, legal_pre) {
                    let k = choose|k: int|
                        0 <= k < t_pre[prev as int].children@.len() && #[trigger] t_pre[
                            prev as int].children@[k] == j;
                    assert(wf_children(t_pre, prev as int));
                    assert(t_pre[j].parent == Some(prev));
                    assert(t_pre[j].statistics.availability_count <= done@ + 1);
                }
            };
            assert forall|j: int|
                1 <= j < t0.len() && tree@[j].parent.unwrap() >= cur implies (#[trigger] tree@[
            j]).statistics.availability_count <= done@ + 1 by {
                if is_legal_child(t_pre, prev as int, j, legal_pre) {
                    let k = choose|k: int|
                        0 <= k < t_pre[prev as int].children@.len() && #[trigger] t_pre[
                            prev as int].children@[k] == j;
                    assert(wf_children(t_pre, prev as int));
                    assert(t_pre[j].parent == Some(prev));
                    assert(tree@[j].parent == t_pre[j].parent);
                    assert(prev < cur);
                } else {
                    assert(tree@[j].statistics.availability_count == t_pre[
                        j].statistics.availability_count);
                }
            };
        }
    }

    // Expand.
    let ghost t_sel = tree@;
    let ghost path_sel = path;
    let ghost mut expanded: bool = false;
    let ghost mut new_move: u64 = 0;
    if untried.len() > 0 {
        let ri = random_below(untried.len() as u64);
        let idx = ri as usize;
        let m = untried[idx];
        proof {
            assert(untried@[idx as int] == m);
            assert(untried@.contains(m));
            assert(legal@.contains(m));
            state.lemma_terminal_iff_no_moves();
        }
        let p = state.current_player();
        let ghost pre_move = *state;
        state.make_move(m);
        proof {
            lemma_reachable_step(
                *old(state),
                pre_move,
                (old(state).remaining() - pre_move.remaining()) as nat,
                m,
            );
            lemma_reachable_mono(
                *old(state),
                *state,
                ((old(state).remaining() - pre_move.remaining()) + 1) as nat,
                (old(state).remaining() - state.remaining()) as nat,
            );
            assert(!node_has_child_move(t_sel, cur as int, m));
        }
        let c = tree.add_child(cur, m, p);
        proof {
            path = path.push(c);
            expanded = true;
            new_move = m;
        }
        cur = c;
    }
    let ghost t_exp = tree@;
    let ghost path_f = path;
    let ghost cs = t_exp[0].children@;
    let ghost root_exp = expanded && path_sel.len() == 1;

    proof {
        // Shape facts about the path in the expanded tree.
        assert(path_f.len() >= 1);
        assert(path_f[0] == 0);
        assert(path_f.last() == cur);
        assert(forall|p: int| 0 <= p < path_f.len() ==> (#[trigger] path_f[p]) < t_exp.len());
        assert forall|p: int| 1 <= p < path_f.len() implies t_exp[(#[trigger] path_f[
        p]) as int].parent == Some(path_f[p - 1]) && path_f[p - 1] < path_f[p] by {
            if expanded && p == path_f.len() - 1 {
                assert(path_f[p] == cur);
                assert(path_f[p - 1] == path_sel.last());
            } else {
                assert(path_f[p] == path_sel[p]);
            }
        };
        assert forall|p: int| 1 <= p < path_f.len() implies (#[trigger] t_exp[
        path_f[p] as int]).statistics.visit_count < t_exp[
        path_f[p] as int].statistics.availability_count by {};
        assert(forall|p: int|
            1 <= p < path_f.len() ==> (#[trigger] t_exp[path_f[p] as int]).statistics.visit_count
                <= done@);
        assert(forall|j: int|
            1 <= j < t_exp.len() ==> (#[trigger] t_exp[j]).statistics.availability_count <= done@
                + 2);
        assert(forall|j: int|
            1 <= j < t_exp.len() && !(expanded && j == t_sel.len()) ==> 1 <= (#[trigger] t_exp[
                j]).statistics.visit_count);
        // Root moves before and after the expansion.
        assert(root_moves(t_sel) == root_moves(t0)) by {
            lemma_root_moves_frame(t0, t_sel);
        };
        if expanded {
            if path_sel.len() == 1 {
                // The expansion happened at the root.
                assert(t_sel == t0);
                lemma_root_moves_push(t_sel, t_exp, (t_exp.len() - 1) as usize, new_move);
                assert(root_moves(t_exp) == root_moves(t0).push(new_move));
                assert(untried0.contains(new_move));
                assert(legal0.contains(new_move));
                assert(!node_has_child_move(t0, 0, new_move));
                lemma_root_move_iff(t0, new_move);
                assert(!root_moves(t0).contains(new_move));
                assert(rl == legal0);
                assert(rl.contains(new_move));
                assert(cs == t0[0].children@.push((t_exp.len() - 1) as usize));
            } else {
                // The expansion happened strictly below the root.
                assert(path_sel.last() != 0);
                lemma_root_moves_frame(t_sel, t_exp);
                assert(root_moves(t_exp) == root_moves(t0));
                assert(cs == t0[0].children@);
            }
        } else {
            assert(root_moves(t_exp) == root_moves(t0));
            assert(cs == t0[0].children@);
        }
        // The sum of root-child visits is unchanged so far.
        assert(wf_children(t0, 0));
        assert forall|p: int| 0 <= p < t0[0].children@.len() implies t0[(#[trigger] t0[
        0].children@[p]) as int].statistics.visit_count == t_exp[
        t0[0].children@[p] as int].statistics.visit_count by {
            assert(t0[0].children@[p] < t0.len());
        };
        lemma_sum_same(t0, t_exp, t0[0].children@);
        if root_exp {
            lemma_sum_push(t_exp, t0[0].children@, (t_exp.len() - 1) as usize);
            assert(t_exp[t_exp.len() - 1].statistics.visit_count == 0);
        }
        assert(sum_visits(t_exp, cs) == root_visit_sum(t0));
        // All visits are still bounded by the completed iterations.
        assert forall|j: int| 1 <= j < t_exp.len() implies (#[trigger] t_exp[
        j]).statistics.visit_count <= done@ by {
            if j < t_sel.len() {
                assert(t0[j].statistics.visit_count <= done@);
            }
        };
        // A non-terminal root means the path left the root or a root child
        // was just created.
        if legal0.len() > 0 {
            if path_sel.len() == 1 {
                assert(legal@ == legal0);
                assert(untried@.len() > 0);
                assert(expanded);
            }
            assert(path_f.len() >= 2);
            assert(expanded ==> path_f.len() >= 2 && path_f.last() == t_exp.len() - 1);
        } else {
            assert(untried0.len() == 0) by {
                if untried0.len() > 0 {
                    assert(untried0.contains(untried0[0]));
                    assert(legal0.contains(untried0[0]));
                }
            };
            assert(!expanded);
            assert(t_exp == t0);
            assert(same_tree(t0, t_exp));
            assert(path_f.len() == 1);
        }
        // Root coverage: an untried root move forces a root expansion.
        if legal0.len() > 0 && has_untried_root_move(t0, rl) {
            let mw = choose|mw: u64| #[trigger] rl.contains(mw) && !root_moves(t0).contains(mw);
            lemma_root_move_iff(t0, mw);
            assert(legal0.contains(mw));
            assert(!node_has_child_move(t0, 0, mw));
            assert(untried0.contains(mw));
            assert(untried0.len() > 0);
            assert(root_exp);
            assert(rl.contains(new_move) && !root_moves(t0).contains(new_move) && root_moves(
                t_exp,
            ) == root_moves(t0).push(new_move));
            assert(old(state).legal_moves().contains(new_move));
            assert(exists|m: u64|
                #[trigger] old(state).legal_moves().contains(m) && !root_moves(t0).contains(m)
                    && root_moves(t_exp) == root_moves(t0).push(m));
        }
        if legal0.len() > 0 && !has_untried_root_move(t0, rl) {
            if expanded && path_sel.len() == 1 {
                assert(rl.contains(new_move) && !root_moves(t0).contains(new_move));
                assert(has_untried_root_move(t0, rl));
            }
            assert(root_moves(t_exp) == root_moves(t0));
        }
        assert(rl == old(state).legal_moves());
        assert(legal0.len() == 0 <==> old(state).is_terminal());
        // Shape, statistics frame and new-node facts, in one place.
        lemma_expand_frame(t0, t_sel, t_exp, path_sel.last(), expanded);
    }

    (cur, Ghost(path), Ghost(expanded))
}

/// After a full backpropagation, every non-root node has been visited at
/// least once and all counters are bounded by the completed iterations.
proof fn lemma_finish_stats(
    t_exp: Seq<Node>,
    t_fin: Seq<Node>,
    path_f: Seq<usize>,
    expanded: bool,
    done: int,
)
    requires
        t_fin.len() == t_exp.len(),
        path_f.len() >= 1,
        forall|p: int| 0 <= p < path_f.len() ==> (#[trigger] path_f[p]) < t_exp.len(),
        visits_updated_above(t_exp, t_fin, path_f, 0),
        forall|j: int|
            0 <= j < t_exp.len() ==> (#[trigger] t_fin[j]).statistics.availability_count == t_exp[
                j].statistics.availability_count,
        forall|j: int|
            1 <= j < t_exp.len() ==> (#[trigger] t_exp[j]).statistics.visit_count <= done,
        forall|j: int|
            1 <= j < t_exp.len() ==> (#[trigger] t_exp[j]).statistics.availability_count <= done
                + 2,
        forall|j: int|
            1 <= j < t_exp.len() && !(expanded && j == t_exp.len() - 1) ==> 1 <= (#[trigger] t_exp[
                j]).statistics.visit_count,
        expanded ==> path_f.len() >= 2 && path_f.last() == t_exp.len() - 1,
    ensures
        mature(t_fin),
        bounded(t_fin, done + 1),
{
    assert forall|j: int| 1 <= j < t_fin.len() implies 1 <= (#[trigger] t_fin[
    j]).statistics.visit_count by {
        if expanded && j == t_exp.len() - 1 {
            assert(path_f[path_f.len() - 1] == j);
            assert(exists|p: int| 0 < p < path_f.len() && #[trigger] path_f[p] == j);
        }
    };
    assert forall|j: int| 1 <= j < t_fin.len() implies (#[trigger] t_fin[
    j]).statistics.visit_count <= done + 1 && t_fin[j].statistics.availability_count <= done + 1
        + 1 by {};
    assert(bounded(t_fin, done + 1));
}

/// One ISMCTS iteration on a clone of the root state.
///
/// When the root state is not terminal, exactly one visit lands on exactly
/// one root child (visit conservation), and one untried root move gains a
/// root child whenever one exists (root coverage). A terminal root leaves
/// the tree untouched.
#[verifier::rlimit(100)]
pub(crate) fn ismcts_one_iteration<G: Game>(root_state: &G, tree: &mut Tree, done: Ghost<int>)
    requires
        root_state.inv(),
        wf(old(tree)@),
        mature(old(tree)@),
        bounded(old(tree)@, done@),
        0 <= done@,
        done@ + 2 <= u64::MAX,
    ensures
        wf(final(tree)@),
        mature(final(tree)@),
        bounded(final(tree)@, done@ + 1),
        !root_state.is_terminal() ==> root_visit_sum(final(tree)@) == root_visit_sum(old(tree)@)
            + 1,
        root_state.is_terminal() ==> same_tree(old(tree)@, final(tree)@),
        !root_state.is_terminal() && has_untried_root_move(old(tree)@, root_state.legal_moves())
            ==> exists|m: u64|
            #[trigger] root_state.legal_moves().contains(m) && !root_moves(old(tree)@).contains(m)
                && root_moves(final(tree)@) == root_moves(old(tree)@).push(m),
        !root_state.is_terminal() && !has_untried_root_move(old(tree)@, root_state.legal_moves())
            ==> root_moves(final(tree)@) == root_moves(old(tree)@),
        old(tree)@.len() <= final(tree)@.len() <= old(tree)@.len() + 1,
        preserves_shape(old(tree)@, final(tree)@),
        final(tree)@[0].statistics == old(tree)@[0].statistics,
        !root_state.is_terminal() ==> exists|path: Seq<usize>, s_det: G, ts: G|
            #![trigger iteration_visits(old(tree)@, final(tree)@, path, ts), played_from(*root_state, s_det, ts)]
            iteration_visits(old(tree)@, final(tree)@, path, ts) && played_from(
                *root_state,
                s_det,
                ts,
            ),
{
    let ghost t0 = tree@;
    let ghost rl = root_state.legal_moves();

    // Determinize.
    let mut state = root_state.duplicate();
    let obs = state.current_player();
    state.randomize_determination(obs);
    let ghost s_det = state;

    // Select and expand.
    let (cur, pathg, expandedg) = select_and_expand(&mut state, tree, done);
    let ghost s_mid = state;
    let ghost t_exp = tree@;
    let ghost path_f = pathg@;
    let ghost expanded = expandedg@;
    let ghost cs = t_exp[0].children@;
    proof {
        assert(s_det.is_terminal() == root_state.is_terminal());
        assert(s_det.legal_moves() == rl);
    }

    // Simulate.
    random_rollout(&mut state);

    // Backpropagate: credit each node on the path, excluding the root.
    let ghost mut kk: int = path_f.len() - 1;
    let mut b: usize = cur;
    while b != 0
        invariant
            state.inv(),
            state.is_terminal(),
            wf(tree@),
            0 <= done@,
            done@ + 2 <= u64::MAX,
            tree@.len() == t_exp.len(),
            0 <= kk < path_f.len(),
            b == path_f[kk],
            path_f[0] == 0,
            forall|p: int| 0 <= p < path_f.len() ==> (#[trigger] path_f[p]) < t_exp.len(),
            forall|p: int|
                1 <= p < path_f.len() ==> t_exp[(#[trigger] path_f[p]) as int].parent == Some(
                    path_f[p - 1],
                ) && path_f[p - 1] < path_f[p],
            forall|p: int|
                1 <= p < path_f.len() ==> (#[trigger] t_exp[
                    path_f[p] as int]).statistics.visit_count < t_exp[
                    path_f[p] as int].statistics.availability_count,
            forall|p: int|
                1 <= p < path_f.len() ==> (#[trigger] t_exp[
                    path_f[p] as int]).statistics.visit_count <= done@,
            forall|j: int|
                0 <= j < t_exp.len() ==> (#[trigger] tree@[j]).mov == t_exp[j].mov && tree@[
                    j].parent == t_exp[j].parent && tree@[j].children == t_exp[j].children && tree@[
                    j].player_just_moved == t_exp[j].player_just_moved
                    && tree@[j].statistics.availability_count == t_exp[
                    j].statistics.availability_count,
            path_f.len() == 1 ==> tree@ == t_exp,
            visits_updated_above(t_exp, tree@, path_f, kk),
            rewards_updated_above(t_exp, tree@, path_f, kk, state),
        decreases b,
    {
        let ghost t_b = tree@;
        proof {
            // b is a non-root path node that has not been updated yet.
            assert(kk >= 1) by {
                if kk == 0 {
                    assert(path_f[0] == 0);
                }
            };
            assert forall|p: int| kk < p < path_f.len() implies #[trigger] path_f[p] != b by {
                lemma_path_strictly_increasing(path_f, kk, p);
            };
            assert(tree@[b as int].statistics.visit_count == t_exp[
                b as int].statistics.visit_count);
            assert(tree@[b as int].statistics.visit_count <= done@);
            assert(tree@[b as int].statistics.visit_count < tree@[
                b as int].statistics.availability_count);
        }
        tree.update(b, &state);
        let pb = tree.parent_of(b);
        proof {
            assert(pb == path_f[kk - 1]);
            assert(t_b[b as int].player_just_moved == t_exp[b as int].player_just_moved);
            lemma_backprop_step(t_exp, t_b, tree@, path_f, kk, state);
            kk = kk - 1;
        }
        b = pb;
    }

    proof {
        assert(kk == 0) by {
            if kk >= 1 {
                lemma_path_strictly_increasing(path_f, 0, kk);
            }
        };
        lemma_finish_stats(t_exp, tree@, path_f, expanded, done@);
        // The root children and their entering moves are untouched by
        // backpropagation.
        lemma_root_moves_frame(t_exp, tree@);
        assert(tree@[0].children@ == cs);
        // The root is never on the updated suffix, so its statistics stand.
        assert(!on_path_above(path_f, 0, 0)) by {
            if on_path_above(path_f, 0, 0) {
                let p = choose|p: int| 0 < p < path_f.len() && #[trigger] path_f[p] == 0;
                lemma_path_strictly_increasing(path_f, 0, p);
            }
        };
        assert(tree@[0].statistics == t_exp[0].statistics);
        // The shape of the old tree survives: labels kept, child lists grown.
        lemma_shape_from_frame(t_exp, tree@);
        lemma_preserves_shape_trans(t0, t_exp, tree@);
        if !root_state.is_terminal() {
            // Visit conservation.
            assert(path_f.len() >= 2);
            lemma_visit_conservation(t_exp, tree@, path_f);
            assert(root_visit_sum(tree@) == root_visit_sum(t0) + 1);
            // The per-node account of the iteration: path nodes gained one
            // visit and the terminal payoff, everything else is untouched,
            // and the payoff comes from a game legally played out from the
            // determinization.
            lemma_iteration_account(t0, t_exp, tree@, path_f, expanded, state);
            lemma_reachable_trans(
                s_det,
                s_mid,
                state,
                (s_det.remaining() - s_mid.remaining()) as nat,
                (s_mid.remaining() - state.remaining()) as nat,
            );
            lemma_reachable_mono(
                s_det,
                state,
                ((s_det.remaining() - s_mid.remaining()) + (s_mid.remaining()
                    - state.remaining())) as nat,
                s_det.remaining(),
            );
            assert(played_from(*root_state, s_det, state));
            assert(iteration_visits(t0, tree@, path_f, state));
            assert(exists|path: Seq<usize>, sd: G, ts: G|
                #![trigger iteration_visits(t0, tree@, path, ts), played_from(*root_state, sd, ts)]
                iteration_visits(t0, tree@, path, ts) && played_from(*root_state, sd, ts));
            // Root coverage.
            assert(has_untried_root_move(t0, rl) == has_untried_root_move(
                t0,
                s_det.legal_moves(),
            ));
            if has_untried_root_move(t0, rl) {
                let mw = choose|mw: u64|
                    #[trigger] s_det.legal_moves().contains(mw) && !root_moves(t0).contains(mw)
                        && root_moves(t_exp) == root_moves(t0).push(mw);
                assert(rl.contains(mw) && !root_moves(t0).contains(mw) && root_moves(tree@)
                    == root_moves(t0).push(mw));
                assert(root_state.legal_moves().contains(mw));
            } else {
                assert(root_moves(tree@) == root_moves(t0));
            }
        } else {
            // Terminal root: nothing was selected, expanded or updated.
            assert(path_f.len() == 1);
            assert(tree@ == t_exp);
            assert(same_tree(t0, tree@));
        }
    }
}

} // verus!
