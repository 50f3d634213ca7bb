//! The shared search tree, stored as an arena.
//!
//! Nodes live in one vector; the root is at index 0 and every child has a
//! larger index than its parent, so walking parent links always terminates
//! at the root. Each node records the move that entered it, its parent, its
//! children (uniquely identified by their entering moves) and its statistics.

use vstd::prelude::*;
use crate::stats::NodeStatistics;

verus! {

/// One vertex of the search tree.
pub struct Node {
    /// The move which entered this node; absent at the root.
    pub mov: Option<u64>,
    /// The index of the parent node; absent at the root.
    pub parent: Option<usize>,
    /// Indices of the children, each strictly larger than this node's index.
    pub children: Vec<usize>,
    /// The player whose action created this node; absent at the root.
    pub player_just_moved: Option<u64>,
    /// Visit, availability and reward counters.
    pub statistics: NodeStatistics,
}

/// The root carries no entering move, no parent and no player tag.
pub open spec fn wf_root(t: Seq<Node>) -> bool {
    &&& 1 <= t.len()
    &&& t[0].mov is None
    &&& t[0].parent is None
    &&& t[0].player_just_moved is None
}

/// A non-root node: labelled, linked to a smaller parent index that lists it
/// as a child, and never visited more often than it was available.
pub open spec fn wf_node(t: Seq<Node>, i: int) -> bool {
    &&& t[i].mov is Some
    &&& t[i].player_just_moved is Some
    &&& t[i].parent is Some
    &&& t[i].parent.unwrap() < i
    &&& t[t[i].parent.unwrap() as int].children@.contains(i as usize)
    &&& t[i].statistics.visit_count <= t[i].statistics.availability_count
}

/// The child list of node `i`: in-bounds indices larger than `i`, each naming
/// `i` as its parent, with pairwise distinct entering moves.
pub open spec fn wf_children(t: Seq<Node>, i: int) -> bool {
    &&& forall|k: int|
        0 <= k < t[i].children@.len() ==> i < #[trigger] t[i].children@[k] as int
            && t[i].children@[k] < t.len()
    &&& forall|k: int|
        0 <= k < t[i].children@.len() ==> t[#[trigger] t[i].children@[k] as int].parent == Some(
            i as usize,
        )
    &&& forall|k1: int, k2: int|
        #![trigger t[i].children@[k1], t[i].children@[k2]]
        0 <= k1 < t[i].children@.len() && 0 <= k2 < t[i].children@.len() && k1 != k2
            ==> t[t[i].children@[k1] as int].mov != t[t[i].children@[k2] as int].mov
}

/// Well-formedness of the whole arena.
pub open spec fn wf(t: Seq<Node>) -> bool {
    &&& wf_root(t)
    &&& forall|i: int| 1 <= i < t.len() ==> #[trigger] wf_node(t, i)
    &&& forall|i: int| 0 <= i < t.len() ==> #[trigger] wf_children(t, i)
}

/// Every non-root node has been backpropagated at least once. This holds
/// between iterations: a node is created and updated within one iteration.
pub open spec fn mature(t: Seq<Node>) -> bool {
    forall|i: int| 1 <= i < t.len() ==> 1 <= #[trigger] t[i].statistics.visit_count
}

/// Counters are bounded by the number of completed iterations: a node is
/// visited at most once per iteration, and made available at most once per
/// iteration plus once at its creation.
pub open spec fn bounded(t: Seq<Node>, n: int) -> bool {
    forall|i: int|
        1 <= i < t.len() ==> #[trigger] t[i].statistics.visit_count <= n
            && t[i].statistics.availability_count <= n + 1
}

/// Whether some child of `i` carries the entering move `m`.
pub open spec fn node_has_child_move(t: Seq<Node>, i: int, m: u64) -> bool {
    exists|k: int|
        0 <= k < t[i].children@.len() && t[#[trigger] t[i].children@[k] as int].mov == Some(m)
}

/// The entering moves of the root's children, in insertion order.
pub open spec fn root_moves(t: Seq<Node>) -> Seq<u64> {
    t[0].children@.map_values(|c: usize| t[c as int].mov.unwrap())
}

/// Node `c` is a child of `i` whose entering move is in `legal`.
pub open spec fn is_legal_child(t: Seq<Node>, i: int, c: int, legal: Seq<u64>) -> bool {
    (exists|k: int|
        0 <= k < t[i].children@.len() && #[trigger] t[i].children@[k] == c) && legal.contains(
        t[c].mov.unwrap(),
    )
}

/// The entering move of the `k`-th child of `i` is in `legal`.
pub open spec fn pos_is_legal(t: Seq<Node>, i: int, k: int, legal: Seq<u64>) -> bool {
    legal.contains(t[t[i].children@[k] as int].mov.unwrap())
}

/// The UCB1 score of the `k`-th child of `i`.
pub open spec fn child_score(t: Seq<Node>, i: int, k: int) -> u64 {
    let s = t[t[i].children@[k] as int].statistics;
    crate::stats::ucb1_spec(s.visit_count, s.availability_count, s.reward)
}

/// The `k0`-th child of `i` is `c`, is legal, and carries the maximal UCB1
/// score among the legal children, earlier positions scoring strictly less.
pub open spec fn selected_at(t: Seq<Node>, i: int, k0: int, legal: Seq<u64>, c: usize) -> bool {
    &&& 0 <= k0 < t[i].children@.len()
    &&& t[i].children@[k0] == c
    &&& pos_is_legal(t, i, k0, legal)
    &&& forall|k: int|
        0 <= k < t[i].children@.len() && #[trigger] pos_is_legal(t, i, k, legal) ==> child_score(
            t,
            i,
            k,
        ) <= child_score(t, i, k0)
    &&& forall|k: int|
        0 <= k < k0 && #[trigger] pos_is_legal(t, i, k, legal) ==> child_score(t, i, k)
            < child_score(t, i, k0)
}

/// Two trees with identical shape and labels, and availability at least the
/// visits at every non-root node, are both well-formed or both not.
pub proof fn lemma_wf_same_structure(t1: Seq<Node>, t2: Seq<Node>)
    requires
        wf(t1),
        t2.len() == t1.len(),
        forall|j: int|
            0 <= j < t1.len() ==> (#[trigger] t2[j]).mov == t1[j].mov && t2[j].parent == t1[j].parent && t2[j].children == t1[j].children && t2[j].player_just_moved == t1[j].player_just_moved,
        forall|j: int|
            1 <= j < t1.len() ==> (#[trigger] t2[j]).statistics.visit_count <= t2[j].statistics.availability_count,
    ensures
        wf(t2),
{
    assert forall|i: int| 1 <= i < t2.len() implies #[trigger] wf_node(t2, i) by {
        assert(wf_node(t1, i));
        assert(t2[t2[i].parent.unwrap() as int].children == t1[t1[i].parent.unwrap() as int].children);
    };
    assert forall|i: int| 0 <= i < t2.len() implies #[trigger] wf_children(t2, i) by {
        assert(wf_children(t1, i));
        assert(t2[i].children == t1[i].children);
        assert forall|k: int|
            0 <= k < t2[i].children@.len() implies i < #[trigger] t2[i].children@[k] as int && t2[i].children@[k] < t2.len() && t2[t2[i].children@[k] as int].parent == Some(i as usize) by {
            assert(t1[i].children@[k] == t2[i].children@[k]);
        };
        assert forall|k1: int, k2: int|
            #![trigger t2[i].children@[k1], t2[i].children@[k2]]
            0 <= k1 < t2[i].children@.len() && 0 <= k2 < t2[i].children@.len() && k1 != k2 implies
            t2[t2[i].children@[k1] as int].mov != t2[t2[i].children@[k2] as int].mov by {
            assert(t1[i].children@[k1] == t2[i].children@[k1]);
            assert(t1[i].children@[k2] == t2[i].children@[k2]);
        };
    };
}

/// Within one child list, distinct positions name distinct nodes, because
/// their entering moves differ.
pub proof fn lemma_child_positions_distinct(t: Seq<Node>, i: int)
    requires
        wf(t),
        0 <= i < t.len(),
    ensures
        forall|k1: int, k2: int|
            #![trigger t[i].children@[k1], t[i].children@[k2]]
            0 <= k1 < t[i].children@.len() && 0 <= k2 < t[i].children@.len() && k1 != k2 ==> t[i].children@[k1] != t[i].children@[k2],
{
    assert(wf_children(t, i));
}

/// Two trees with the same shape and labels everywhere (statistics may
/// differ), stated field by field.
pub open spec fn same_tree(t1: Seq<Node>, t2: Seq<Node>) -> bool {
    &&& t2.len() == t1.len()
    &&& forall|j: int|
        0 <= j < t1.len() ==> (#[trigger] t2[j]).mov == t1[j].mov && t2[j].parent == t1[j].parent
            && t2[j].children@ == t1[j].children@ && t2[j].player_just_moved == t1[
            j].player_just_moved && t2[j].statistics == t1[j].statistics
}

/// A child of the root carries an entering move `m` exactly when `m` is
/// among the root moves.
pub proof fn lemma_root_move_iff(t: Seq<Node>, m: u64)
    requires
        wf(t),
    ensures
        node_has_child_move(t, 0, m) <==> root_moves(t).contains(m),
{
    assert(wf_children(t, 0));
    if node_has_child_move(t, 0, m) {
        let k = choose|k: int|
            0 <= k < t[0].children@.len() && t[#[trigger] t[0].children@[k] as int].mov == Some(m);
        assert(wf_node(t, t[0].children@[k] as int));
        assert(root_moves(t)[k] == m);
        assert(root_moves(t).contains(m));
    }
    if root_moves(t).contains(m) {
        let k = choose|k: int| 0 <= k < root_moves(t).len() && root_moves(t)[k] == m;
        assert(wf_node(t, t[0].children@[k] as int));
        assert(t[t[0].children@[k] as int].mov == Some(m));
    }
}

/// Root moves depend only on the root's child list and those children's
/// entering moves.
pub proof fn lemma_root_moves_frame(t1: Seq<Node>, t2: Seq<Node>)
    requires
        wf(t1),
        t2.len() >= t1.len(),
        t2[0].children@ == t1[0].children@,
        forall|j: int| 0 <= j < t1.len() ==> (#[trigger] t2[j]).mov == t1[j].mov,
    ensures
        root_moves(t2) == root_moves(t1),
{
    assert(wf_children(t1, 0));
    assert forall|k: int| 0 <= k < root_moves(t1).len() implies root_moves(t2)[k] == root_moves(
        t1,
    )[k] by {
        assert(t1[0].children@[k] < t1.len());
    };
    assert(root_moves(t2) =~= root_moves(t1));
}

/// Appending a root child entered by `m` appends `m` to the root moves.
pub proof fn lemma_root_moves_push(t1: Seq<Node>, t2: Seq<Node>, c: usize, m: u64)
    requires
        wf(t1),
        t2.len() == t1.len() + 1,
        c == t1.len(),
        t2[0].children@ == t1[0].children@.push(c),
        t2[c as int].mov == Some(m),
        forall|j: int| 0 <= j < t1.len() ==> (#[trigger] t2[j]).mov == t1[j].mov,
    ensures
        root_moves(t2) == root_moves(t1).push(m),
{
    assert(wf_children(t1, 0));
    assert forall|k: int| 0 <= k < root_moves(t2).len() implies root_moves(t2)[k] == root_moves(
        t1,
    ).push(m)[k] by {
        if k < root_moves(t1).len() {
            assert(t2[0].children@[k] == t1[0].children@[k]);
            assert(t1[0].children@[k] < t1.len());
        } else {
            assert(t2[0].children@[k] == c);
        }
    };
    assert(root_moves(t2) =~= root_moves(t1).push(m));
}

/// The total of `visit_count` over the nodes listed in `cs`.
pub open spec fn sum_visits(t: Seq<Node>, cs: Seq<usize>) -> int
    decreases cs.len(),
{
    if cs.len() == 0 {
        0
    } else {
        t[cs[0] as int].statistics.visit_count + sum_visits(t, cs.drop_first())
    }
}

/// The total of `visit_count` over the root's children.
pub open spec fn root_visit_sum(t: Seq<Node>) -> int {
    sum_visits(t, t[0].children@)
}

/// Appending one node adds its visits to the sum.
pub proof fn lemma_sum_push(t: Seq<Node>, cs: Seq<usize>, c: usize)
    ensures
        sum_visits(t, cs.push(c)) == sum_visits(t, cs) + t[c as int].statistics.visit_count,
    decreases cs.len(),
{
    let ps = cs.push(c);
    if cs.len() == 0 {
        assert(ps[0] == c);
        assert(ps.drop_first() =~= Seq::<usize>::empty());
        assert(sum_visits(t, ps.drop_first()) == 0);
        assert(sum_visits(t, ps) == t[c as int].statistics.visit_count + sum_visits(
            t,
            ps.drop_first(),
        ));
        assert(sum_visits(t, cs) == 0);
    } else {
        assert(ps.drop_first() =~= cs.drop_first().push(c));
        lemma_sum_push(t, cs.drop_first(), c);
        assert(ps[0] == cs[0]);
        assert(sum_visits(t, ps) == t[ps[0] as int].statistics.visit_count + sum_visits(
            t,
            ps.drop_first(),
        ));
        assert(sum_visits(t, cs) == t[cs[0] as int].statistics.visit_count + sum_visits(
            t,
            cs.drop_first(),
        ));
    }
}

/// Two trees agreeing on the visits of the listed nodes have the same sum.
pub proof fn lemma_sum_same(t1: Seq<Node>, t2: Seq<Node>, cs: Seq<usize>)
    requires
        forall|p: int|
            0 <= p < cs.len() ==> t1[(#[trigger] cs[p]) as int].statistics.visit_count == t2[
                cs[p] as int].statistics.visit_count,
    ensures
        sum_visits(t1, cs) == sum_visits(t2, cs),
    decreases cs.len(),
{
    if cs.len() > 0 {
        assert forall|p: int| 0 <= p < cs.drop_first().len() implies t1[(#[trigger] cs.drop_first()[
            p]) as int].statistics.visit_count == t2[cs.drop_first()[p] as int].statistics.visit_count by {
            assert(cs.drop_first()[p] == cs[p + 1]);
        };
        lemma_sum_same(t1, t2, cs.drop_first());
    }
}

/// If exactly the node at position `p0` gained one visit, the sum gained one.
pub proof fn lemma_sum_bump_at(t1: Seq<Node>, t2: Seq<Node>, cs: Seq<usize>, j: usize, p0: int)
    requires
        0 <= p0 < cs.len(),
        cs[p0] == j,
        forall|p: int| 0 <= p < cs.len() && p != p0 ==> #[trigger] cs[p] != j,
        t2[j as int].statistics.visit_count == t1[j as int].statistics.visit_count + 1,
        forall|p: int|
            0 <= p < cs.len() && cs[p] != j ==> t1[(#[trigger] cs[p]) as int].statistics.visit_count
                == t2[cs[p] as int].statistics.visit_count,
    ensures
        sum_visits(t2, cs) == sum_visits(t1, cs) + 1,
    decreases cs.len(),
{
    let tail = cs.drop_first();
    assert forall|p: int| 0 <= p < tail.len() implies #[trigger] tail[p] == cs[p + 1] by {};
    if p0 == 0 {
        assert forall|p: int| 0 <= p < tail.len() implies t1[(#[trigger] tail[
            p]) as int].statistics.visit_count == t2[tail[p] as int].statistics.visit_count by {
            assert(tail[p] == cs[p + 1]);
            assert(cs[p + 1] != j);
        };
        lemma_sum_same(t1, t2, tail);
    } else {
        assert(cs[0] != j);
        lemma_sum_bump_at(t1, t2, tail, j, p0 - 1);
    }
}

/// The search tree: an arena of nodes rooted at index 0.
pub struct Tree {
    pub nodes: Vec<Node>,
}

impl View for Tree {
    type V = Seq<Node>;

    open spec fn view(&self) -> Seq<Node> {
        self.nodes@
    }
}

impl Tree {
    /// A fresh tree holding only an unvisited root.
    pub fn new() -> (t: Tree)
        ensures
            wf(t@),
            mature(t@),
            t@.len() == 1,
            t@[0].children@.len() == 0,
            t@[0].statistics.visit_count == 0,
            t@[0].statistics.availability_count == 0,
            t@[0].statistics.reward == 0,
    {
        let root = Node {
            mov: None,
            parent: None,
            children: Vec::new(),
            player_just_moved: None,
            statistics: NodeStatistics::zeroed(),
        };
        let mut nodes = Vec::new();
        nodes.push(root);
        Tree { nodes }
    }

    /// The number of nodes in the tree.
    pub fn len(&self) -> (r: usize)
        ensures
            r == self@.len(),
    {
        self.nodes.len()
    }

    /// The entering move of a non-root node.
    pub fn move_of(&self, i: usize) -> (r: u64)
        requires
            wf(self@),
            1 <= i < self@.len(),
        ensures
            Some(r) == self@[i as int].mov,
    {
        proof {
            assert(wf_node(self@, i as int));
        }
        self.nodes[i].mov.unwrap()
    }

    /// The parent index of a non-root node.
    pub fn parent_of(&self, i: usize) -> (r: usize)
        requires
            wf(self@),
            1 <= i < self@.len(),
        ensures
            Some(r) == self@[i as int].parent,
            r < i,
    {
        proof {
            assert(wf_node(self@, i as int));
        }
        self.nodes[i].parent.unwrap()
    }

    /// The number of children of node `i`.
    pub fn child_count(&self, i: usize) -> (r: usize)
        requires
            i < self@.len(),
        ensures
            r == self@[i as int].children@.len(),
    {
        self.nodes[i].children.len()
    }

    /// The `k`-th child of node `i`.
    pub fn child_at(&self, i: usize, k: usize) -> (r: usize)
        requires
            wf(self@),
            i < self@.len(),
            k < self@[i as int].children@.len(),
        ensures
            r == self@[i as int].children@[k as int],
            i < r < self@.len(),
    {
        proof {
            assert(wf_children(self@, i as int));
        }
        self.nodes[i].children[k]
    }

    /// The statistics of node `i`.
    pub fn stats_of(&self, i: usize) -> (r: NodeStatistics)
        requires
            i < self@.len(),
        ensures
            r == self@[i as int].statistics,
    {
        self.nodes[i].statistics
    }

    /// Whether some child of `i` already carries the entering move `m`.
    fn has_child_move(&self, i: usize, m: u64) -> (r: bool)
        requires
            wf(self@),
            i < self@.len(),
        ensures
            r == node_has_child_move(self@, i as int, m),
    {
        proof {
            assert(wf_children(self@, i as int));
        }
        let n = self.nodes[i].children.len();
        let mut k: usize = 0;
        while k < n
            invariant
                wf(self@),
                i < self@.len(),
                n == self@[i as int].children@.len(),
                k <= n,
                forall|k2: int|
                    0 <= k2 < k ==> self@[#[trigger] self@[i as int].children@[k2] as int].mov
                        != Some(m),
            decreases n - k,
        {
            proof {
                assert(wf_children(self@, i as int));
                assert(wf_node(self@, self@[i as int].children@[k as int] as int));
            }
            let c = self.nodes[i].children[k];
            if self.nodes[c].mov.unwrap() == m {
                return true;
            }
            k += 1;
        }
        false
    }

    /// The moves in `legal` that no child of `i` currently represents, in
    /// the order of `legal`.
    pub fn untried_moves(&self, i: usize, legal: &Vec<u64>) -> (r: Vec<u64>)
        requires
            wf(self@),
            i < self@.len(),
            legal@.no_duplicates(),
        ensures
            r@ == legal@.filter(|m: u64| !node_has_child_move(self@, i as int, m)),
            forall|m: u64|
                #[trigger] r@.contains(m) <==> (legal@.contains(m) && !node_has_child_move(
                    self@,
                    i as int,
                    m,
                )),
            r@.no_duplicates(),
    {
        let ghost pred = |m: u64| !node_has_child_move(self@, i as int, m);
        let mut r: Vec<u64> = Vec::new();
        let mut j: usize = 0;
        while j < legal.len()
            invariant
                wf(self@),
                i < self@.len(),
                legal@.no_duplicates(),
                j <= legal@.len(),
                pred == (|m: u64| !node_has_child_move(self@, i as int, m)),
                r@ == legal@.take(j as int).filter(pred),
                forall|m: u64|
                    #[trigger] r@.contains(m) <==> (legal@.take(j as int).contains(m)
                        && !node_has_child_move(self@, i as int, m)),
                r@.no_duplicates(),
            decreases legal@.len() - j,
        {
            let m = legal[j];
            let ghost old_r = r@;
            if !self.has_child_move(i, m) {
                proof {
                    // m is new to r: it is not in legal.take(j), by no_duplicates.
                    assert(!legal@.take(j as int).contains(m)) by {
                        if legal@.take(j as int).contains(m) {
                            let p = choose|p: int|
                                0 <= p < j && #[trigger] legal@.take(j as int)[p] == m;
                            assert(legal@[p] == m);
                            assert(legal@[j as int] == m);
                        }
                    };
                    assert(!old_r.contains(m));
                }
                r.push(m);
                proof {
                    assert forall|p: int, q: int|
                        0 <= p < q < r@.len() implies r@[p] != r@[q] by {
                        if q == r@.len() - 1 {
                            assert(old_r.contains(r@[p]));
                        }
                    };
                    assert(r@.no_duplicates());
                }
            }
            j += 1;
            proof {
                // The filtered prefix grows by one step of the filter.
                assert(legal@.take(j as int) =~= legal@.take(j as int - 1).push(
                    legal@[j as int - 1],
                ));
                Seq::lemma_filter_push(legal@.take(j as int - 1), legal@[j as int - 1], pred);
                assert(r@ == legal@.take(j as int).filter(pred));
                assert forall|m2: u64| #[trigger] r@.contains(m2) implies (legal@.take(
                    j as int,
                ).contains(m2) && !node_has_child_move(self@, i as int, m2)) by {
                    if r@ == old_r.push(m) && m2 == m {
                        assert(legal@.take(j as int)[j - 1] == m);
                    } else {
                        if old_r.contains(m2) {
                            let p = choose|p: int|
                                0 <= p < j - 1 && #[trigger] legal@.take(j as int - 1)[p] == m2;
                            assert(legal@.take(j as int)[p] == m2);
                        } else {
                            assert(r@ == old_r.push(m) && m2 == m);
                        }
                    }
                };
                assert forall|m2: u64|
                    (legal@.take(j as int).contains(m2) && !node_has_child_move(
                        self@,
                        i as int,
                        m2,
                    )) implies #[trigger] r@.contains(m2) by {
                    let p = choose|p: int| 0 <= p < j && #[trigger] legal@.take(j as int)[p] == m2;
                    if p < j - 1 {
                        assert(legal@.take(j as int - 1)[p] == m2);
                        assert(old_r.contains(m2));
                        if r@ != old_r {
                            assert(r@ == old_r.push(m));
                            assert(r@[choose|q: int| 0 <= q < old_r.len() && old_r[q] == m2]
                                == m2);
                        }
                    } else {
                        assert(legal@[j - 1] == m2);
                        assert(m2 == m);
                        assert(!node_has_child_move(self@, i as int, m));
                        assert(r@ == old_r.push(m));
                        assert(r@[r@.len() - 1] == m2);
                    }
                };
            }
        }
        proof {
            assert(legal@.take(legal@.len() as int) =~= legal@);
        }
        r
    }

    /// The legal child of `i` with the maximal UCB1 score, ties broken by
    /// first-encountered order; `None` when `i` has no legal child. Scores
    /// are read without touching any counter.
    pub fn peek_best(&self, i: usize, legal: &Vec<u64>) -> (r: Option<usize>)
        requires
            wf(self@),
            mature(self@),
            i < self@.len(),
        ensures
            (r is Some <==> exists|k: int|
                0 <= k < self@[i as int].children@.len() && #[trigger] pos_is_legal(
                    self@,
                    i as int,
                    k,
                    legal@,
                )),
            r is Some ==> exists|k0: int|
                #[trigger] selected_at(self@, i as int, k0, legal@, r.unwrap()),
            r is Some ==> i < r.unwrap() < self@.len(),
    {
        let ghost t0 = self@;
        proof {
            assert(wf_children(t0, i as int));
        }
        let n = self.nodes[i].children.len();

        // Choose the legal child with the maximal score, first tie winning.
        let mut found = false;
        let mut best_node: usize = 0;
        let mut best_score: u64 = 0;
        let ghost mut best_pos: int = 0;
        let mut k: usize = 0;
        while k < n
            invariant
                wf(t0),
                mature(t0),
                self@ == t0,
                i < t0.len(),
                n == t0[i as int].children@.len(),
                k <= n,
                found <==> exists|k2: int|
                    0 <= k2 < k && #[trigger] pos_is_legal(t0, i as int, k2, legal@),
                found ==> {
                    &&& 0 <= best_pos < k
                    &&& t0[i as int].children@[best_pos] == best_node
                    &&& pos_is_legal(t0, i as int, best_pos, legal@)
                    &&& best_score == child_score(t0, i as int, best_pos)
                    &&& forall|k2: int|
                        0 <= k2 < k && #[trigger] pos_is_legal(t0, i as int, k2, legal@)
                            ==> child_score(t0, i as int, k2) <= best_score
                    &&& forall|k2: int|
                        0 <= k2 < best_pos && #[trigger] pos_is_legal(t0, i as int, k2, legal@)
                            ==> child_score(t0, i as int, k2) < best_score
                },
            decreases n - k,
        {
            proof {
                assert(wf_children(t0, i as int));
            }
            let c = self.nodes[i].children[k];
            proof {
                assert(wf_node(t0, c as int));
            }
            let cmov = self.nodes[c].mov.unwrap();
            if contains_move(legal, cmov) {
                proof {
                    assert(pos_is_legal(t0, i as int, k as int, legal@));
                }
                let s = self.nodes[c].statistics.ucb1();
                proof {
                    assert(s == child_score(t0, i as int, k as int));
                }
                if !found || s > best_score {
                    found = true;
                    best_node = c;
                    best_score = s;
                    proof {
                        best_pos = k as int;
                    }
                }
            }
            k += 1;
        }

        let r = if found {
            Some(best_node)
        } else {
            None
        };
        proof {
            if found {
                assert(wf_children(t0, i as int));
                assert(selected_at(t0, i as int, best_pos, legal@, r.unwrap()));
            }
        }
        r
    }

    /// Among the children of `i` whose entering move is in `legal`, pick the
    /// one with the maximal UCB1 score (ties broken by first-encountered
    /// order), and count this pass as one availability for every legal child.
    /// Returns `None` when `i` has no legal child.
    pub fn select_child(&mut self, i: usize, legal: &Vec<u64>) -> (r: Option<usize>)
        requires
            wf(old(self)@),
            mature(old(self)@),
            i < old(self)@.len(),
            forall|c: int|
                0 <= c < old(self)@.len() && is_legal_child(old(self)@, i as int, c, legal@)
                    ==> (#[trigger] old(self)@[c]).statistics.availability_count < u64::MAX,
        ensures
            final(self)@.len() == old(self)@.len(),
            wf(final(self)@),
            mature(final(self)@),
            forall|j: int|
                0 <= j < old(self)@.len() ==> (#[trigger] final(self)@[j]).mov == old(self)@[j].mov
                    && final(self)@[j].parent == old(self)@[j].parent && final(self)@[j].children
                    == old(self)@[j].children && final(self)@[j].player_just_moved == old(
                    self,
                )@[j].player_just_moved && final(self)@[j].statistics.visit_count == old(
                    self,
                )@[j].statistics.visit_count && final(self)@[j].statistics.reward == old(
                    self,
                )@[j].statistics.reward,
            forall|j: int|
                0 <= j < old(self)@.len() ==> (#[trigger] final(self)@[j]).statistics.availability_count
                    == old(self)@[j].statistics.availability_count + (
                if is_legal_child(old(self)@, i as int, j, legal@) {
                    1int
                } else {
                    0int
                }),
            (r is Some <==> exists|k: int|
                0 <= k < old(self)@[i as int].children@.len() && #[trigger] pos_is_legal(
                    old(self)@,
                    i as int,
                    k,
                    legal@,
                )),
            r is Some ==> exists|k0: int|
                #[trigger] selected_at(old(self)@, i as int, k0, legal@, r.unwrap()),
    {
        let ghost t0 = self@;
        proof {
            assert(wf_children(t0, i as int));
        }
        let copt = self.peek_best(i, legal);
        let n = self.nodes[i].children.len();

        // Every legal child was seen as available in this pass.
        let mut k2: usize = 0;
        while k2 < n
            invariant
                wf(t0),
                i < t0.len(),
                n == t0[i as int].children@.len(),
                k2 <= n,
                self@.len() == t0.len(),
                forall|c: int|
                    0 <= c < t0.len() && is_legal_child(t0, i as int, c, legal@)
                        ==> (#[trigger] t0[c]).statistics.availability_count < u64::MAX,
                forall|j: int|
                    0 <= j < t0.len() ==> (#[trigger] self@[j]).mov == t0[j].mov && self@[j].parent
                        == t0[j].parent && self@[j].children == t0[j].children
                        && self@[j].player_just_moved == t0[j].player_just_moved
                        && self@[j].statistics.visit_count == t0[j].statistics.visit_count
                        && self@[j].statistics.reward == t0[j].statistics.reward,
                forall|j: int|
                    0 <= j < t0.len() ==> (#[trigger] self@[j]).statistics.availability_count == t0[j].statistics.availability_count + (
                    if exists|k3: int|
                        0 <= k3 < k2 && t0[i as int].children@[k3] == j && #[trigger] pos_is_legal(
                            t0,
                            i as int,
                            k3,
                            legal@,
                        ) {
                        1int
                    } else {
                        0int
                    }),
            decreases n - k2,
        {
            proof {
                assert(wf_children(t0, i as int));
                lemma_child_positions_distinct(t0, i as int);
            }
            let c = self.nodes[i].children[k2];
            proof {
                assert(wf_node(t0, c as int));
            }
            let cmov = self.nodes[c].mov.unwrap();
            if contains_move(legal, cmov) {
                proof {
                    assert(pos_is_legal(t0, i as int, k2 as int, legal@));
                    assert(t0[i as int].children@[k2 as int] == c as int);
                    assert(is_legal_child(t0, i as int, c as int, legal@));
                    // c was not bumped yet: no earlier position names it.
                    assert(forall|k3: int|
                        0 <= k3 < k2 ==> t0[i as int].children@[k3] != #[trigger] t0[i as int].children@[k2 as int]);
                }
                let st = self.nodes[c].statistics;
                self.nodes[c].statistics = NodeStatistics {
                    visit_count: st.visit_count,
                    availability_count: st.availability_count + 1,
                    reward: st.reward,
                };
            }
            k2 += 1;
            proof {
                assert forall|j: int| 0 <= j < t0.len() implies (#[trigger] self@[j]).statistics.availability_count == t0[j].statistics.availability_count + (
                if exists|k3: int|
                    0 <= k3 < k2 && t0[i as int].children@[k3] == j && #[trigger] pos_is_legal(
                        t0,
                        i as int,
                        k3,
                        legal@,
                    ) {
                    1int
                } else {
                    0int
                }) by {
                    lemma_child_positions_distinct(t0, i as int);
                    if exists|k3: int|
                        0 <= k3 < k2 && t0[i as int].children@[k3] == j && #[trigger] pos_is_legal(
                            t0,
                            i as int,
                            k3,
                            legal@,
                        ) {
                        let k3 = choose|k3: int|
                            0 <= k3 < k2 && t0[i as int].children@[k3] == j
                                && #[trigger] pos_is_legal(t0, i as int, k3, legal@);
                    }
                };
            }
        }

        proof {
            // The whole pass bumped exactly the legal children of i.
            assert forall|j: int| 0 <= j < t0.len() implies (#[trigger] self@[j]).statistics.availability_count == t0[j].statistics.availability_count + (
            if is_legal_child(t0, i as int, j, legal@) {
                1int
            } else {
                0int
            }) by {
                assert(wf_children(t0, i as int));
                if is_legal_child(t0, i as int, j, legal@) {
                    let k3 = choose|k3: int|
                        0 <= k3 < t0[i as int].children@.len()
                            && #[trigger] t0[i as int].children@[k3] == j;
                    assert(t0[i as int].children@[k3] as int == j);
                    assert(pos_is_legal(t0, i as int, k3, legal@));
                } else {
                    if exists|k3: int|
                        0 <= k3 < n && t0[i as int].children@[k3] == j && #[trigger] pos_is_legal(
                            t0,
                            i as int,
                            k3,
                            legal@,
                        ) {
                        let k3 = choose|k3: int|
                            0 <= k3 < n && t0[i as int].children@[k3] == j
                                && #[trigger] pos_is_legal(t0, i as int, k3, legal@);
                        assert(t0[i as int].children@[k3] == j);
                        assert(is_legal_child(t0, i as int, j, legal@));
                    }
                }
            };
            assert forall|j: int| 1 <= j < t0.len() implies (#[trigger] self@[j]).statistics.visit_count <= self@[j].statistics.availability_count by {
                assert(wf_node(t0, j));
            };
            lemma_wf_same_structure(t0, self@);
        }

        copt
    }

    /// Add a child of `i` entered by `mov` and created by `player`. If a
    /// child with the same entering move already exists, return it instead.
    pub fn add_child(&mut self, i: usize, mov: u64, player: u64) -> (c: usize)
        requires
            wf(old(self)@),
            i < old(self)@.len(),
        ensures
            wf(final(self)@),
            i < c < final(self)@.len(),
            final(self)@[c as int].mov == Some(mov),
            node_has_child_move(old(self)@, i as int, mov) ==> final(self)@ == old(self)@
                && old(self)@[i as int].children@.contains(c),
            !node_has_child_move(old(self)@, i as int, mov) ==> {
                &&& c == old(self)@.len()
                &&& final(self)@.len() == old(self)@.len() + 1
                &&& forall|j: int| 0 <= j < old(self)@.len() && j != i ==> final(self)@[j] == old(self)@[j]
                &&& final(self)@[i as int].mov == old(self)@[i as int].mov
                &&& final(self)@[i as int].parent == old(self)@[i as int].parent
                &&& final(self)@[i as int].player_just_moved == old(self)@[i as int].player_just_moved
                &&& final(self)@[i as int].statistics == old(self)@[i as int].statistics
                &&& final(self)@[i as int].children@ == old(self)@[i as int].children@.push(c)
                &&& final(self)@[c as int].parent == Some(i)
                &&& final(self)@[c as int].player_just_moved == Some(player)
                &&& final(self)@[c as int].children@.len() == 0
                &&& final(self)@[c as int].statistics.visit_count == 0
                &&& final(self)@[c as int].statistics.availability_count == 1
                &&& final(self)@[c as int].statistics.reward == 0
            },
    {
        let ghost t0 = self@;
        proof {
            assert(wf_children(t0, i as int));
        }
        let n = self.nodes[i].children.len();
        let mut k: usize = 0;
        while k < n
            invariant
                wf(t0),
                self@ == t0,
                i < t0.len(),
                n == t0[i as int].children@.len(),
                k <= n,
                forall|k2: int|
                    0 <= k2 < k ==> t0[#[trigger] t0[i as int].children@[k2] as int].mov != Some(
                        mov,
                    ),
            decreases n - k,
        {
            proof {
                assert(wf_children(t0, i as int));
            }
            let c = self.nodes[i].children[k];
            proof {
                assert(wf_node(t0, c as int));
            }
            if self.nodes[c].mov.unwrap() == mov {
                return c;
            }
            k += 1;
        }
        // No racing insertion: create the node. Its availability starts at 1
        // because expansion follows selection within the same iteration.
        let c = self.nodes.len();
        let node = Node {
            mov: Some(mov),
            parent: Some(i),
            children: Vec::new(),
            player_just_moved: Some(player),
            statistics: NodeStatistics { visit_count: 0, availability_count: 1, reward: 0 },
        };
        self.nodes.push(node);
        self.nodes[i].children.push(c);
        proof {
            let t2 = self@;
            assert(t2[i as int].children@ == t0[i as int].children@.push(c as usize));
            assert forall|j: int| 1 <= j < t2.len() implies #[trigger] wf_node(t2, j) by {
                if j < t0.len() {
                    assert(wf_node(t0, j));
                    let p = t0[j].parent.unwrap() as int;
                    if p == i {
                        let kp = choose|kp: int|
                            0 <= kp < t0[i as int].children@.len() && #[trigger] t0[i as int].children@[kp] == j as usize;
                        assert(t2[i as int].children@[kp] == j as usize);
                        assert(t2[p].children@.contains(j as usize));
                    } else {
                        assert(t2[p].children == t0[p].children);
                    }
                } else {
                    assert(j == c);
                    assert(t2[i as int].children@[t0[i as int].children@.len() as int]
                        == c as usize);
                    assert(t2[i as int].children@.contains(c as usize));
                }
            };
            assert forall|j: int| 0 <= j < t2.len() implies #[trigger] wf_children(t2, j) by {
                if j == c {
                    assert(t2[j].children@.len() == 0);
                } else if j == i {
                    assert(wf_children(t0, i as int));
                    let cs = t2[i as int].children@;
                    assert forall|k1: int|
                        0 <= k1 < cs.len() implies i < #[trigger] cs[k1] as int && cs[k1]
                        < t2.len() && t2[cs[k1] as int].parent == Some(i as usize) by {
                        if k1 < cs.len() - 1 {
                            assert(cs[k1] == t0[i as int].children@[k1]);
                        }
                    };
                    assert forall|k1: int, k2: int|
                        #![trigger cs[k1], cs[k2]]
                        0 <= k1 < cs.len() && 0 <= k2 < cs.len() && k1 != k2 implies t2[
                        cs[k1] as int].mov != t2[cs[k2] as int].mov by {
                        if k1 < cs.len() - 1 && k2 < cs.len() - 1 {
                            assert(cs[k1] == t0[i as int].children@[k1]);
                            assert(cs[k2] == t0[i as int].children@[k2]);
                        } else if k1 == cs.len() - 1 {
                            assert(cs[k2] == t0[i as int].children@[k2]);
                            assert(t0[t0[i as int].children@[k2] as int].mov != Some(mov));
                        } else {
                            assert(cs[k1] == t0[i as int].children@[k1]);
                            assert(t0[t0[i as int].children@[k1] as int].mov != Some(mov));
                        }
                    };
                } else {
                    assert(wf_children(t0, j));
                    assert(t2[j].children == t0[j].children);
                    assert forall|k1: int|
                        0 <= k1 < t2[j].children@.len() implies j < #[trigger] t2[j].children@[k1] as int && t2[j].children@[k1] < t2.len() && t2[t2[j].children@[k1] as int].parent == Some(j as usize) by {
                        assert(t0[j].children@[k1] == t2[j].children@[k1]);
                    };
                    assert forall|k1: int, k2: int|
                        #![trigger t2[j].children@[k1], t2[j].children@[k2]]
                        0 <= k1 < t2[j].children@.len() && 0 <= k2 < t2[j].children@.len() && k1
                            != k2 implies t2[t2[j].children@[k1] as int].mov != t2[t2[j].children@[k2] as int].mov by {
                        assert(t0[j].children@[k1] == t2[j].children@[k1]);
                        assert(t0[j].children@[k2] == t2[j].children@[k2]);
                    };
                }
            };
        }
        c
    }

    /// Credit one visit, and the terminal payoff for the player who just
    /// moved, to node `i`. The root is never updated.
    pub fn update<G: crate::game::Game>(&mut self, i: usize, terminal_state: &G)
        requires
            wf(old(self)@),
            1 <= i < old(self)@.len(),
            terminal_state.inv(),
            terminal_state.is_terminal(),
            old(self)@[i as int].statistics.visit_count < u64::MAX,
            old(self)@[i as int].statistics.visit_count < old(self)@[i as int].statistics.availability_count,
        ensures
            wf(final(self)@),
            final(self)@.len() == old(self)@.len(),
            forall|j: int| 0 <= j < old(self)@.len() && j != i ==> final(self)@[j] == old(self)@[j],
            final(self)@[i as int].mov == old(self)@[i as int].mov,
            final(self)@[i as int].parent == old(self)@[i as int].parent,
            final(self)@[i as int].children == old(self)@[i as int].children,
            final(self)@[i as int].player_just_moved == old(self)@[i as int].player_just_moved,
            final(self)@[i as int].statistics.visit_count == old(self)@[i as int].statistics.visit_count + 1,
            final(self)@[i as int].statistics.availability_count == old(self)@[i as int].statistics.availability_count,
            final(self)@[i as int].statistics.reward == crate::fixed::sat_add_spec(
                old(self)@[i as int].statistics.reward,
                terminal_state.result_spec(old(self)@[i as int].player_just_moved.unwrap()),
            ),
    {
        let ghost t0 = self@;
        proof {
            assert(wf_node(t0, i as int));
        }
        let p = self.nodes[i].player_just_moved.unwrap();
        let res = terminal_state.result(p);
        let delta = res.unwrap();
        let st = self.nodes[i].statistics;
        let new_reward = crate::fixed::sat_add(st.reward, delta);
        self.nodes[i].statistics = NodeStatistics {
            visit_count: st.visit_count + 1,
            availability_count: st.availability_count,
            reward: new_reward,
        };
        proof {
            assert forall|j: int| 1 <= j < self@.len() implies (#[trigger] self@[j]).statistics.visit_count <= self@[j].statistics.availability_count by {
                assert(wf_node(t0, j));
            };
            lemma_wf_same_structure(t0, self@);
        }
    }

    /// Make the child `c` the new root, keeping exactly its subtree (with
    /// all statistics) and discarding every other node. The new root sheds
    /// its entering move, parent link and player tag, as a root carries none.
    #[verifier::rlimit(100)]
    pub fn reroot(&mut self, c: usize)
        requires
            wf(old(self)@),
            1 <= c < old(self)@.len(),
        ensures
            wf(final(self)@),
            final(self)@.len() <= old(self)@.len(),
            final(self)@[0].statistics == old(self)@[c as int].statistics,
            final(self)@[0].children@.len() == old(self)@[c as int].children@.len(),
            forall|k: int|
                0 <= k < old(self)@[c as int].children@.len() ==> final(self)@[(
                #[trigger] final(self)@[0].children@[k]) as int].mov == old(self)@[old(self)@[
                    c as int].children@[k] as int].mov && final(self)@[final(self)@[
                    0].children@[k] as int].player_just_moved == old(self)@[old(self)@[
                    c as int].children@[k] as int].player_just_moved && final(self)@[final(self)@[
                    0].children@[k] as int].statistics == old(self)@[old(self)@[
                    c as int].children@[k] as int].statistics && final(self)@[final(self)@[
                    0].children@[k] as int].children@.len() == old(self)@[old(self)@[
                    c as int].children@[k] as int].children@.len(),
            forall|jn: int|
                1 <= jn < final(self)@.len() ==> exists|jo: int|
                    1 <= jo < old(self)@.len() && (#[trigger] final(self)@[jn]).statistics == old(
                        self,
                    )@[jo].statistics,
            exists|olds: Seq<usize>|
                #[trigger] subtree_correspondence(old(self)@, final(self)@, c as int, olds),
    {
        let ghost t0 = self@;
        let len = self.nodes.len();

        // First pass: mark the subtree of c and assign each kept node its
        // rank, which becomes its index in the rebuilt arena.
        let mut keep: Vec<bool> = Vec::new();
        let mut map: Vec<usize> = Vec::new();
        let mut count: usize = 0;
        let mut o: usize = 0;
        while o < len
            invariant
                wf(t0),
                self@ == t0,
                1 <= c < len,
                len == t0.len(),
                o <= len,
                keep@.len() == o,
                map@.len() == o,
                forall|o2: int| 0 <= o2 < o ==> keep@[o2] == in_subtree(t0, c as int, o2),
                forall|o2: int|
                    0 <= o2 < o ==> map@[o2] == count_in_subtree(t0, c as int, o2),
                count == count_in_subtree(t0, c as int, o as int),
                count <= o,
            decreases len - o,
        {
            let k: bool = if o == c {
                true
            } else if o > c {
                proof {
                    assert(wf_node(t0, o as int));
                }
                let par = self.nodes[o].parent.unwrap();
                keep[par]
            } else {
                false
            };
            proof {
                assert(k == in_subtree(t0, c as int, o as int));
            }
            keep.push(k);
            map.push(count);
            if k {
                count += 1;
            }
            o += 1;
        }

        // Second pass: rebuild the arena in the same order, remapping parent
        // and child indices through the rank table.
        let mut nodes2: Vec<Node> = Vec::new();
        let ghost mut olds: Seq<usize> = Seq::empty();
        let mut o2: usize = c;
        proof {
            lemma_count_below(t0, c as int, c as int);
        }
        while o2 < len
            invariant
                wf(t0),
                self@ == t0,
                1 <= c < len,
                len == t0.len(),
                c <= o2 <= len,
                keep@.len() == len,
                map@.len() == len,
                forall|o3: int| 0 <= o3 < len ==> keep@[o3] == in_subtree(t0, c as int, o3),
                forall|o3: int|
                    0 <= o3 < len ==> map@[o3] == count_in_subtree(t0, c as int, o3),
                nodes2@.len() == count_in_subtree(t0, c as int, o2 as int),
                olds.len() == nodes2@.len(),
                forall|jn: int|
                    0 <= jn < olds.len() ==> c <= (#[trigger] olds[jn]) < o2 && in_subtree(
                        t0,
                        c as int,
                        olds[jn] as int,
                    ) && map@[olds[jn] as int] == jn,
                forall|a: int, b: int|
            #![trigger olds[a], olds[b]]
            0 <= a < b < olds.len() ==> olds[a] < olds[b],
                olds.len() > 0 ==> olds[0] == c,
                forall|o3: int|
                    c <= o3 < o2 && in_subtree(t0, c as int, o3) ==> (#[trigger] map@[
                        o3]) < olds.len() && olds[map@[o3] as int] == o3,
                forall|jn: int|
                    0 <= jn < olds.len() ==> (#[trigger] nodes2@[jn]).statistics == t0[
                        olds[jn] as int].statistics && nodes2@[jn].children@.len() == t0[
                        olds[jn] as int].children@.len(),
                forall|jn: int, k: int|
                    #![trigger nodes2@[jn].children@[k]]
                    0 <= jn < olds.len() && 0 <= k < nodes2@[jn].children@.len() ==> nodes2@[
                        jn].children@[k] == map@[t0[olds[jn] as int].children@[k] as int],
                olds.len() > 0 ==> nodes2@[0].mov is None && nodes2@[0].parent is None && nodes2@[
                    0].player_just_moved is None,
                forall|jn: int|
                    1 <= jn < olds.len() ==> (#[trigger] nodes2@[jn]).mov == t0[
                        olds[jn] as int].mov && nodes2@[jn].player_just_moved == t0[
                        olds[jn] as int].player_just_moved && nodes2@[jn].parent == Some(
                        map@[t0[olds[jn] as int].parent.unwrap() as int],
                    ),
            decreases len - o2,
        {
            if keep[o2] {
                proof {
                    assert(in_subtree(t0, c as int, o2 as int));
                    assert(wf_children(t0, o2 as int));
                }
                let nch = self.nodes[o2].children.len();
                let mut kids: Vec<usize> = Vec::new();
                let mut k: usize = 0;
                while k < nch
                    invariant
                        self@ == t0,
                        1 <= c < len,
                        len == t0.len(),
                        c <= o2 < len,
                        map@.len() == len,
                        nch == t0[o2 as int].children@.len(),
                        k <= nch,
                        wf(t0),
                        kids@.len() == k,
                        forall|k2: int|
                            0 <= k2 < k ==> (#[trigger] kids@[k2]) == map@[t0[
                                o2 as int].children@[k2] as int],
                    decreases nch - k,
                {
                    proof {
                        assert(wf_children(t0, o2 as int));
                    }
                    let ch = self.nodes[o2].children[k];
                    kids.push(map[ch]);
                    k += 1;
                }
                let node = if o2 == c {
                    Node {
                        mov: None,
                        parent: None,
                        children: kids,
                        player_just_moved: None,
                        statistics: self.nodes[o2].statistics,
                    }
                } else {
                    proof {
                        assert(wf_node(t0, o2 as int));
                    }
                    Node {
                        mov: Some(self.nodes[o2].mov.unwrap()),
                        parent: Some(map[self.nodes[o2].parent.unwrap()]),
                        children: kids,
                        player_just_moved: Some(self.nodes[o2].player_just_moved.unwrap()),
                        statistics: self.nodes[o2].statistics,
                    }
                };
                nodes2.push(node);
                proof {
                    olds = olds.push(o2);
                    assert(map@[o2 as int] == olds.len() - 1);
                    if o2 != c {
                        assert(olds.len() > 1) by {
                            lemma_count_strict(t0, c as int, c as int, o2 as int);
                            lemma_count_below(t0, c as int, c as int);
                        };
                    }
                }
            } else {
                proof {
                    assert(!in_subtree(t0, c as int, o2 as int));
                }
            }
            o2 += 1;
        }
        self.nodes = nodes2;
        proof {
            lemma_reroot_wf(t0, self@, olds, map@, c as int);
            // The ghost index table witnesses the exact subtree correspondence.
            assert forall|o: int|
                c as int <= o < t0.len() && in_subtree(t0, c as int, o) implies exists|jn: int|
                0 <= jn < self@.len() && #[trigger] olds[jn] == o by {
                assert(map@[o] < olds.len() && olds[map@[o] as int] == o);
            };
            assert(subtree_correspondence(t0, self@, c as int, olds));
        }
    }
}

/// Node `o` lies in the subtree rooted at `c`: following parents from `o`
/// stays above `c` and reaches it.
pub open spec fn in_subtree(t: Seq<Node>, c: int, o: int) -> bool
    decreases (if o < c { 0int } else { o - c }),
{
    if o == c {
        true
    } else if c < o && 0 <= o < t.len() && t[o].parent is Some && t[o].parent.unwrap() < o {
        in_subtree(t, c, t[o].parent.unwrap() as int)
    } else {
        false
    }
}

/// How many of the nodes with index below `upto` lie in the subtree at `c`.
pub open spec fn count_in_subtree(t: Seq<Node>, c: int, upto: int) -> int
    decreases (if upto <= 0 { 0int } else { upto }),
{
    if upto <= 0 {
        0
    } else {
        count_in_subtree(t, c, upto - 1) + (if in_subtree(t, c, upto - 1) {
            1int
        } else {
            0int
        })
    }
}

/// The subtree count never decreases as the bound grows.
pub proof fn lemma_count_mono(t: Seq<Node>, c: int, a: int, b: int)
    requires
        a <= b,
    ensures
        count_in_subtree(t, c, a) <= count_in_subtree(t, c, b),
    decreases b - a,
{
    if a < b {
        lemma_count_mono(t, c, a, b - 1);
    }
}

/// Strict growth across a subtree member.
pub proof fn lemma_count_strict(t: Seq<Node>, c: int, a: int, b: int)
    requires
        0 <= a < b,
        in_subtree(t, c, a),
    ensures
        count_in_subtree(t, c, a) < count_in_subtree(t, c, b),
{
    assert(count_in_subtree(t, c, a + 1) == count_in_subtree(t, c, a) + 1);
    lemma_count_mono(t, c, a + 1, b);
}

/// Below the subtree root nothing is counted.
pub proof fn lemma_count_below(t: Seq<Node>, c: int, upto: int)
    requires
        upto <= c,
    ensures
        count_in_subtree(t, c, upto) == 0,
    decreases (if upto <= 0 { 0int } else { upto }),
{
    if upto > 0 {
        lemma_count_below(t, c, upto - 1);
    }
}

/// The subtree count never exceeds the bound.
pub proof fn lemma_count_le(t: Seq<Node>, c: int, upto: int)
    requires
        0 <= upto,
    ensures
        count_in_subtree(t, c, upto) <= upto,
    decreases upto,
{
    if upto > 0 {
        lemma_count_le(t, c, upto - 1);
    }
}

/// The rebuilt arena `t2` is exactly the old subtree of `c`, witnessed by
/// the index table `olds`: new node `jn` is old node `olds[jn]`. Every
/// survivor lies in the subtree of `c` (so every sibling subtree is gone),
/// every subtree node survives, labels and statistics are carried over, and
/// the `k`-th new child of `jn` is the `k`-th old child of `olds[jn]`.
pub open spec fn subtree_correspondence(
    t0: Seq<Node>,
    t2: Seq<Node>,
    c: int,
    olds: Seq<usize>,
) -> bool {
    &&& olds.len() == t2.len()
    &&& olds.len() >= 1
    &&& olds[0] == c
    &&& forall|jn: int|
        0 <= jn < t2.len() ==> c <= (#[trigger] olds[jn]) < t0.len() && in_subtree(
            t0,
            c,
            olds[jn] as int,
        )
    &&& forall|jn: int|
        0 <= jn < t2.len() ==> (#[trigger] t2[jn]).statistics == t0[olds[jn] as int].statistics
            && t2[jn].children@.len() == t0[olds[jn] as int].children@.len()
    &&& forall|jn: int|
        1 <= jn < t2.len() ==> (#[trigger] t2[jn]).mov == t0[olds[jn] as int].mov && t2[
            jn].player_just_moved == t0[olds[jn] as int].player_just_moved
    &&& forall|jn: int, k: int|
        #![trigger t2[jn].children@[k]]
        0 <= jn < t2.len() && 0 <= k < t2[jn].children@.len() ==> t2[jn].children@[k] < t2.len()
            && olds[t2[jn].children@[k] as int] == t0[olds[jn] as int].children@[k]
    &&& forall|o: int|
        c <= o < t0.len() && in_subtree(t0, c, o) ==> exists|jn: int|
            0 <= jn < t2.len() && #[trigger] olds[jn] == o
}

/// The rebuilt arena of `reroot` is well-formed and mirrors the subtree.
#[verifier::rlimit(100)]
proof fn lemma_reroot_wf(t0: Seq<Node>, t2: Seq<Node>, olds: Seq<usize>, map: Seq<usize>, c: int)
    requires
        wf(t0),
        1 <= c < t0.len(),
        map.len() == t0.len(),
        forall|o3: int| 0 <= o3 < t0.len() ==> (#[trigger] map[o3]) == count_in_subtree(t0, c, o3),
        t2.len() == olds.len(),
        t2.len() == count_in_subtree(t0, c, t0.len() as int),
        forall|jn: int|
            0 <= jn < olds.len() ==> c <= (#[trigger] olds[jn]) < t0.len() && in_subtree(
                t0,
                c,
                olds[jn] as int,
            ) && map[olds[jn] as int] == jn,
        forall|a: int, b: int|
            #![trigger olds[a], olds[b]]
            0 <= a < b < olds.len() ==> olds[a] < olds[b],
        olds.len() > 0 ==> olds[0] == c,
        forall|o3: int|
            c <= o3 < t0.len() && in_subtree(t0, c, o3) ==> (#[trigger] map[o3]) < olds.len()
                && olds[map[o3] as int] == o3,
        forall|jn: int|
            0 <= jn < olds.len() ==> (#[trigger] t2[jn]).statistics == t0[
                olds[jn] as int].statistics && t2[jn].children@.len() == t0[
                olds[jn] as int].children@.len(),
        forall|jn: int, k: int|
            #![trigger t2[jn].children@[k]]
            0 <= jn < olds.len() && 0 <= k < t2[jn].children@.len() ==> t2[jn].children@[k] == map[
                t0[olds[jn] as int].children@[k] as int],
        olds.len() > 0 ==> t2[0].mov is None && t2[0].parent is None && t2[0].player_just_moved
            is None,
        forall|jn: int|
            1 <= jn < olds.len() ==> (#[trigger] t2[jn]).mov == t0[olds[jn] as int].mov && t2[
                jn].player_just_moved == t0[olds[jn] as int].player_just_moved && t2[jn].parent
                == Some(map[t0[olds[jn] as int].parent.unwrap() as int]),
    ensures
        wf(t2),
        1 <= t2.len() <= t0.len(),
        t2[0].statistics == t0[c].statistics,
        t2[0].children@.len() == t0[c].children@.len(),
        forall|k: int|
            0 <= k < t0[c].children@.len() ==> t2[(#[trigger] t2[0].children@[k]) as int].mov
                == t0[t0[c].children@[k] as int].mov && t2[
                t2[0].children@[k] as int].player_just_moved == t0[
                t0[c].children@[k] as int].player_just_moved && t2[
                t2[0].children@[k] as int].statistics == t0[
                t0[c].children@[k] as int].statistics && t2[
                t2[0].children@[k] as int].children@.len() == t0[
                t0[c].children@[k] as int].children@.len(),
        forall|jn: int|
            1 <= jn < t2.len() ==> exists|jo: int|
                1 <= jo < t0.len() && (#[trigger] t2[jn]).statistics == t0[jo].statistics,
        forall|jn: int, k: int|
            #![trigger t2[jn].children@[k]]
            0 <= jn < t2.len() && 0 <= k < t2[jn].children@.len() ==> t2[jn].children@[k]
                < t2.len() && olds[t2[jn].children@[k] as int] == t0[olds[jn] as int].children@[k],
{
    // The subtree is non-empty: its root is counted.
    assert(in_subtree(t0, c, c));
    lemma_count_below(t0, c, c);
    lemma_count_strict(t0, c, c, t0.len() as int);
    lemma_count_le(t0, c, t0.len() as int);
    assert(t2.len() >= 1);
    assert(olds[0] == c);
    assert(map[c] == 0);

    // Every child of a kept node is kept, and its rank is a valid new index
    // above its parent's.
    assert forall|jn: int, k: int|
        #![trigger t2[jn].children@[k]]
        0 <= jn < t2.len() && 0 <= k < t2[jn].children@.len() implies {
        let oj = olds[jn] as int;
        let ch = t0[oj].children@[k] as int;
        &&& in_subtree(t0, c, ch)
        &&& jn < t2[jn].children@[k] as int
        &&& t2[jn].children@[k] < t2.len()
        &&& olds[t2[jn].children@[k] as int] == t0[oj].children@[k]
    } by {
        let oj = olds[jn] as int;
        assert(wf_children(t0, oj));
        let ch = t0[oj].children@[k] as int;
        assert(oj < ch < t0.len());
        assert(t0[ch].parent == Some(olds[jn]));
        assert(in_subtree(t0, c, ch));
        lemma_count_strict(t0, c, oj, ch);
        assert(map[ch] == count_in_subtree(t0, c, ch));
        assert(jn < map[ch]);
        assert(map[ch] < olds.len() && olds[map[ch] as int] == ch);
        assert(t2[jn].children@[k] == map[ch]);
    };

    assert forall|jn: int| 1 <= jn < t2.len() implies #[trigger] wf_node(t2, jn) by {
        let oj = olds[jn] as int;
        assert(olds[0] < olds[jn]);
        assert(c < oj);
        assert(wf_node(t0, oj));
        let par = t0[oj].parent.unwrap() as int;
        assert(in_subtree(t0, c, par)) by {
            assert(in_subtree(t0, c, oj));
        };
        assert(c <= par) by {
            if par < c {
                assert(!in_subtree(t0, c, par));
            }
        };
        let pn = map[par] as int;
        assert(pn < olds.len() && olds[pn] == par);
        lemma_count_strict(t0, c, par, oj);
        assert(pn < jn);
        // The parent's rebuilt child list holds jn at the same position.
        assert(t0[par].children@.contains(olds[jn]));
        let kp = choose|kp: int|
            0 <= kp < t0[par].children@.len() && t0[par].children@[kp] == olds[jn];
        assert(t2[pn].children@[kp] == map[oj]);
        assert(map[oj] == jn);
        assert(t2[pn].children@.contains(jn as usize));
        assert(t2[jn].parent == Some(map[par]));
        assert(t2[jn].statistics == t0[oj].statistics);
    };

    assert forall|jn: int| 0 <= jn < t2.len() implies #[trigger] wf_children(t2, jn) by {
        let oj = olds[jn] as int;
        assert(wf_children(t0, oj));
        assert forall|k: int|
            0 <= k < t2[jn].children@.len() implies jn < #[trigger] t2[jn].children@[k] as int
            && t2[jn].children@[k] < t2.len() && t2[t2[jn].children@[k] as int].parent == Some(
            jn as usize,
        ) by {
            let ch = t0[oj].children@[k] as int;
            let cn = t2[jn].children@[k] as int;
            assert(olds[cn] == t0[oj].children@[k]);
            assert(1 <= cn);
            assert(t2[cn].parent == Some(map[t0[ch].parent.unwrap() as int]));
            assert(t0[ch].parent == Some(olds[jn]));
            assert(map[oj] == jn);
        };
        assert forall|k1: int, k2: int|
            #![trigger t2[jn].children@[k1], t2[jn].children@[k2]]
            0 <= k1 < t2[jn].children@.len() && 0 <= k2 < t2[jn].children@.len() && k1 != k2
            implies t2[t2[jn].children@[k1] as int].mov != t2[t2[jn].children@[k2] as int].mov by {
            let ch1 = t0[oj].children@[k1] as int;
            let ch2 = t0[oj].children@[k2] as int;
            let cn1 = t2[jn].children@[k1] as int;
            let cn2 = t2[jn].children@[k2] as int;
            assert(olds[cn1] == t0[oj].children@[k1]);
            assert(olds[cn2] == t0[oj].children@[k2]);
            assert(1 <= cn1 && 1 <= cn2);
            assert(t2[cn1].mov == t0[ch1].mov);
            assert(t2[cn2].mov == t0[ch2].mov);
            assert(t0[ch1].mov != t0[ch2].mov);
        };
    };

    assert forall|k: int| 0 <= k < t0[c].children@.len() implies t2[(#[trigger] t2[
    0].children@[k]) as int].mov == t0[t0[c].children@[k] as int].mov && t2[
    t2[0].children@[k] as int].player_just_moved == t0[
    t0[c].children@[k] as int].player_just_moved && t2[t2[0].children@[k] as int].statistics == t0[
    t0[c].children@[k] as int].statistics && t2[t2[0].children@[k] as int].children@.len() == t0[
    t0[c].children@[k] as int].children@.len() by {
        let ch = t0[c].children@[k] as int;
        let cn = t2[0].children@[k] as int;
        assert(olds[cn] == t0[c].children@[k]);
        assert(1 <= cn);
    };

    assert forall|jn: int| 1 <= jn < t2.len() implies exists|jo: int|
        1 <= jo < t0.len() && (#[trigger] t2[jn]).statistics == t0[jo].statistics by {
        assert(t2[jn].statistics == t0[olds[jn] as int].statistics);
        assert(1 <= olds[jn] < t0.len());
    };
}

/// Whether `v` contains the move `m`.
pub fn contains_move(v: &Vec<u64>, m: u64) -> (r: bool)
    ensures
        r == v@.contains(m),
{
    let mut j: usize = 0;
    while j < v.len()
        invariant
            j <= v@.len(),
            forall|p: int| 0 <= p < j ==> v@[p] != m,
        decreases v@.len() - j,
    {
        if v[j] == m {
            return true;
        }
        j += 1;
    }
    false
}

} // verus!
