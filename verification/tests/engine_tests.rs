//! End-to-end tests of the search engine on the degenerate ten-move game.

use ismcts::{IsmctsHandler, TenMoveGame};

fn number_of_children(n_threads: usize) {
    let game = TenMoveGame::starting();
    let mut ismcts = IsmctsHandler::new(game);
    ismcts.run_iterations(n_threads, 1000);

    let total_iterations = (1000 * n_threads) as u64;
    assert_eq!(10, ismcts.root_child_count());
    assert_eq!(total_iterations, ismcts.total_visits());

    for k in 0..ismcts.root_child_count() {
        assert_eq!(10, ismcts.root_grandchild_count(k));
    }
}

#[test]
pub fn number_of_children_1_thread() {
    number_of_children(1);
}

#[test]
pub fn number_of_children_4_threads() {
    number_of_children(4);
}

#[test]
fn visit_conservation_small_budget() {
    let mut ismcts = IsmctsHandler::new(TenMoveGame::starting());
    ismcts.run_iterations(3, 7);
    assert_eq!(21, ismcts.total_visits());
    ismcts.run_iterations(1, 9);
    assert_eq!(30, ismcts.total_visits());
}

#[test]
fn root_coverage_budget_below_branching() {
    // With fewer iterations than legal moves, each iteration tries a new one.
    let mut ismcts = IsmctsHandler::new(TenMoveGame::starting());
    ismcts.run_iterations(1, 4);
    assert_eq!(4, ismcts.root_child_count());
    ismcts.run_iterations(1, 100);
    assert_eq!(10, ismcts.root_child_count());
}

#[test]
fn root_advance_keeps_the_chosen_subtree() {
    let mut ismcts = IsmctsHandler::new(TenMoveGame::starting());
    ismcts.run_iterations(1, 1000);
    let mov = ismcts.best_move().expect("children exist after the run");
    ismcts.make_move(mov);
    // The new root state is the old one with the move applied.
    assert_eq!(1, ismcts.state().taken);
    assert_eq!(mov, ismcts.state().last);
    // The new root is the former child: its ten children are kept, every
    // sibling subtree is gone.
    assert_eq!(10, ismcts.root_child_count());
    assert_eq!(11, ismcts.tree.nodes.len());
}

#[test]
fn terminal_root_leaves_tree_empty() {
    let game = TenMoveGame { taken: 2, last: 3 };
    let mut ismcts = IsmctsHandler::new(game);
    ismcts.run_iterations(4, 100);
    assert_eq!(0, ismcts.root_child_count());
    assert_eq!(0, ismcts.total_visits());
    assert_eq!(0, ismcts.max_visits());
    assert!(ismcts.best_move().is_none());
}

#[test]
fn timed_run_makes_progress_and_stops() {
    let mut ismcts = IsmctsHandler::new(TenMoveGame::starting());
    ismcts.run_timed(4, std::time::Duration::from_millis(50));
    assert!(ismcts.total_visits() > 0);
    assert_eq!(10, ismcts.root_child_count());
}

#[test]
fn tree_invariants_hold_after_a_parallel_budget() {
    let mut ismcts = IsmctsHandler::new(TenMoveGame::starting());
    ismcts.run_iterations(4, 1000);
    let nodes = &ismcts.tree.nodes;
    for (i, node) in nodes.iter().enumerate() {
        if i == 0 {
            assert!(node.mov.is_none());
            assert!(node.parent.is_none());
            assert!(node.player_just_moved.is_none());
        } else {
            // Availability dominates visits, and every node was visited.
            assert!(node.statistics.availability_count >= node.statistics.visit_count);
            assert!(node.statistics.visit_count >= 1);
            // Walking parents terminates at the root: indices strictly drop.
            let mut walk = i;
            let mut steps: usize = 0;
            while walk != 0 {
                let p = nodes[walk].parent.expect("non-root nodes have parents");
                assert!(p < walk);
                walk = p;
                steps += 1;
                assert!(steps <= nodes.len());
            }
        }
        // Entering moves of children are pairwise distinct.
        for a in 0..node.children.len() {
            for b in 0..a {
                let ma = nodes[node.children[a]].mov;
                let mb = nodes[node.children[b]].mov;
                assert_ne!(ma, mb);
            }
        }
    }
}

#[test]
fn best_move_prefers_first_of_ties() {
    // A fresh handler with a tiny budget gives each tried move one visit;
    // the first tried child must win the tie.
    let mut ismcts = IsmctsHandler::new(TenMoveGame::starting());
    ismcts.run_iterations(1, 3);
    let first_child = ismcts.tree.nodes[0].children[0];
    let first_move = ismcts.tree.nodes[first_child].mov.unwrap();
    assert_eq!(Some(first_move), ismcts.best_move());
}

#[test]
fn debug_printers_render_the_root_children() {
    let mut ismcts = IsmctsHandler::new(TenMoveGame::starting());
    ismcts.run_iterations(1, 50);
    let report = ismcts.debug_children();
    assert!(report.starts_with("move "));
    assert_eq!(10, report.lines().count());
    assert!(report.contains(": visits "));
    // The report lists the children by non-decreasing visit count.
    let mut previous: u64 = 0;
    for line in report.lines() {
        let rest = line.split(": visits ").nth(1).expect("a visits field");
        let visits: u64 = rest.split(',').next().unwrap().parse().unwrap();
        assert!(previous <= visits);
        previous = visits;
    }
    let max_line = ismcts.debug_max_visits();
    assert!(max_line.starts_with("Max visit count: "));
    let trace = ismcts.debug_select();
    assert!(trace.starts_with("depth 0: move "));
}
