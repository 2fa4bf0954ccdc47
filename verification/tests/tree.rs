// Tests of the Monte Carlo tree: growth, visit accounting, best
// direction, and rerooting.

use twenty48::fastgame::FastGame;
use twenty48::game::Direction;
use twenty48::mcts::{MonteCarloTree, RolloutPolicy};

fn pack(a: u32, b: u32, c: u32, d: u32) -> u32 {
    (a << 15) | (b << 10) | (c << 5) | d
}

#[test]
fn fresh_tree_diagnostics() {
    let fast = FastGame::new();
    let grid = [pack(1, 0, 0, 0), 0, 0, pack(0, 1, 0, 0)];
    let tree = MonteCarloTree::new(&fast, grid);
    let (node_count, iterations, inherited, move_number, visits) = tree.get_info();
    assert_eq!(node_count, 1);
    assert_eq!(iterations, 0);
    assert_eq!(inherited, 0);
    assert_eq!(move_number, 0);
    assert_eq!(visits, 0);
}

#[test]
fn growth_accounts_one_visit_per_iteration() {
    let fast = FastGame::new();
    let grid = [pack(1, 0, 0, 0), 0, 0, pack(0, 1, 0, 0)];
    let mut tree = MonteCarloTree::new(&fast, grid);
    tree.grow_tree(&fast, 10_000, 25);
    let (node_count, iterations, _inherited, _mn, visits) = tree.get_info();
    // exactly one backpropagation pass per completed iteration, and the
    // root started with zero inherited visits
    assert_eq!(iterations, visits);
    assert_eq!(iterations, 25);
    assert!(node_count > 1);
}

#[test]
fn best_direction_is_legal_after_growth() {
    let fast = FastGame::new();
    let grid = [pack(1, 0, 0, 0), 0, 0, pack(0, 1, 0, 0)];
    let mut tree = MonteCarloTree::new(&fast, grid);
    tree.grow_tree(&fast, 10_000, 40);
    let d = tree.get_best_direction();
    assert_ne!(d, Direction::Stay);
    assert!(fast.get_possible_directions(&grid).contains(&d));
}

#[test]
fn best_direction_without_children_is_stay() {
    let fast = FastGame::new();
    let grid = [pack(1, 0, 0, 0), 0, 0, 0];
    let tree = MonteCarloTree::new(&fast, grid);
    assert_eq!(tree.get_best_direction(), Direction::Stay);
}

#[test]
fn reroot_on_present_board_keeps_statistics() {
    let fast = FastGame::new();
    let grid = [pack(1, 0, 0, 0), 0, 0, pack(0, 1, 0, 0)];
    let mut tree = MonteCarloTree::new(&fast, grid);
    tree.grow_tree(&fast, 10_000, 30);
    let (_, _, _, _, visits_before) = tree.get_info();
    // the root itself is a move node holding this board, so its whole
    // tree is inherited
    tree.reroot(&fast, 0, grid);
    let (node_count, iterations, inherited_nodes, _mn, visits) = tree.get_info();
    assert_eq!(iterations, 0);
    assert_eq!(visits, visits_before);
    assert!(node_count >= 1);
    assert!(inherited_nodes >= 1);
}

#[test]
fn reroot_on_unseen_board_starts_fresh() {
    let fast = FastGame::new();
    let grid = [pack(1, 0, 0, 0), 0, 0, pack(0, 1, 0, 0)];
    let mut tree = MonteCarloTree::new(&fast, grid);
    tree.grow_tree(&fast, 10_000, 30);
    let unseen = [pack(9, 9, 9, 9), 0, 0, 0];
    tree.reroot(&fast, 12, unseen);
    let (node_count, iterations, _inherited, _mn, visits) = tree.get_info();
    assert_eq!(node_count, 1);
    assert_eq!(iterations, 0);
    assert_eq!(visits, 0);
}

#[test]
fn find_new_root_sees_only_move_nodes() {
    let fast = FastGame::new();
    let grid = [pack(1, 0, 0, 0), 0, 0, pack(0, 1, 0, 0)];
    let mut tree = MonteCarloTree::new(&fast, grid);
    tree.grow_tree(&fast, 10_000, 10);
    assert!(tree.find_new_root(grid).is_some());
    let unseen = [pack(9, 9, 9, 9), 0, 0, 0];
    assert!(tree.find_new_root(unseen).is_none());
}

#[test]
fn every_rollout_policy_grows() {
    let fast = FastGame::new();
    let grid = [pack(1, 0, 0, 0), 0, 0, pack(0, 1, 0, 0)];
    for policy in [
        RolloutPolicy::Uniform,
        RolloutPolicy::GreedyScore,
        RolloutPolicy::GreedyEmpty,
        RolloutPolicy::Lookahead,
    ] {
        let mut tree = MonteCarloTree::new(&fast, grid);
        tree.set_rollout_policy(policy);
        tree.grow_tree(&fast, 10_000, 5);
        let (_, iterations, _, _, visits) = tree.get_info();
        assert_eq!(iterations, 5);
        assert_eq!(visits, 5);
    }
}

#[test]
fn mcts_plays_real_turns_with_reroot() {
    let fast = FastGame::new();
    let rand = twenty48::randsrc::random_from_seed(5);
    let mut grid = [0u32; 4];
    grid = fast.add_random_block(grid, &rand);
    grid = fast.add_random_block(grid, &rand);
    let mut tree = MonteCarloTree::new(&fast, grid);
    for _ in 0..5 {
        tree.grow_tree(&fast, 10_000, 20);
        let d = tree.get_best_direction();
        if d == Direction::Stay {
            break;
        }
        let (g2, _s) = fast.play_move(grid, d, &rand);
        grid = g2;
        if fast.is_lost(&grid) {
            break;
        }
        tree.reroot(&fast, 0, grid);
        let (_, iterations, _, _, _) = tree.get_info();
        assert_eq!(iterations, 0);
    }
}
