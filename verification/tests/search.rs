// Tests of the heuristic evaluation and the two search engines.

use twenty48::fastgame::FastGame;
use twenty48::game::Direction;
use twenty48::minimax::{
    evaluate, get_best_direction_expectimax, get_best_direction_minimax, minimax_search,
    EVAL_OFFSET,
};

fn pack(a: u32, b: u32, c: u32, d: u32) -> u32 {
    (a << 15) | (b << 10) | (c << 5) | d
}

#[test]
fn evaluate_empty_board() {
    // sixteen empty cells: bonus 160, influence 16 (2^0 each), no
    // smoothness differences
    let grid = [0u32; 4];
    assert_eq!(evaluate(grid), EVAL_OFFSET + 160 + 160);
}

#[test]
fn evaluate_single_tile() {
    // one tile of value 4: 15 empties, influence 15 + 4, six adjacent
    // differences of |4 - 1| around the corner tile... computed directly:
    // empties 15*10 = 150, influence (15 + 4)*10 = 190, smoothness: the
    // corner tile differs from two neighbours by 3 each
    let grid = [pack(2, 0, 0, 0), 0, 0, 0];
    assert_eq!(evaluate(grid), EVAL_OFFSET + 150 + 190 - 6);
}

#[test]
fn minimax_full_window_matches_depth_zero_evaluation() {
    // the pruned search agrees with the unpruned value: at depth zero on
    // a live board that value is exactly the heuristic
    let fast = FastGame::new();
    let grid = [pack(1, 0, 2, 0), 0, pack(3, 0, 0, 1), 0];
    assert_eq!(minimax_search(&fast, grid, 0, true), evaluate(grid));
    assert_eq!(minimax_search(&fast, grid, 0, false), evaluate(grid));
}

#[test]
fn minimax_lost_board_scores_zero() {
    let fast = FastGame::new();
    let grid = [
        pack(1, 2, 1, 2),
        pack(2, 1, 2, 1),
        pack(1, 2, 1, 2),
        pack(2, 1, 2, 1),
    ];
    assert_eq!(minimax_search(&fast, grid, 3, true), 0);
}

#[test]
fn minimax_search_is_deterministic() {
    let fast = FastGame::new();
    let grid = [pack(1, 1, 0, 0), 0, pack(2, 0, 0, 2), 0];
    let a = minimax_search(&fast, grid, 2, true);
    let b = minimax_search(&fast, grid, 2, true);
    assert_eq!(a, b);
}

#[test]
fn best_direction_minimax_on_lost_board_is_stay() {
    let fast = FastGame::new();
    let grid = [
        pack(1, 2, 1, 2),
        pack(2, 1, 2, 1),
        pack(1, 2, 1, 2),
        pack(2, 1, 2, 1),
    ];
    assert_eq!(get_best_direction_minimax(&fast, grid, 2), Direction::Stay);
}

#[test]
fn best_direction_expectimax_on_lost_board_is_stay() {
    let fast = FastGame::new();
    let grid = [
        pack(1, 2, 1, 2),
        pack(2, 1, 2, 1),
        pack(1, 2, 1, 2),
        pack(2, 1, 2, 1),
    ];
    assert_eq!(get_best_direction_expectimax(&fast, grid, 2), Direction::Stay);
}

#[test]
fn best_direction_is_legal() {
    let fast = FastGame::new();
    let grid = [pack(1, 0, 0, 0), 0, 0, pack(0, 0, 2, 0)];
    let dirs = fast.get_possible_directions(&grid);
    let dm = get_best_direction_minimax(&fast, grid, 2);
    let de = get_best_direction_expectimax(&fast, grid, 2);
    assert!(dirs.contains(&dm));
    assert!(dirs.contains(&de));
}

#[test]
fn searches_play_a_short_game() {
    let fast = FastGame::new();
    let rand = twenty48::randsrc::random_from_seed(11);
    let mut grid = [0u32; 4];
    grid = fast.add_random_block(grid, &rand);
    grid = fast.add_random_block(grid, &rand);
    let mut score = 0u64;
    for _ in 0..20 {
        let d = get_best_direction_expectimax(&fast, grid, 2);
        if d == Direction::Stay {
            break;
        }
        let (g2, s) = fast.play_move(grid, d, &rand);
        grid = g2;
        score += s as u64;
        if fast.is_lost(&grid) {
            break;
        }
    }
    // twenty expectimax turns from a fresh board always merge something
    assert!(score > 0);
}

#[test]
fn minimax_tie_breaks_in_enumeration_order() {
    // a fully symmetric board: every direction scores the same at depth
    // zero, so the first legal direction in the fixed order (left) wins
    let fast = FastGame::new();
    let grid = [0, pack(0, 1, 1, 0), pack(0, 1, 1, 0), 0];
    let dirs = fast.get_possible_directions(&grid);
    assert_eq!(dirs.len(), 4);
    assert_eq!(get_best_direction_minimax(&fast, grid, 0), dirs[0]);
    assert_eq!(get_best_direction_expectimax(&fast, grid, 0), dirs[0]);
}
