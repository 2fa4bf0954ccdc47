// Tests of the flat-array board variant.

use twenty48::game::{
    add_block, can_down, can_left, can_right, can_up, execute_move, is_lost, move_left, move_right,
    move_up, move_down, try_move, Direction,
};
use twenty48::randsrc::random_from_seed;

#[test]
fn flat_move_left_merges() {
    let mut state: [u8; 16] = [0; 16];
    state[0] = 1;
    state[1] = 1;
    let score = move_left(&mut state);
    assert_eq!(state[0], 2);
    assert_eq!(state[1], 0);
    assert_eq!(score, 4);
}

#[test]
fn flat_move_right_merges() {
    let mut state: [u8; 16] = [0; 16];
    state[0] = 1;
    state[1] = 1;
    let score = move_right(&mut state);
    assert_eq!(state[3], 2);
    assert_eq!(state[0], 0);
    assert_eq!(score, 4);
}

#[test]
fn flat_move_up_merges() {
    let mut state: [u8; 16] = [0; 16];
    state[0] = 3;
    state[4] = 3;
    let score = move_up(&mut state);
    assert_eq!(state[0], 4);
    assert_eq!(state[4], 0);
    assert_eq!(score, 16);
}

#[test]
fn flat_move_down_merges() {
    let mut state: [u8; 16] = [0; 16];
    state[0] = 3;
    state[4] = 3;
    let score = move_down(&mut state);
    assert_eq!(state[12], 4);
    assert_eq!(state[0], 0);
    assert_eq!(score, 16);
}

#[test]
fn flat_legality_tests() {
    let mut state: [u8; 16] = [0; 16];
    state[0] = 1;
    // a single corner tile can move right and down only
    assert!(!can_left(&state));
    assert!(can_right(&state));
    assert!(!can_up(&state));
    assert!(can_down(&state));
    assert!(!is_lost(&state));
}

#[test]
fn flat_full_board_no_adjacent_equal_is_lost() {
    let state: [u8; 16] = [1, 2, 1, 2, 2, 1, 2, 1, 1, 2, 1, 2, 2, 1, 2, 1];
    assert!(is_lost(&state));
}

#[test]
fn flat_add_block_fills_one_cell() {
    let rand = random_from_seed(9);
    let mut state: [u8; 16] = [0; 16];
    add_block(&mut state, &rand);
    let filled: Vec<u8> = state.iter().copied().filter(|&v| v != 0).collect();
    assert_eq!(filled.len(), 1);
    assert!(filled[0] == 1 || filled[0] == 2);
}

#[test]
fn flat_add_block_full_board_unchanged() {
    let rand = random_from_seed(9);
    let full: [u8; 16] = [1, 2, 1, 2, 2, 1, 2, 1, 1, 2, 1, 2, 2, 1, 2, 1];
    let mut state = full;
    add_block(&mut state, &rand);
    assert_eq!(state, full);
}

#[test]
fn flat_try_move_rejects_illegal() {
    let rand = random_from_seed(1);
    let mut state: [u8; 16] = [0; 16];
    state[0] = 1;
    let before = state;
    let score = try_move(&mut state, Direction::Left, &rand);
    assert_eq!(score, 0);
    assert_eq!(state, before);
}

#[test]
fn flat_try_move_applies_legal_and_spawns() {
    let rand = random_from_seed(1);
    let mut state: [u8; 16] = [0; 16];
    state[0] = 1;
    state[1] = 1;
    let score = try_move(&mut state, Direction::Left, &rand);
    assert_eq!(score, 4);
    assert_eq!(state[0], 2);
    let filled = state.iter().filter(|&&v| v != 0).count();
    assert_eq!(filled, 2);
}

#[test]
fn table_lookup_agrees_with_direct_simulation() {
    // the packed engine answers from its precomputed table; the flat
    // variant simulates the slide directly; both are proven equal to the
    // same transition, so they must agree on every row pattern
    let fast = twenty48::fastgame::FastGame::new();
    for a in 0..6u32 {
        for b in 0..6u32 {
            for c in 0..6u32 {
                for d in 0..6u32 {
                    let row = (a << 15) | (b << 10) | (c << 5) | d;
                    let (packed, pscore) = fast.move_grid_left(&[row, 0, 0, 0]);
                    let mut flat: [u8; 16] = [0; 16];
                    flat[0] = a as u8;
                    flat[1] = b as u8;
                    flat[2] = c as u8;
                    flat[3] = d as u8;
                    let fscore = move_left(&mut flat);
                    let pf = twenty48::fastgame::FastGame::to_flat_array(packed);
                    assert_eq!(&pf[0..4], &flat[0..4]);
                    assert_eq!(pscore as i32, fscore);
                }
            }
        }
    }
}

#[test]
fn flat_execute_move_always_moves_and_spawns() {
    let rand = random_from_seed(2);
    let mut state: [u8; 16] = [0; 16];
    state[3] = 1;
    let score = execute_move(&mut state, Direction::Right, &rand);
    assert_eq!(score, 0);
    assert_eq!(state[3], 1);
    let filled = state.iter().filter(|&&v| v != 0).count();
    assert_eq!(filled, 2);
}
