// Tests of the packed move-table engine: row examples, symmetry,
// legality, score conservation, and the board operations.

use twenty48::fastgame::FastGame;
use twenty48::game::Direction;

fn pack(a: u32, b: u32, c: u32, d: u32) -> u32 {
    (a << 15) | (b << 10) | (c << 5) | d
}

fn unpack(r: u32) -> [u32; 4] {
    [(r >> 15) & 0x1F, (r >> 10) & 0x1F, (r >> 5) & 0x1F, r & 0x1F]
}

#[test]
fn row_example_two_ones() {
    let fast = FastGame::new();
    let grid = [pack(1, 1, 0, 0), 0, 0, 0];
    let (out, score) = fast.move_grid_left(&grid);
    assert_eq!(unpack(out[0]), [2, 0, 0, 0]);
    assert_eq!(score, 4);
}

#[test]
fn row_example_three_ones_no_cascade() {
    let fast = FastGame::new();
    let grid = [pack(1, 1, 1, 0), 0, 0, 0];
    let (out, score) = fast.move_grid_left(&grid);
    assert_eq!(unpack(out[0]), [2, 1, 0, 0]);
    assert_eq!(score, 4);
}

#[test]
fn row_example_inner_pair() {
    let fast = FastGame::new();
    let grid = [pack(2, 1, 1, 2), 0, 0, 0];
    let (out, score) = fast.move_grid_left(&grid);
    assert_eq!(unpack(out[0]), [2, 2, 2, 0]);
    assert_eq!(score, 4);
}

#[test]
fn right_is_reversed_left() {
    let fast = FastGame::new();
    // every row pattern of exponents drawn from a small alphabet
    for a in 0..4u32 {
        for b in 0..4u32 {
            for c in 0..4u32 {
                for d in 0..4u32 {
                    let row = pack(a, b, c, d);
                    let rev = pack(d, c, b, a);
                    let (right, rs) = fast.move_grid_right(&[row, 0, 0, 0]);
                    let (left, ls) = fast.move_grid_left(&[rev, 0, 0, 0]);
                    let lf = unpack(left[0]);
                    assert_eq!(unpack(right[0]), [lf[3], lf[2], lf[1], lf[0]]);
                    assert_eq!(rs, ls);
                }
            }
        }
    }
}

#[test]
fn up_is_transposed_left() {
    let fast = FastGame::new();
    // column 0 (display) holds 1,1,0,0 top to bottom
    let grid = [pack(1, 0, 0, 0), pack(1, 0, 0, 0), 0, 0];
    let (out, score) = fast.move_grid_up(&grid);
    assert_eq!(unpack(out[0]), [2, 0, 0, 0]);
    assert_eq!(out[1], 0);
    assert_eq!(out[2], 0);
    assert_eq!(out[3], 0);
    assert_eq!(score, 4);
}

#[test]
fn down_is_transposed_right() {
    let fast = FastGame::new();
    let grid = [pack(1, 0, 0, 0), pack(1, 0, 0, 0), 0, 0];
    let (out, score) = fast.move_grid_down(&grid);
    assert_eq!(out[0], 0);
    assert_eq!(out[1], 0);
    assert_eq!(out[2], 0);
    assert_eq!(unpack(out[3]), [2, 0, 0, 0]);
    assert_eq!(score, 4);
}

#[test]
fn possible_directions_match_changes() {
    let fast = FastGame::new();
    // a single tile in the top-left corner: only right and down change it
    let grid = [pack(1, 0, 0, 0), 0, 0, 0];
    let dirs = fast.get_possible_directions(&grid);
    assert!(dirs.contains(&Direction::Right));
    assert!(dirs.contains(&Direction::Down));
    assert!(!dirs.contains(&Direction::Left));
    assert!(!dirs.contains(&Direction::Up));
    for d in [Direction::Left, Direction::Right, Direction::Up, Direction::Down] {
        let (out, _) = fast.make_move(&grid, &d);
        assert_eq!(dirs.contains(&d), out != grid);
    }
}

#[test]
fn full_board_no_adjacent_equal_is_lost() {
    let fast = FastGame::new();
    let grid = [
        pack(1, 2, 1, 2),
        pack(2, 1, 2, 1),
        pack(1, 2, 1, 2),
        pack(2, 1, 2, 1),
    ];
    assert!(fast.is_lost(&grid));
    assert_eq!(fast.get_possible_directions(&grid).len(), 0);
}

#[test]
fn empty_board_two_spawns_all_directions_score_zero() {
    let fast = FastGame::new();
    let grid = [0u32; 4];
    // two low tiles at distinct, non-adjacent cells
    let grid = fast.place_block(grid, (0, 0), 1);
    let grid = fast.place_block(grid, (2, 2), 1);
    let dirs = fast.get_possible_directions(&grid);
    assert_eq!(dirs.len(), 4);
    for d in [Direction::Left, Direction::Right, Direction::Up, Direction::Down] {
        assert!(dirs.contains(&d));
        let (out, score) = fast.make_move(&grid, &d);
        assert_ne!(out, grid);
        assert_eq!(score, 0);
    }
}

#[test]
fn stay_is_a_no_op() {
    let fast = FastGame::new();
    let grid = [pack(1, 2, 3, 4), 0, 0, 0];
    let (out, score) = fast.make_move(&grid, &Direction::Stay);
    assert_eq!(out, grid);
    assert_eq!(score, 0);
}

#[test]
fn empty_list_counts_and_place_block_fills() {
    let fast = FastGame::new();
    let grid = [0u32; 4];
    assert_eq!(FastGame::empty_list(&grid).len(), 16);
    let grid = fast.place_block(grid, (1, 3), 2);
    let empties = FastGame::empty_list(&grid);
    assert_eq!(empties.len(), 15);
    assert!(!empties.contains(&(1usize, 3usize)));
    let flat = FastGame::to_flat_array(grid);
    // field 3 of row 1 counts from the low bits: display column 0
    assert_eq!(flat[4], 2);
}

#[test]
fn to_flat_array_layout() {
    let grid = [pack(1, 2, 3, 4), pack(5, 6, 7, 8), 0, 0];
    let flat = FastGame::to_flat_array(grid);
    assert_eq!(&flat[0..4], &[1, 2, 3, 4]);
    assert_eq!(&flat[4..8], &[5, 6, 7, 8]);
    assert_eq!(&flat[8..16], &[0; 8]);
}

#[test]
fn moves_preserve_total_tile_value() {
    let fast = FastGame::new();
    let grid = [pack(1, 1, 2, 2), pack(3, 0, 3, 1), pack(0, 2, 0, 2), pack(1, 0, 0, 1)];
    let before = FastGame::grid_sum_x(&grid);
    for d in [Direction::Left, Direction::Right, Direction::Up, Direction::Down] {
        let (out, _) = fast.make_move(&grid, &d);
        assert_eq!(FastGame::grid_sum_x(&out), before);
    }
}

#[test]
fn merge_scores_sum_per_row() {
    let fast = FastGame::new();
    // rows merging independently: scores add up
    let g1 = [pack(1, 1, 0, 0), 0, 0, 0];
    let g2 = [0, pack(2, 2, 0, 0), 0, 0];
    let g12 = [pack(1, 1, 0, 0), pack(2, 2, 0, 0), 0, 0];
    let (_, s1) = fast.move_grid_left(&g1);
    let (_, s2) = fast.move_grid_left(&g2);
    let (_, s12) = fast.move_grid_left(&g12);
    assert_eq!(s12, s1 + s2);
    assert_eq!(s1, 4);
    assert_eq!(s2, 8);
}

#[test]
fn play_move_spawns_after_legal_move() {
    let fast = FastGame::new();
    let rand = twenty48::randsrc::random_from_seed(7);
    let grid = [pack(1, 0, 0, 0), 0, 0, 0];
    let (out, score) = fast.play_move(grid, Direction::Right, &rand);
    assert_eq!(score, 0);
    // the moved tile sits at the right edge, and exactly one tile spawned
    assert_eq!(FastGame::empty_list(&out).len(), 14);
    let (same, s2) = fast.play_move(grid, Direction::Left, &rand);
    assert_eq!(same, grid);
    assert_eq!(s2, 0);
}

#[test]
fn add_random_block_fills_one_cell() {
    let fast = FastGame::new();
    let rand = twenty48::randsrc::random_from_seed(3);
    let grid = [0u32; 4];
    let out = fast.add_random_block(grid, &rand);
    assert_eq!(FastGame::empty_list(&out).len(), 15);
    let flat = FastGame::to_flat_array(out);
    let spawned: Vec<u8> = flat.iter().copied().filter(|&v| v != 0).collect();
    assert_eq!(spawned.len(), 1);
    assert!(spawned[0] == 1 || spawned[0] == 2);
}

#[test]
fn add_random_block_forces_spawn_on_last_empty_cell() {
    let fast = FastGame::new();
    let rand = twenty48::randsrc::random_from_seed(4);
    // fifteen tiles, a single empty cell: the spawn must land there
    let grid = [
        pack(1, 2, 1, 2),
        pack(2, 1, 2, 1),
        pack(1, 2, 1, 2),
        pack(2, 1, 2, 0),
    ];
    assert_eq!(FastGame::empty_list(&grid).len(), 1);
    let out = fast.add_random_block(grid, &rand);
    assert_eq!(FastGame::empty_list(&out).len(), 0);
    let flat = FastGame::to_flat_array(out);
    assert!(flat[15] == 1 || flat[15] == 2);
}

#[test]
fn empty_list_emits_ascending_positions() {
    let grid = [pack(1, 0, 1, 0), 0, pack(0, 1, 0, 1), 0];
    let empties = FastGame::empty_list(&grid);
    for w in empties.windows(2) {
        assert!(w[0].0 * 4 + w[0].1 < w[1].0 * 4 + w[1].1);
    }
}
