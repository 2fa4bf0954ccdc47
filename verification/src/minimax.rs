//! Alpha-beta minimax and expectimax search over the move-table engine:
//! a two-layer alternating game tree of player moves and chance spawns,
//! with a per-call transposition table and a heuristic leaf evaluation.
//!
//! All values are nonnegative fixed-point integers: the heuristic is
//! shifted by `EVAL_OFFSET`, a lost board scores 0 (below every finite
//! heuristic value), and `INF_VALUE` stands above every reachable value.

use vstd::prelude::*;
use std::collections::HashMap;
use crate::game::Direction;
use crate::fastgame::{
    FastGame, valid_grid, grid_after, changes, lost, possible_dirs, grid_sum, cell_empty,
    place_spec, lemma_possible_dirs_iff, lemma_make_move_keeps_sum,
};
use crate::rows::{row_field, tile_val, lemma_row_field_small};
use vstd::arithmetic::power2::{pow2, lemma2_to64, lemma_pow2_strictly_increases};
use vstd::bits::lemma_u64_shl_is_mul;

verus! {

/// Shift added to every heuristic value so that all values are positive
/// and a lost board's 0 lies strictly below them.
pub const EVAL_OFFSET: u64 = 0x1000000000;

/// Upper bound on every heuristic value.
pub const EVAL_MAX: u64 = 0x8000000000;

/// Stands above every reachable search value; the neutral element of the
/// chance layer's minimization.
pub const INF_VALUE: u64 = 0x10000000000;

/// The exponent stored in cell `k` (row-major, leftmost first).
pub open spec fn cell_exp(g: Seq<u32>, k: int) -> u32 {
    row_field(g[k / 4], k % 4)
}

/// Number of empty cells at positions `k..16`.
pub open spec fn empty_cells_from(g: Seq<u32>, k: int) -> int
    decreases 16 - k,
{
    if k < 0 || k >= 16 {
        0
    } else {
        (if cell_exp(g, k) == 0 {
            1int
        } else {
            0int
        }) + empty_cells_from(g, k + 1)
    }
}

/// Sum of 2^e over the cells at positions `k..16`; an empty cell counts
/// as 2^0.
pub open spec fn influence_from(g: Seq<u32>, k: int) -> int
    decreases 16 - k,
{
    if k < 0 || k >= 16 {
        0
    } else {
        pow2(cell_exp(g, k) as nat) + influence_from(g, k + 1)
    }
}

/// Absolute difference of the two tile values 2^a and 2^b.
pub open spec fn sdiff(a: u32, b: u32) -> int {
    if pow2(a as nat) >= pow2(b as nat) {
        pow2(a as nat) - pow2(b as nat)
    } else {
        pow2(b as nat) - pow2(a as nat)
    }
}

/// Smoothness along rows: summed tile-value differences of the
/// horizontally adjacent pairs `k..12` (pair `k` joins columns `k % 3`
/// and `k % 3 + 1` of row `k / 3`).
pub open spec fn smooth_h_from(g: Seq<u32>, k: int) -> int
    decreases 12 - k,
{
    if k < 0 || k >= 12 {
        0
    } else {
        sdiff(cell_exp(g, 4 * (k / 3) + (k % 3)), cell_exp(g, 4 * (k / 3) + (k % 3) + 1))
            + smooth_h_from(g, k + 1)
    }
}

/// Smoothness along columns: summed tile-value differences of the
/// vertically adjacent pairs `k..12` (pair `k` joins rows `k % 3` and
/// `k % 3 + 1` of column `k / 3`).
pub open spec fn smooth_v_from(g: Seq<u32>, k: int) -> int
    decreases 12 - k,
{
    if k < 0 || k >= 12 {
        0
    } else {
        sdiff(cell_exp(g, 4 * (k % 3) + (k / 3)), cell_exp(g, 4 * (k % 3) + 4 + (k / 3)))
            + smooth_v_from(g, k + 1)
    }
}

/// The heuristic leaf evaluation: empty-cell bonus plus tile-value
/// influence minus smoothness, shifted by `EVAL_OFFSET` to stay positive.
pub open spec fn eval_spec(g: Seq<u32>) -> int {
    EVAL_OFFSET + 10 * empty_cells_from(g, 0) + 10 * influence_from(g, 0) - smooth_h_from(g, 0)
        - smooth_v_from(g, 0)
}

/// Every cell's exponent is below 32, so its tile value is below 2^31.
proof fn lemma_cell_exp_small(g: Seq<u32>, k: int)
    requires
        0 <= k < 16,
    ensures
        cell_exp(g, k) < 32,
        pow2(cell_exp(g, k) as nat) <= 0x80000000,
{
    lemma_row_field_small(g[k / 4], k % 4);
    lemma2_to64();
    vstd::arithmetic::power2::lemma2_to64_rest();
    if cell_exp(g, k) < 31 {
        lemma_pow2_strictly_increases(cell_exp(g, k) as nat, 31);
    }
}

/// The empty-cell count over a suffix lies between 0 and the number of
/// cells.
proof fn lemma_empty_cells_bounds(g: Seq<u32>, k: int)
    ensures
        0 <= empty_cells_from(g, k),
        0 <= k <= 16 ==> empty_cells_from(g, k) <= 16 - k,
        empty_cells_from(g, k) <= 16,
    decreases 16 - k,
{
    if 0 <= k < 16 {
        lemma_empty_cells_bounds(g, k + 1);
    }
}

/// The influence over a suffix lies between 0 and the cell count times
/// the largest tile value.
proof fn lemma_influence_bounds(g: Seq<u32>, k: int)
    ensures
        0 <= influence_from(g, k),
        influence_from(g, k) <= 16 * 0x80000000,
        0 <= k <= 16 ==> influence_from(g, k) <= (16 - k) * 0x80000000,
    decreases 16 - k,
{
    if k < 0 || k >= 16 {
    } else {
        lemma_influence_bounds(g, k + 1);
        lemma_cell_exp_small(g, k);
        vstd::arithmetic::power2::lemma_pow2_pos(cell_exp(g, k) as nat);
    }
}

/// Each smoothness term lies between 0 and the largest tile value.
proof fn lemma_sdiff_bounds(g: Seq<u32>, a: int, b: int)
    requires
        0 <= a < 16,
        0 <= b < 16,
    ensures
        0 <= sdiff(cell_exp(g, a), cell_exp(g, b)) <= 0x80000000,
{
    lemma_cell_exp_small(g, a);
    lemma_cell_exp_small(g, b);
    vstd::arithmetic::power2::lemma_pow2_pos(cell_exp(g, a) as nat);
    vstd::arithmetic::power2::lemma_pow2_pos(cell_exp(g, b) as nat);
}

/// Row smoothness over a suffix lies between 0 and the pair count times
/// the largest tile value.
proof fn lemma_smooth_h_bounds(g: Seq<u32>, k: int)
    ensures
        0 <= smooth_h_from(g, k),
        smooth_h_from(g, k) <= 12 * 0x80000000,
        0 <= k <= 12 ==> smooth_h_from(g, k) <= (12 - k) * 0x80000000,
    decreases 12 - k,
{
    if k < 0 || k >= 12 {
    } else {
        lemma_smooth_h_bounds(g, k + 1);
        lemma_sdiff_bounds(g, 4 * (k / 3) + (k % 3), 4 * (k / 3) + (k % 3) + 1);
    }
}

/// Column smoothness over a suffix lies between 0 and the pair count
/// times the largest tile value.
proof fn lemma_smooth_v_bounds(g: Seq<u32>, k: int)
    ensures
        0 <= smooth_v_from(g, k),
        smooth_v_from(g, k) <= 12 * 0x80000000,
        0 <= k <= 12 ==> smooth_v_from(g, k) <= (12 - k) * 0x80000000,
    decreases 12 - k,
{
    if k < 0 || k >= 12 {
    } else {
        lemma_smooth_v_bounds(g, k + 1);
        lemma_sdiff_bounds(g, 4 * (k % 3) + (k / 3), 4 * (k % 3) + 4 + (k / 3));
    }
}

/// The heuristic value of any board is positive and bounded.
pub proof fn lemma_eval_bounds(g: Seq<u32>)
    ensures
        1 <= eval_spec(g) <= EVAL_MAX,
{
    lemma_empty_cells_bounds(g, 0);
    lemma_influence_bounds(g, 0);
    lemma_smooth_h_bounds(g, 0);
    lemma_smooth_v_bounds(g, 0);
}

/// 2^e as a 64-bit value, for any stored exponent.
fn exp2_x(e: u32) -> (r: u64)
    requires
        e < 32,
    ensures
        r as int == pow2(e as nat),
        1 <= r <= 0x80000000,
{
    proof {
        lemma2_to64();
        vstd::arithmetic::power2::lemma2_to64_rest();
        if e < 31 {
            lemma_pow2_strictly_increases(e as nat, 31);
        }
        assert(1u64 * pow2(e as nat) <= u64::MAX);
        lemma_u64_shl_is_mul(1u64, e as u64);
    }
    1u64 << (e as u64)
}

/// The heuristic leaf evaluation, computed on the flattened board:
/// 10 per empty cell, 10 per unit of tile-value influence, minus the
/// summed tile-value differences of adjacent cells along rows and
/// columns, all shifted by `EVAL_OFFSET`.
pub fn evaluate(grid: [u32; 4]) -> (r: u64)
    ensures
        r as int == eval_spec(grid@),
        1 <= r <= EVAL_MAX,
{
    let flat = FastGame::to_flat_array(grid);
    proof {
        assert forall|k: int| 0 <= k < 16 implies #[trigger] flat@[k] as u32 == cell_exp(
            grid@,
            k,
        ) by {}
        assert forall|k: int| 0 <= k < 16 implies #[trigger] flat@[k] < 32 by {
            lemma_cell_exp_small(grid@, k);
        }
        lemma_empty_cells_bounds(grid@, 0);
        lemma_influence_bounds(grid@, 0);
        lemma_smooth_h_bounds(grid@, 0);
        lemma_smooth_v_bounds(grid@, 0);
    }
    let mut ec: u64 = 0;
    let mut k: usize = 0;
    while k < 16
        invariant
            k <= 16,
            flat@.len() == 16,
            forall|kk: int| 0 <= kk < 16 ==> #[trigger] flat@[kk] as u32 == cell_exp(grid@, kk),
            forall|kk: int| 0 <= kk < 16 ==> #[trigger] flat@[kk] < 32,
            ec as int + empty_cells_from(grid@, k as int) == empty_cells_from(grid@, 0),
            ec <= k,
        decreases 16 - k,
    {
        proof {
            lemma_empty_cells_bounds(grid@, k as int + 1);
        }
        if flat[k] == 0 {
            ec = ec + 1;
        }
        k = k + 1;
    }
    let mut infl: u64 = 0;
    let mut k: usize = 0;
    while k < 16
        invariant
            k <= 16,
            flat@.len() == 16,
            forall|kk: int| 0 <= kk < 16 ==> #[trigger] flat@[kk] as u32 == cell_exp(grid@, kk),
            forall|kk: int| 0 <= kk < 16 ==> #[trigger] flat@[kk] < 32,
            infl as int + influence_from(grid@, k as int) == influence_from(grid@, 0),
            infl as int <= 16 * 0x80000000,
        decreases 16 - k,
    {
        proof {
            lemma_influence_bounds(grid@, k as int);
            lemma_influence_bounds(grid@, k as int + 1);
            lemma_influence_bounds(grid@, 0);
        }
        let v = exp2_x(flat[k] as u32);
        infl = infl + v;
        k = k + 1;
    }
    let mut sh: u64 = 0;
    let mut k: usize = 0;
    while k < 12
        invariant
            k <= 12,
            flat@.len() == 16,
            forall|kk: int| 0 <= kk < 16 ==> #[trigger] flat@[kk] as u32 == cell_exp(grid@, kk),
            forall|kk: int| 0 <= kk < 16 ==> #[trigger] flat@[kk] < 32,
            sh as int + smooth_h_from(grid@, k as int) == smooth_h_from(grid@, 0),
            sh as int <= 12 * 0x80000000,
        decreases 12 - k,
    {
        proof {
            lemma_smooth_h_bounds(grid@, k as int);
            lemma_smooth_h_bounds(grid@, k as int + 1);
            lemma_smooth_h_bounds(grid@, 0);
            lemma_sdiff_bounds(grid@, 4 * ((k as int) / 3) + ((k as int) % 3), 4 * ((k as int) / 3)
                + ((k as int) % 3) + 1);
        }
        let a = flat[4 * (k / 3) + (k % 3)];
        let b = flat[4 * (k / 3) + (k % 3) + 1];
        let pa = exp2_x(a as u32);
        let pb = exp2_x(b as u32);
        let d = if pa >= pb {
            pa - pb
        } else {
            pb - pa
        };
        sh = sh + d;
        k = k + 1;
    }
    let mut sv: u64 = 0;
    let mut k: usize = 0;
    while k < 12
        invariant
            k <= 12,
            flat@.len() == 16,
            forall|kk: int| 0 <= kk < 16 ==> #[trigger] flat@[kk] as u32 == cell_exp(grid@, kk),
            forall|kk: int| 0 <= kk < 16 ==> #[trigger] flat@[kk] < 32,
            sv as int + smooth_v_from(grid@, k as int) == smooth_v_from(grid@, 0),
            sv as int <= 12 * 0x80000000,
        decreases 12 - k,
    {
        proof {
            lemma_smooth_v_bounds(grid@, k as int);
            lemma_smooth_v_bounds(grid@, k as int + 1);
            lemma_smooth_v_bounds(grid@, 0);
            lemma_sdiff_bounds(grid@, 4 * ((k as int) % 3) + ((k as int) / 3), 4 * ((k as int) % 3)
                + 4 + ((k as int) / 3));
        }
        let a = flat[4 * (k % 3) + (k / 3)];
        let b = flat[4 * (k % 3) + 4 + (k / 3)];
        let pa = exp2_x(a as u32);
        let pb = exp2_x(b as u32);
        let d = if pa >= pb {
            pa - pb
        } else {
            pb - pa
        };
        sv = sv + d;
        k = k + 1;
    }
    let t = EVAL_OFFSET + 10 * ec + 10 * infl;
    t - (sh + sv)
}

/// The larger of two values.
pub open spec fn max2(a: int, b: int) -> int {
    if a >= b {
        a
    } else {
        b
    }
}

/// The smaller of two values.
pub open spec fn min2(a: int, b: int) -> int {
    if a <= b {
        a
    } else {
        b
    }
}

/// The board with a tile of exponent `v` in cell `k` (row-major display
/// position).
pub open spec fn place_cell(g: Seq<u32>, k: int, v: u32) -> Seq<u32> {
    place_spec(g, k / 4, 3 - (k % 4), v)
}

/// The expectimax value: a lost board is 0, a leaf is its heuristic
/// value, the player maximizes over the directions that change the board
/// (an illegal direction contributes the minimum 0), and the chance layer
/// is the probability-weighted expectation over all spawns, nine weights
/// for a low tile and one for a high tile per empty cell, divided by ten
/// times the number of empty cells (integer division).
pub open spec fn expectimax_value(g: Seq<u32>, depth: nat, player: bool) -> int
    decreases depth, 1int, 0int,
{
    if lost(g) {
        0
    } else if depth == 0 {
        eval_spec(g)
    } else if player {
        let cl = if changes(g, Direction::Left) {
            expectimax_value(grid_after(g, Direction::Left), (depth - 1) as nat, false)
        } else {
            0
        };
        let cd = if changes(g, Direction::Down) {
            expectimax_value(grid_after(g, Direction::Down), (depth - 1) as nat, false)
        } else {
            0
        };
        let cr = if changes(g, Direction::Right) {
            expectimax_value(grid_after(g, Direction::Right), (depth - 1) as nat, false)
        } else {
            0
        };
        let cu = if changes(g, Direction::Up) {
            expectimax_value(grid_after(g, Direction::Up), (depth - 1) as nat, false)
        } else {
            0
        };
        max2(max2(cl, cd), max2(cr, cu))
    } else {
        let n = empty_cells_from(g, 0);
        if n == 0 {
            eval_spec(g)
        } else {
            exp_chance_sum(g, depth, 0) / (10 * n)
        }
    }
}

/// The weighted sum of spawn outcomes over the cells `k..16`: an empty
/// cell contributes nine times the value after a low spawn plus the value
/// after a high spawn.
pub open spec fn exp_chance_sum(g: Seq<u32>, depth: nat, k: int) -> int
    decreases depth, 0int, 16 - k,
{
    if depth == 0 || k < 0 || k >= 16 {
        0
    } else {
        (if cell_exp(g, k) == 0 {
            9 * expectimax_value(place_cell(g, k, 1), (depth - 1) as nat, true)
                + expectimax_value(place_cell(g, k, 2), (depth - 1) as nat, true)
        } else {
            0
        }) + exp_chance_sum(g, depth, k + 1)
    }
}

/// Every expectimax value lies between 0 and the heuristic bound.
pub proof fn lemma_expectimax_bounds(g: Seq<u32>, depth: nat, player: bool)
    ensures
        0 <= expectimax_value(g, depth, player) <= EVAL_MAX,
    decreases depth, 1int, 0int,
{
    if lost(g) {
    } else if depth == 0 {
        lemma_eval_bounds(g);
    } else if player {
        if changes(g, Direction::Left) {
            lemma_expectimax_bounds(grid_after(g, Direction::Left), (depth - 1) as nat, false);
        }
        if changes(g, Direction::Down) {
            lemma_expectimax_bounds(grid_after(g, Direction::Down), (depth - 1) as nat, false);
        }
        if changes(g, Direction::Right) {
            lemma_expectimax_bounds(grid_after(g, Direction::Right), (depth - 1) as nat, false);
        }
        if changes(g, Direction::Up) {
            lemma_expectimax_bounds(grid_after(g, Direction::Up), (depth - 1) as nat, false);
        }
    } else {
        let n = empty_cells_from(g, 0);
        lemma_empty_cells_bounds(g, 0);
        if n == 0 {
            lemma_eval_bounds(g);
        } else {
            lemma_exp_chance_bounds(g, depth, 0);
            let s = exp_chance_sum(g, depth, 0);
            vstd::arithmetic::div_mod::lemma_div_is_ordered(0, s, 10 * n);
            vstd::arithmetic::div_mod::lemma_div_is_ordered(s, (EVAL_MAX as int) * (10 * n), 10 * n);
            vstd::arithmetic::div_mod::lemma_div_by_multiple(EVAL_MAX as int, 10 * n);
            assert(10 * (EVAL_MAX as int) * n == (EVAL_MAX as int) * (10 * n))
                by (nonlinear_arith);
        }
    }
}

/// The weighted spawn sum over a suffix lies between 0 and ten times the
/// heuristic bound per empty cell.
pub proof fn lemma_exp_chance_bounds(g: Seq<u32>, depth: nat, k: int)
    ensures
        0 <= exp_chance_sum(g, depth, k) <= 10 * (EVAL_MAX as int) * empty_cells_from(g, k),
        exp_chance_sum(g, depth, k) <= 160 * (EVAL_MAX as int),
        0 <= k <= 16 ==> exp_chance_sum(g, depth, k) <= (16 - k) * 10 * (EVAL_MAX as int),
    decreases depth, 0int, 16 - k,
{
    lemma_empty_cells_bounds(g, k);
    if depth == 0 || k < 0 || k >= 16 {
    } else {
        lemma_exp_chance_bounds(g, depth, k + 1);
        lemma_empty_cells_bounds(g, k + 1);
        if cell_exp(g, k) == 0 {
            lemma_expectimax_bounds(place_cell(g, k, 1), (depth - 1) as nat, true);
            lemma_expectimax_bounds(place_cell(g, k, 2), (depth - 1) as nat, true);
            assert(10 * (EVAL_MAX as int) * (empty_cells_from(g, k + 1) + 1) == 10 * (
            EVAL_MAX as int) * empty_cells_from(g, k + 1) + 10 * (EVAL_MAX as int))
                by (nonlinear_arith);
        }
    }
}

/// The minimax value: as expectimax, but the chance layer is adversarial,
/// minimizing over every possible spawn — a deliberately pessimistic
/// worst-case baseline. A chance layer with no empty cell is `INF_VALUE`,
/// the neutral element of minimization.
pub open spec fn minimax_value(g: Seq<u32>, depth: nat, player: bool) -> int
    decreases depth, 1int, 0int,
{
    if lost(g) {
        0
    } else if depth == 0 {
        eval_spec(g)
    } else if player {
        let cl = if changes(g, Direction::Left) {
            minimax_value(grid_after(g, Direction::Left), (depth - 1) as nat, false)
        } else {
            0
        };
        let cd = if changes(g, Direction::Down) {
            minimax_value(grid_after(g, Direction::Down), (depth - 1) as nat, false)
        } else {
            0
        };
        let cr = if changes(g, Direction::Right) {
            minimax_value(grid_after(g, Direction::Right), (depth - 1) as nat, false)
        } else {
            0
        };
        let cu = if changes(g, Direction::Up) {
            minimax_value(grid_after(g, Direction::Up), (depth - 1) as nat, false)
        } else {
            0
        };
        max2(max2(cl, cd), max2(cr, cu))
    } else {
        mm_chance_min(g, depth, 0)
    }
}

/// The adversarial spawn minimum over the cells `k..16`: each empty cell
/// offers a low and a high spawn, and the adversary takes the worst for
/// the player.
pub open spec fn mm_chance_min(g: Seq<u32>, depth: nat, k: int) -> int
    decreases depth, 0int, 16 - k,
{
    if depth == 0 || k < 0 || k >= 16 {
        INF_VALUE as int
    } else if cell_exp(g, k) == 0 {
        min2(
            min2(
                minimax_value(place_cell(g, k, 1), (depth - 1) as nat, true),
                minimax_value(place_cell(g, k, 2), (depth - 1) as nat, true),
            ),
            mm_chance_min(g, depth, k + 1),
        )
    } else {
        mm_chance_min(g, depth, k + 1)
    }
}

/// Every minimax value lies between 0 and `INF_VALUE`.
pub proof fn lemma_minimax_bounds(g: Seq<u32>, depth: nat, player: bool)
    ensures
        0 <= minimax_value(g, depth, player) <= INF_VALUE as int,
    decreases depth, 1int, 0int,
{
    if lost(g) {
    } else if depth == 0 {
        lemma_eval_bounds(g);
    } else if player {
        if changes(g, Direction::Left) {
            lemma_minimax_bounds(grid_after(g, Direction::Left), (depth - 1) as nat, false);
        }
        if changes(g, Direction::Down) {
            lemma_minimax_bounds(grid_after(g, Direction::Down), (depth - 1) as nat, false);
        }
        if changes(g, Direction::Right) {
            lemma_minimax_bounds(grid_after(g, Direction::Right), (depth - 1) as nat, false);
        }
        if changes(g, Direction::Up) {
            lemma_minimax_bounds(grid_after(g, Direction::Up), (depth - 1) as nat, false);
        }
    } else {
        lemma_mm_chance_bounds(g, depth, 0);
    }
}

/// Every adversarial spawn minimum lies between 0 and `INF_VALUE`.
proof fn lemma_mm_chance_bounds(g: Seq<u32>, depth: nat, k: int)
    ensures
        0 <= mm_chance_min(g, depth, k) <= INF_VALUE as int,
    decreases depth, 0int, 16 - k,
{
    if depth == 0 || k < 0 || k >= 16 {
    } else {
        lemma_mm_chance_bounds(g, depth, k + 1);
        if cell_exp(g, k) == 0 {
            lemma_minimax_bounds(place_cell(g, k, 1), (depth - 1) as nat, true);
            lemma_minimax_bounds(place_cell(g, k, 2), (depth - 1) as nat, true);
        }
    }
}

/// The spawn minimum over more cells is no larger.
proof fn lemma_chance_min_mono(g: Seq<u32>, depth: nat, k1: int, k2: int)
    requires
        0 <= k1 <= k2,
    ensures
        mm_chance_min(g, depth, k1) <= mm_chance_min(g, depth, k2),
    decreases k2 - k1,
{
    if k1 < k2 {
        lemma_chance_min_mono(g, depth, k1 + 1, k2);
    }
}

/// The spawn minimum is at most either spawn outcome of any empty cell it
/// covers.
proof fn lemma_chance_min_le_cand(g: Seq<u32>, depth: nat, k: int, kk: int)
    requires
        0 <= k <= kk < 16,
        cell_exp(g, kk) == 0,
        depth >= 1,
    ensures
        mm_chance_min(g, depth, k) <= minimax_value(place_cell(g, kk, 1), (depth - 1) as nat, true),
        mm_chance_min(g, depth, k) <= minimax_value(place_cell(g, kk, 2), (depth - 1) as nat, true),
{
    lemma_chance_min_mono(g, depth, k, kk);
}

/// One expectimax transposition-table entry: the depth it was computed at
/// and the value found.
struct TTEntryExpecti {
    depth: usize,
    value: u64,
}

/// Whether a stored minimax value was exact, or only a bound left behind
/// by an earlier cutoff.
#[derive(Clone, Copy)]
enum NodeType {
    Exact,
    Lowerbound,
    Upperbound,
}

/// One minimax transposition-table entry: depth searched, value, and
/// whether the value is exact or a bound.
struct TTEntryMini {
    depth: usize,
    value: u64,
    flag: NodeType,
}

/// What a stored flagged value says about the true minimax value.
spec fn mini_entry_sound(g: Seq<u32>, p: bool, depth: nat, value: int, flag: NodeType) -> bool {
    match flag {
        NodeType::Exact => minimax_value(g, depth, p) == value,
        NodeType::Lowerbound => minimax_value(g, depth, p) >= value,
        NodeType::Upperbound => minimax_value(g, depth, p) <= value,
    }
}

/// Soundness of the minimax table: every stored entry constrains the true
/// minimax value of the board its key encodes, at the stored depth, as
/// its flag says.
spec fn mini_tt_inv(m: Map<u128, TTEntryMini>) -> bool {
    forall|k: u128| #[trigger]
        m.contains_key(k) ==> m[k].value <= INF_VALUE && exists|g: Seq<u32>, p: bool|
            #[trigger] tt_key(g, p) == k && valid_grid(g) && mini_entry_sound(
                g,
                p,
                m[k].depth as nat,
                m[k].value as int,
                m[k].flag,
            )
}

/// The transposition key: the four 20-bit rows packed side by side, with
/// the layer parity in bit 80.
pub open spec fn tt_key(g: Seq<u32>, player: bool) -> u128 {
    (g[0] as u128) | ((g[1] as u128) << 20) | ((g[2] as u128) << 40) | ((g[3] as u128) << 60) | ((
    if player {
        1u128
    } else {
        0u128
    }) << 80)
}

/// The key is injective on boards of canonical 20-bit rows.
proof fn lemma_key_inj(
    a0: u32,
    a1: u32,
    a2: u32,
    a3: u32,
    b0: u32,
    b1: u32,
    b2: u32,
    b3: u32,
    pa: u128,
    pb: u128,
)
    by (bit_vector)
    requires
        a0 < 0x100000,
        a1 < 0x100000,
        a2 < 0x100000,
        a3 < 0x100000,
        b0 < 0x100000,
        b1 < 0x100000,
        b2 < 0x100000,
        b3 < 0x100000,
        pa <= 1,
        pb <= 1,
        ((a0 as u128) | ((a1 as u128) << 20) | ((a2 as u128) << 40) | ((a3 as u128) << 60) | (pa
            << 80)) == ((b0 as u128) | ((b1 as u128) << 20) | ((b2 as u128) << 40) | ((
        b3 as u128) << 60) | (pb << 80)),
    ensures
        a0 == b0,
        a1 == b1,
        a2 == b2,
        a3 == b3,
        pa == pb,
{
}

/// Soundness of the expectimax table: every stored entry is the
/// expectimax value, at the stored depth, of the board its key encodes.
spec fn exp_tt_inv(m: Map<u128, TTEntryExpecti>) -> bool {
    forall|k: u128| #[trigger]
        m.contains_key(k) ==> exists|g: Seq<u32>, p: bool|
            #[trigger] tt_key(g, p) == k && valid_grid(g) && expectimax_value(
                g,
                m[k].depth as nat,
                p,
            ) == m[k].value as int
}

/// Packs a board and a layer parity into the transposition key.
fn compute_key(grid: &[u32; 4], player: bool) -> (r: u128)
    ensures
        r == tt_key(grid@, player),
{
    let p: u128 = if player {
        1
    } else {
        0
    };
    (grid[0] as u128) | ((grid[1] as u128) << 20u128) | ((grid[2] as u128) << 40u128) | ((
    grid[3] as u128) << 60u128) | (p << 80u128)
}

/// Counts the empty cells of the board.
fn count_empty(grid: &[u32; 4]) -> (r: u64)
    ensures
        r as int == empty_cells_from(grid@, 0),
        r <= 16,
{
    proof {
        lemma_empty_cells_bounds(grid@, 0);
    }
    let mut ec: u64 = 0;
    let mut k: usize = 0;
    while k < 16
        invariant
            k <= 16,
            ec as int + empty_cells_from(grid@, k as int) == empty_cells_from(grid@, 0),
            ec <= k,
        decreases 16 - k,
    {
        let i = k / 4;
        let j = k % 4;
        if (grid[i] >> (((3 - j) * 5) as u32)) & 0x1F == 0 {
            proof {
                assert(cell_exp(grid@, k as int) == 0);
            }
            ec = ec + 1;
        } else {
            proof {
                assert(cell_exp(grid@, k as int) != 0);
            }
        }
        k = k + 1;
    }
    ec
}

/// The expectimax recursion: alternating player maximization and true
/// probability-weighted expectation over spawns, memoized per call in a
/// transposition table keyed by board and layer; a hit is taken only at
/// the exact depth, so the returned value is the specified one.
#[verifier::rlimit(60)]
fn expectimax(
    fast: &FastGame,
    grid: [u32; 4],
    depth: usize,
    is_player: bool,
    tt: &mut HashMap<u128, TTEntryExpecti>,
) -> (r: u64)
    requires
        fast.wf(),
        valid_grid(grid@),
        grid_sum(grid@) + 4 * depth < 0x40000,
        exp_tt_inv(old(tt)@),
    ensures
        exp_tt_inv(final(tt)@),
        r as int == expectimax_value(grid@, depth as nat, is_player),
        r <= EVAL_MAX,
    decreases depth, (if is_player {
        1int
    } else {
        0int
    }),
{
    proof {
        lemma_expectimax_bounds(grid@, depth as nat, is_player);
    }
    if fast.is_lost(&grid) {
        return 0;
    }
    if depth == 0 {
        return evaluate(grid);
    }
    let key = compute_key(&grid, is_player);
    let mut cached: u64 = 0;
    let mut has: bool = false;
    match tt.get(&key) {
        Some(e) => {
            if e.depth == depth {
                has = true;
                cached = e.value;
                proof {
                    let (g2, p2) = choose|g2: Seq<u32>, p2: bool|
                        #[trigger] tt_key(g2, p2) == key && valid_grid(g2) && expectimax_value(
                            g2,
                            tt@[key].depth as nat,
                            p2,
                        ) == tt@[key].value as int;
                    let pa: u128 = if is_player {
                        1
                    } else {
                        0
                    };
                    let pb: u128 = if p2 {
                        1
                    } else {
                        0
                    };
                    lemma_key_inj(
                        grid@[0],
                        grid@[1],
                        grid@[2],
                        grid@[3],
                        g2[0],
                        g2[1],
                        g2[2],
                        g2[3],
                        pa,
                        pb,
                    );
                    assert(g2 =~= grid@);
                    assert(p2 == is_player);
                    assert(cached as int == expectimax_value(grid@, depth as nat, is_player));
                }
            }
        },
        _ => {},
    }
    if has {
        return cached;
    }
    let ghost gsum = grid_sum(grid@);
    let mut value: u64;
    if is_player {
        let dirs = fast.get_possible_directions(&grid);
        value = 0;
        let mut k: usize = 0;
        while k < dirs.len()
            invariant
                fast.wf(),
                valid_grid(grid@),
                grid_sum(grid@) + 4 * depth < 0x40000,
                exp_tt_inv(tt@),
                depth >= 1,
                k <= dirs@.len(),
                dirs@ == possible_dirs(grid@),
                forall|d: Direction| #[trigger]
                    dirs@.contains(d) <==> (d != Direction::Stay && changes(grid@, d)),
                value <= EVAL_MAX,
                forall|kk: int|
                    0 <= kk < k ==> expectimax_value(
                        grid_after(grid@, #[trigger] dirs@[kk]),
                        (depth - 1) as nat,
                        false,
                    ) <= value as int,
                value == 0 || exists|kk: int|
                    0 <= kk < k && expectimax_value(
                        grid_after(grid@, #[trigger] dirs@[kk]),
                        (depth - 1) as nat,
                        false,
                    ) == value as int,
            decreases dirs@.len() - k,
        {
            let d = dirs[k];
            proof {
                lemma_make_move_keeps_sum(grid@, d);
            }
            let (ng, _sc) = fast.make_move(&grid, &d);
            let v = expectimax(fast, ng, depth - 1, false, tt);
            if v > value {
                value = v;
            }
            k += 1;
        }
        proof {
            lemma_possible_dirs_iff(grid@);
            assert forall|d: Direction| d != Direction::Stay && changes(grid@, d) implies
                expectimax_value(grid_after(grid@, d), (depth - 1) as nat, false)
                <= value as int by {
                assert(dirs@.contains(d));
                let kk = choose|kk: int| 0 <= kk < dirs@.len() && dirs@[kk] == d;
                assert(expectimax_value(grid_after(grid@, dirs@[kk]), (depth - 1) as nat, false)
                    <= value as int);
            }
            assert forall|d: Direction| d != Direction::Stay implies 0 <= (if changes(grid@, d) {
                expectimax_value(grid_after(grid@, d), (depth - 1) as nat, false)
            } else {
                0
            }) by {
                if changes(grid@, d) {
                    lemma_expectimax_bounds(grid_after(grid@, d), (depth - 1) as nat, false);
                }
            }
            if value > 0 {
                let kk = choose|kk: int|
                    0 <= kk < dirs@.len() && expectimax_value(
                        grid_after(grid@, #[trigger] dirs@[kk]),
                        (depth - 1) as nat,
                        false,
                    ) == value as int;
                assert(dirs@.contains(dirs@[kk]));
            }
            assert(value as int == expectimax_value(grid@, depth as nat, true));
        }
    } else {
        let empties = count_empty(&grid);
        if empties == 0 {
            value = evaluate(grid);
            proof {
                assert(value as int == expectimax_value(grid@, depth as nat, false));
            }
        } else {
            proof {
                lemma_exp_chance_bounds(grid@, depth as nat, 0);
                lemma2_to64();
            }
            let mut total: u64 = 0;
            let mut k: usize = 0;
            while k < 16
                invariant
                    fast.wf(),
                    valid_grid(grid@),
                    grid_sum(grid@) + 4 * depth < 0x40000,
                    exp_tt_inv(tt@),
                    depth >= 1,
                    k <= 16,
                    total as int + exp_chance_sum(grid@, depth as nat, k as int) == exp_chance_sum(
                        grid@,
                        depth as nat,
                        0,
                    ),
                    total as int <= 160 * (EVAL_MAX as int),
                decreases 16 - k,
            {
                proof {
                    lemma_exp_chance_bounds(grid@, depth as nat, k as int);
                    lemma_exp_chance_bounds(grid@, depth as nat, k as int + 1);
                    lemma_exp_chance_bounds(grid@, depth as nat, 0);
                    lemma_empty_cells_bounds(grid@, 0);
                    lemma2_to64();
                }
                let i = k / 4;
                let j = k % 4;
                if (grid[i] >> (((3 - j) * 5) as u32)) & 0x1F == 0 {
                    proof {
                        assert(cell_exp(grid@, k as int) == 0);
                        assert(cell_empty(grid@, i as int, 3 - j as int));
                    }
                    let g1 = fast.place_block(grid, (i, 3 - j), 1);
                    proof {
                        assert(tile_val(1) == 2);
                        assert(g1@ == place_cell(grid@, k as int, 1));
                    }
                    let v1 = expectimax(fast, g1, depth - 1, true, tt);
                    let g2 = fast.place_block(grid, (i, 3 - j), 2);
                    proof {
                        assert(tile_val(2) == 4);
                        assert(g2@ == place_cell(grid@, k as int, 2));
                    }
                    let v2 = expectimax(fast, g2, depth - 1, true, tt);
                    total = total + 9 * v1 + v2;
                } else {
                    proof {
                        assert(cell_exp(grid@, k as int) != 0);
                    }
                }
                k = k + 1;
            }
            value = total / (10 * empties);
            proof {
                assert(exp_chance_sum(grid@, depth as nat, 16) == 0);
                assert(total as int == exp_chance_sum(grid@, depth as nat, 0));
                assert(value as int == exp_chance_sum(grid@, depth as nat, 0) / (10
                    * empty_cells_from(grid@, 0)));
                assert(value as int == expectimax_value(grid@, depth as nat, false));
            }
        }
    }
    let ghost pre_tt = tt@;
    let e = TTEntryExpecti { depth, value };
    tt.insert(key, e);
    proof {
        assert(tt_key(grid@, is_player) == key && valid_grid(grid@) && expectimax_value(
            grid@,
            tt@[key].depth as nat,
            is_player,
        ) == tt@[key].value as int);
        assert forall|k2: u128| #[trigger] tt@.contains_key(k2) implies exists|
            g2: Seq<u32>,
            p2: bool,
        |
            #[trigger] tt_key(g2, p2) == k2 && valid_grid(g2) && expectimax_value(
                g2,
                tt@[k2].depth as nat,
                p2,
            ) == tt@[k2].value as int by {
            if k2 != key {
                assert(pre_tt.contains_key(k2));
                let (g2, p2) = choose|g2: Seq<u32>, p2: bool|
                    #[trigger] tt_key(g2, p2) == k2 && valid_grid(g2) && expectimax_value(
                        g2,
                        pre_tt[k2].depth as nat,
                        p2,
                    ) == pre_tt[k2].value as int;
                assert(tt_key(g2, p2) == k2 && valid_grid(g2) && expectimax_value(
                    g2,
                    tt@[k2].depth as nat,
                    p2,
                ) == tt@[k2].value as int);
            }
        }
    }
    value
}

/// The direction whose expectimax evaluation at the given depth is
/// maximal, ties broken by the enumeration order left, down, right, up;
/// `Stay` exactly when the board is lost. Each candidate direction gets
/// its own fresh transposition table.
pub fn get_best_direction_expectimax(game: &FastGame, grid: [u32; 4], search_depth: usize) -> (r:
    Direction)
    requires
        game.wf(),
        valid_grid(grid@),
        grid_sum(grid@) + 4 * search_depth < 0x40000,
    ensures
        (r == Direction::Stay) <==> lost(grid@),
        r != Direction::Stay ==> changes(grid@, r) && (forall|d: Direction|
            d != Direction::Stay && changes(grid@, d) ==> expectimax_value(
                grid_after(grid@, d),
                search_depth as nat,
                false,
            ) <= expectimax_value(grid_after(grid@, r), search_depth as nat, false)),
        r != Direction::Stay ==> exists|k: int|
            0 <= k < possible_dirs(grid@).len() && #[trigger] possible_dirs(grid@)[k] == r && (
            forall|kk: int|
                0 <= kk < k ==> expectimax_value(
                    grid_after(grid@, #[trigger] possible_dirs(grid@)[kk]),
                    search_depth as nat,
                    false,
                ) < expectimax_value(grid_after(grid@, r), search_depth as nat, false)),
{
    let dirs = game.get_possible_directions(&grid);
    if dirs.len() == 0 {
        return Direction::Stay;
    }
    proof {
        lemma_make_move_keeps_sum(grid@, dirs@[0]);
    }
    let d0 = dirs[0];
    let (ng0, _s0) = game.make_move(&grid, &d0);
    let mut tt0: HashMap<u128, TTEntryExpecti> = HashMap::new();
    proof {
        assert(tt0@ =~= Map::<u128, TTEntryExpecti>::empty());
    }
    let mut best_val = expectimax(game, ng0, search_depth, false, &mut tt0);
    let mut best_dir = d0;
    let ghost mut best_k: int = 0;
    let mut k: usize = 1;
    while k < dirs.len()
        invariant
            game.wf(),
            valid_grid(grid@),
            grid_sum(grid@) + 4 * search_depth < 0x40000,
            1 <= k <= dirs@.len(),
            dirs@ == possible_dirs(grid@),
            forall|d: Direction| #[trigger]
                dirs@.contains(d) <==> (d != Direction::Stay && changes(grid@, d)),
            dirs@.contains(best_dir),
            0 <= best_k < k,
            dirs@[best_k] == best_dir,
            best_val as int == expectimax_value(
                grid_after(grid@, best_dir),
                search_depth as nat,
                false,
            ),
            forall|kk: int|
                0 <= kk < k ==> expectimax_value(
                    grid_after(grid@, #[trigger] dirs@[kk]),
                    search_depth as nat,
                    false,
                ) <= best_val as int,
            forall|kk: int|
                0 <= kk < best_k ==> expectimax_value(
                    grid_after(grid@, #[trigger] dirs@[kk]),
                    search_depth as nat,
                    false,
                ) < best_val as int,
        decreases dirs@.len() - k,
    {
        proof {
            lemma_make_move_keeps_sum(grid@, dirs@[k as int]);
        }
        let d = dirs[k];
        let (ng, _s) = game.make_move(&grid, &d);
        let mut ttk: HashMap<u128, TTEntryExpecti> = HashMap::new();
        proof {
            assert(ttk@ =~= Map::<u128, TTEntryExpecti>::empty());
        }
        let v = expectimax(game, ng, search_depth, false, &mut ttk);
        if v > best_val {
            best_val = v;
            best_dir = d;
            proof {
                best_k = k as int;
            }
        }
        k += 1;
    }
    proof {
        assert forall|d: Direction| d != Direction::Stay && changes(grid@, d) implies
            expectimax_value(grid_after(grid@, d), search_depth as nat, false)
            <= expectimax_value(grid_after(grid@, best_dir), search_depth as nat, false) by {
            assert(dirs@.contains(d));
            let kk = choose|kk: int| 0 <= kk < dirs@.len() && dirs@[kk] == d;
            assert(expectimax_value(grid_after(grid@, dirs@[kk]), search_depth as nat, false)
                <= best_val as int);
        }
    }
    best_dir
}

/// The alpha-beta minimax recursion, fail-soft, with a per-call
/// transposition table of flagged bounds. The contract pins the result to
/// the unpruned `minimax_value`: inside the window the result equals it,
/// at or outside either bound the result bounds it from that side.
#[verifier::rlimit(100)]
fn minimax(
    fast: &FastGame,
    grid: [u32; 4],
    depth: usize,
    is_player: bool,
    alpha: u64,
    beta: u64,
    tt: &mut HashMap<u128, TTEntryMini>,
) -> (r: u64)
    requires
        fast.wf(),
        valid_grid(grid@),
        grid_sum(grid@) + 4 * depth < 0x40000,
        alpha < beta,
        mini_tt_inv(old(tt)@),
    ensures
        mini_tt_inv(final(tt)@),
        r <= INF_VALUE,
        r <= alpha ==> minimax_value(grid@, depth as nat, is_player) <= r as int,
        r >= beta ==> minimax_value(grid@, depth as nat, is_player) >= r as int,
        alpha < r < beta ==> r as int == minimax_value(grid@, depth as nat, is_player),
    decreases depth, (if is_player {
        1int
    } else {
        0int
    }),
{
    let ghost m = minimax_value(grid@, depth as nat, is_player);
    proof {
        lemma_minimax_bounds(grid@, depth as nat, is_player);
    }
    if fast.is_lost(&grid) {
        return 0;
    }
    if depth == 0 {
        return evaluate(grid);
    }
    let key = compute_key(&grid, is_player);
    let mut a1 = alpha;
    let mut b1 = beta;
    let probe: Option<(usize, u64, NodeType)> = match tt.get(&key) {
        Some(e) => Some((e.depth, e.value, e.flag)),
        _ => Option::None,
    };
    if let Some((pd, pv, pf)) = probe {
        if pd == depth {
            proof {
                let (g2, p2) = choose|g2: Seq<u32>, p2: bool|
                    #[trigger] tt_key(g2, p2) == key && valid_grid(g2) && mini_entry_sound(
                        g2,
                        p2,
                        tt@[key].depth as nat,
                        tt@[key].value as int,
                        tt@[key].flag,
                    );
                let pa: u128 = if is_player {
                    1
                } else {
                    0
                };
                let pb: u128 = if p2 {
                    1
                } else {
                    0
                };
                lemma_key_inj(
                    grid@[0],
                    grid@[1],
                    grid@[2],
                    grid@[3],
                    g2[0],
                    g2[1],
                    g2[2],
                    g2[3],
                    pa,
                    pb,
                );
                assert(g2 =~= grid@);
                assert(p2 == is_player);
                assert(mini_entry_sound(grid@, is_player, depth as nat, pv as int, pf));
            }
            match pf {
                NodeType::Exact => {
                    return pv;
                },
                NodeType::Lowerbound => {
                    if pv >= b1 {
                        return pv;
                    }
                    if pv > a1 {
                        a1 = pv;
                    }
                },
                NodeType::Upperbound => {
                    if pv <= a1 {
                        return pv;
                    }
                    if pv < b1 {
                        b1 = pv;
                    }
                },
            }
        }
    }
    proof {
        assert(a1 < b1);
        assert(alpha <= a1 && b1 <= beta);
        assert(a1 > alpha ==> m >= a1 as int);
        assert(b1 < beta ==> m <= b1 as int);
    }
    let mut value: u64;
    if is_player {
        let dirs = fast.get_possible_directions(&grid);
        value = 0;
        let mut ac = a1;
        let mut k: usize = 0;
        while k < dirs.len() && ac < b1
            invariant
                fast.wf(),
                valid_grid(grid@),
                grid_sum(grid@) + 4 * depth < 0x40000,
                mini_tt_inv(tt@),
                depth >= 1,
                a1 < b1,
                k <= dirs@.len(),
                dirs@ == possible_dirs(grid@),
                forall|d: Direction| #[trigger]
                    dirs@.contains(d) <==> (d != Direction::Stay && changes(grid@, d)),
                value <= INF_VALUE,
                ac as int == max2(a1 as int, value as int),
                ac < b1 ==> forall|kk: int|
                    0 <= kk < k ==> minimax_value(
                        grid_after(grid@, #[trigger] dirs@[kk]),
                        (depth - 1) as nat,
                        false,
                    ) <= value as int,
                value > a1 ==> exists|kk: int|
                    0 <= kk < k && minimax_value(
                        grid_after(grid@, #[trigger] dirs@[kk]),
                        (depth - 1) as nat,
                        false,
                    ) >= value as int,
            decreases dirs@.len() - k,
        {
            let d = dirs[k];
            proof {
                lemma_make_move_keeps_sum(grid@, d);
                lemma_minimax_bounds(grid_after(grid@, d), (depth - 1) as nat, false);
            }
            let (ng, _sc) = fast.make_move(&grid, &d);
            let rc = minimax(fast, ng, depth - 1, false, ac, b1, tt);
            if rc > value {
                value = rc;
            }
            if value > ac {
                ac = value;
            }
            k += 1;
        }
        proof {
            lemma_possible_dirs_iff(grid@);
            assert forall|d: Direction| d != Direction::Stay implies 0 <= (if changes(grid@, d) {
                minimax_value(grid_after(grid@, d), (depth - 1) as nat, false)
            } else {
                0
            }) by {
                if changes(grid@, d) {
                    lemma_minimax_bounds(grid_after(grid@, d), (depth - 1) as nat, false);
                }
            }
            if value > a1 {
                let kk = choose|kk: int|
                    0 <= kk < dirs@.len() && minimax_value(
                        grid_after(grid@, #[trigger] dirs@[kk]),
                        (depth - 1) as nat,
                        false,
                    ) >= value as int;
                assert(dirs@.contains(dirs@[kk]));
                assert(m >= value as int);
            }
            if ac >= b1 {
                // cutoff: the witness bounds the true value from below
                assert(value >= b1);
            } else {
                // every direction was searched: the true value is bounded
                assert forall|d: Direction| d != Direction::Stay && changes(grid@, d) implies
                    minimax_value(grid_after(grid@, d), (depth - 1) as nat, false)
                    <= value as int by {
                    assert(dirs@.contains(d));
                    let kk = choose|kk: int| 0 <= kk < dirs@.len() && dirs@[kk] == d;
                    assert(minimax_value(grid_after(grid@, dirs@[kk]), (depth - 1) as nat, false)
                        <= value as int);
                }
                assert(m <= value as int);
            }
        }
    } else {
        value = INF_VALUE;
        let mut bc = if b1 <= INF_VALUE {
            b1
        } else {
            INF_VALUE
        };
        let mut k: usize = 0;
        proof {
            lemma_mm_chance_bounds(grid@, depth as nat, 0);
        }
        while k < 16 && a1 < bc
            invariant
                fast.wf(),
                valid_grid(grid@),
                grid_sum(grid@) + 4 * depth < 0x40000,
                mini_tt_inv(tt@),
                depth >= 1,
                a1 < b1,
                k <= 16,
                value <= INF_VALUE,
                bc as int == min2(b1 as int, value as int),
                a1 < bc ==> mm_chance_min(grid@, depth as nat, 0) >= min2(
                    value as int,
                    mm_chance_min(grid@, depth as nat, k as int),
                ),
                (value < INF_VALUE && value < b1) ==> exists|kk: int, v: u32|
                    0 <= kk < k && cell_exp(grid@, kk) == 0 && (v == 1 || v == 2) && #[trigger]
                    minimax_value(place_cell(grid@, kk, v), (depth - 1) as nat, true)
                        <= value as int,
            decreases 16 - k,
        {
            let i = k / 4;
            let j = k % 4;
            if (grid[i] >> (((3 - j) * 5) as u32)) & 0x1F == 0 {
                proof {
                    assert(cell_exp(grid@, k as int) == 0);
                    assert(cell_empty(grid@, i as int, 3 - j as int));
                    lemma2_to64();
                    lemma_minimax_bounds(place_cell(grid@, k as int, 1), (depth - 1) as nat, true);
                    lemma_minimax_bounds(place_cell(grid@, k as int, 2), (depth - 1) as nat, true);
                }
                let g1 = fast.place_block(grid, (i, 3 - j), 1);
                proof {
                    assert(tile_val(1) == 2);
                    assert(g1@ == place_cell(grid@, k as int, 1));
                }
                let c1 = minimax(fast, g1, depth - 1, true, a1, bc, tt);
                if c1 < value {
                    value = c1;
                }
                if value < bc {
                    bc = value;
                }
                if a1 < bc {
                    let g2 = fast.place_block(grid, (i, 3 - j), 2);
                    proof {
                        assert(tile_val(2) == 4);
                        assert(g2@ == place_cell(grid@, k as int, 2));
                    }
                    let c2 = minimax(fast, g2, depth - 1, true, a1, bc, tt);
                    if c2 < value {
                        value = c2;
                    }
                    if value < bc {
                        bc = value;
                    }
                }
            } else {
                proof {
                    assert(cell_exp(grid@, k as int) != 0);
                }
            }
            k = k + 1;
        }
        proof {
            assert(m == mm_chance_min(grid@, depth as nat, 0));
            if bc <= a1 {
                // cutoff: the adversary already found a spawn at most `value`
                assert(value as int <= a1 as int);
                if value < INF_VALUE {
                    let (kk, v) = choose|kk: int, v: u32|
                        0 <= kk < 16 && cell_exp(grid@, kk) == 0 && (v == 1 || v == 2) && #[trigger]
                        minimax_value(place_cell(grid@, kk, v), (depth - 1) as nat, true)
                            <= value as int;
                    lemma_chance_min_le_cand(grid@, depth as nat, 0, kk);
                }
                assert(m <= value as int);
            } else {
                assert(mm_chance_min(grid@, depth as nat, 16) == INF_VALUE as int);
                assert(m >= min2(value as int, INF_VALUE as int));
                assert(m >= value as int);
                if value < INF_VALUE && value < b1 {
                    let (kk, v) = choose|kk: int, v: u32|
                        0 <= kk < 16 && cell_exp(grid@, kk) == 0 && (v == 1 || v == 2) && #[trigger]
                        minimax_value(place_cell(grid@, kk, v), (depth - 1) as nat, true)
                            <= value as int;
                    lemma_chance_min_le_cand(grid@, depth as nat, 0, kk);
                    assert(m <= value as int);
                }
            }
        }
    }
    proof {
        // fail-soft conclusions within the (possibly narrowed) window
        assert(value <= a1 ==> m <= value as int);
        assert(value >= b1 ==> m >= value as int);
        assert(a1 < value < b1 ==> m == value as int);
        // and translated back to the caller's window
        assert(value <= alpha ==> m <= value as int);
        assert(value >= beta ==> m >= value as int);
        assert(alpha < value < beta ==> m == value as int);
    }
    let flag = if value <= a1 {
        NodeType::Upperbound
    } else if value >= b1 {
        NodeType::Lowerbound
    } else {
        NodeType::Exact
    };
    let ghost pre_tt = tt@;
    let e = TTEntryMini { depth, value, flag };
    tt.insert(key, e);
    proof {
        assert(mini_entry_sound(grid@, is_player, depth as nat, value as int, flag));
        assert(tt_key(grid@, is_player) == key);
        assert forall|k2: u128| #[trigger] tt@.contains_key(k2) implies exists|
            g2: Seq<u32>,
            p2: bool,
        |
            #[trigger] tt_key(g2, p2) == k2 && valid_grid(g2) && mini_entry_sound(
                g2,
                p2,
                tt@[k2].depth as nat,
                tt@[k2].value as int,
                tt@[k2].flag,
            ) by {
            if k2 != key {
                assert(pre_tt.contains_key(k2));
                let (g2, p2) = choose|g2: Seq<u32>, p2: bool|
                    #[trigger] tt_key(g2, p2) == k2 && valid_grid(g2) && mini_entry_sound(
                        g2,
                        p2,
                        pre_tt[k2].depth as nat,
                        pre_tt[k2].value as int,
                        pre_tt[k2].flag,
                    );
                assert(tt_key(g2, p2) == k2 && valid_grid(g2) && mini_entry_sound(
                    g2,
                    p2,
                    tt@[k2].depth as nat,
                    tt@[k2].value as int,
                    tt@[k2].flag,
                ));
            }
        }
    }
    value
}

/// The pruned search agrees with the unpruned definition: called with the
/// full window, alpha-beta minimax returns exactly `minimax_value` for
/// the given board and depth.
pub fn minimax_search(fast: &FastGame, grid: [u32; 4], depth: usize, is_player: bool) -> (r: u64)
    requires
        fast.wf(),
        valid_grid(grid@),
        grid_sum(grid@) + 4 * depth < 0x40000,
    ensures
        r as int == minimax_value(grid@, depth as nat, is_player),
{
    let mut tt: HashMap<u128, TTEntryMini> = HashMap::new();
    proof {
        assert(tt@ =~= Map::<u128, TTEntryMini>::empty());
        lemma_minimax_bounds(grid@, depth as nat, is_player);
    }
    let v = minimax(fast, grid, depth, is_player, 0, u64::MAX, &mut tt);
    v
}

/// The direction whose minimax evaluation at the given depth is maximal,
/// ties broken by the enumeration order left, down, right, up; `Stay`
/// exactly when the board is lost. Each candidate direction gets its own
/// search with its own transposition table.
pub fn get_best_direction_minimax(game: &FastGame, grid: [u32; 4], search_depth: usize) -> (r:
    Direction)
    requires
        game.wf(),
        valid_grid(grid@),
        grid_sum(grid@) + 4 * search_depth < 0x40000,
    ensures
        (r == Direction::Stay) <==> lost(grid@),
        r != Direction::Stay ==> changes(grid@, r) && (forall|d: Direction|
            d != Direction::Stay && changes(grid@, d) ==> minimax_value(
                grid_after(grid@, d),
                search_depth as nat,
                false,
            ) <= minimax_value(grid_after(grid@, r), search_depth as nat, false)),
        r != Direction::Stay ==> exists|k: int|
            0 <= k < possible_dirs(grid@).len() && #[trigger] possible_dirs(grid@)[k] == r && (
            forall|kk: int|
                0 <= kk < k ==> minimax_value(
                    grid_after(grid@, #[trigger] possible_dirs(grid@)[kk]),
                    search_depth as nat,
                    false,
                ) < minimax_value(grid_after(grid@, r), search_depth as nat, false)),
{
    let dirs = game.get_possible_directions(&grid);
    if dirs.len() == 0 {
        return Direction::Stay;
    }
    proof {
        lemma_make_move_keeps_sum(grid@, dirs@[0]);
    }
    let d0 = dirs[0];
    let (ng0, _s0) = game.make_move(&grid, &d0);
    let mut best_val = minimax_search(game, ng0, search_depth, false);
    let mut best_dir = d0;
    let ghost mut best_k: int = 0;
    let mut k: usize = 1;
    while k < dirs.len()
        invariant
            game.wf(),
            valid_grid(grid@),
            grid_sum(grid@) + 4 * search_depth < 0x40000,
            1 <= k <= dirs@.len(),
            dirs@ == possible_dirs(grid@),
            forall|d: Direction| #[trigger]
                dirs@.contains(d) <==> (d != Direction::Stay && changes(grid@, d)),
            dirs@.contains(best_dir),
            0 <= best_k < k,
            dirs@[best_k] == best_dir,
            best_val as int == minimax_value(
                grid_after(grid@, best_dir),
                search_depth as nat,
                false,
            ),
            forall|kk: int|
                0 <= kk < k ==> minimax_value(
                    grid_after(grid@, #[trigger] dirs@[kk]),
                    search_depth as nat,
                    false,
                ) <= best_val as int,
            forall|kk: int|
                0 <= kk < best_k ==> minimax_value(
                    grid_after(grid@, #[trigger] dirs@[kk]),
                    search_depth as nat,
                    false,
                ) < best_val as int,
        decreases dirs@.len() - k,
    {
        proof {
            lemma_make_move_keeps_sum(grid@, dirs@[k as int]);
        }
        let d = dirs[k];
        let (ng, _s) = game.make_move(&grid, &d);
        let v = minimax_search(game, ng, search_depth, false);
        if v > best_val {
            best_val = v;
            best_dir = d;
            proof {
                best_k = k as int;
            }
        }
        k += 1;
    }
    proof {
        assert forall|d: Direction| d != Direction::Stay && changes(grid@, d) implies minimax_value(
            grid_after(grid@, d),
            search_depth as nat,
            false,
        ) <= minimax_value(grid_after(grid@, best_dir), search_depth as nat, false) by {
            assert(dirs@.contains(d));
            let kk = choose|kk: int| 0 <= kk < dirs@.len() && dirs@[kk] == d;
            assert(minimax_value(grid_after(grid@, dirs@[kk]), search_depth as nat, false)
                <= best_val as int);
        }
    }
    best_dir
}

} // verus!
