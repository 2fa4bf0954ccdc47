//! The move-table engine: a bit-packed 2048 board of four 20-bit rows and
//! a precomputed, total table of the left row transition.

use vstd::prelude::*;
use crate::game::Direction;
use crate::rows::{
    row_field, row_fields, pack_row, valid_row, nonzeros, merged, merged_score, zero_pad,
    row_left_fields, row_left_score, row_left_u, rev4, row_right_fields, row_right_score,
    row_right_u, tile_val, seq_val_sum, row_sum, lemma_nonzeros_push, lemma_nonzeros_props,
    lemma_merged_props, lemma_seq_val_sum_bounds, lemma_small_sum_valid_fields, lemma_pack_fields,
    lemma_field_bounds, lemma_valid_row_lt_table, lemma_row_field_unfold, lemma_pack_row_fields,
    lemma_row_fields_of_pack, lemma_field5_bound, lemma_clear_set_field, lemma_or_set_field,
    lemma_seq_val_sum4, lemma_valid_row_field, lemma_row_field_small, lemma_push_contains,
    lemma_row_left_total, lemma_sum_update4, lemma_rev4_sum, MAX_BLOCK_EXPONENT, TABLE_SIZE,
};
use vstd::arithmetic::power2::{pow2, lemma_pow2_adds, lemma2_to64};
use vstd::bits::lemma_u32_shl_is_mul;

verus! {

/// One move-table entry: the row after a left slide, whether the slide
/// changed the row, and the score the merges gained.
#[derive(Clone, Copy, Debug)]
pub struct RowMove {
    pub new_state: u32,
    pub changed: bool,
    pub score: u32,
}

/// What the move table promises about the entry stored for row `r`.
pub open spec fn entry_ok(e: RowMove, r: u32) -> bool {
    &&& e.new_state < 0x100000
    &&& row_fields(e.new_state) == row_left_fields(row_fields(r))
    &&& e.score as int == row_left_score(row_fields(r))
    &&& e.score <= 0x80000
    &&& e.changed == (e.new_state != r)
}

/// A board of four packed rows, each valid for the move table.
pub open spec fn valid_grid(g: Seq<u32>) -> bool {
    &&& g.len() == 4
    &&& valid_row(g[0])
    &&& valid_row(g[1])
    &&& valid_row(g[2])
    &&& valid_row(g[3])
}

/// The four exponents of column `j`, top to bottom: the column transposed
/// into row layout.
pub open spec fn col_fields(g: Seq<u32>, j: int) -> Seq<u32> {
    Seq::new(4, |i: int| row_field(g[i], j))
}

/// The board after sliding in a direction. Rows slide as rows; columns are
/// transposed into row layout, slid, and written back: `Up` is the
/// column-transpose analogue of `Left`, `Down` of `Right`. `Stay` leaves
/// the board unchanged.
pub open spec fn grid_after(g: Seq<u32>, d: Direction) -> Seq<u32> {
    match d {
        Direction::Left => Seq::new(4, |i: int| row_left_u(g[i])),
        Direction::Right => Seq::new(4, |i: int| row_right_u(g[i])),
        Direction::Up => Seq::new(
            4,
            |i: int| pack_row(Seq::new(4, |j: int| row_left_fields(col_fields(g, j))[i])),
        ),
        Direction::Down => Seq::new(
            4,
            |i: int| pack_row(Seq::new(4, |j: int| row_right_fields(col_fields(g, j))[i])),
        ),
        Direction::Stay => g,
    }
}

/// Total score of a slide: the sum of the per-row (or per-column) merge
/// contributions, each merge of two exponent-`e` tiles contributing
/// 2^(e+1).
pub open spec fn move_score_spec(g: Seq<u32>, d: Direction) -> int {
    match d {
        Direction::Left => row_left_score(row_fields(g[0])) + row_left_score(row_fields(g[1]))
            + row_left_score(row_fields(g[2])) + row_left_score(row_fields(g[3])),
        Direction::Right => row_right_score(row_fields(g[0])) + row_right_score(row_fields(g[1]))
            + row_right_score(row_fields(g[2])) + row_right_score(row_fields(g[3])),
        Direction::Up => row_left_score(col_fields(g, 0)) + row_left_score(col_fields(g, 1))
            + row_left_score(col_fields(g, 2)) + row_left_score(col_fields(g, 3)),
        Direction::Down => row_right_score(col_fields(g, 0)) + row_right_score(col_fields(g, 1))
            + row_right_score(col_fields(g, 2)) + row_right_score(col_fields(g, 3)),
        Direction::Stay => 0,
    }
}

/// Whether sliding in a direction changes the board.
pub open spec fn changes(g: Seq<u32>, d: Direction) -> bool {
    grid_after(g, d) != g
}

/// A board is lost when no direction changes it.
pub open spec fn lost(g: Seq<u32>) -> bool {
    &&& !changes(g, Direction::Left)
    &&& !changes(g, Direction::Right)
    &&& !changes(g, Direction::Up)
    &&& !changes(g, Direction::Down)
}

/// The legal directions, in the fixed enumeration order left, down, right,
/// up.
pub open spec fn possible_dirs(g: Seq<u32>) -> Seq<Direction> {
    (if changes(g, Direction::Left) {
        seq![Direction::Left]
    } else {
        Seq::empty()
    }) + (if changes(g, Direction::Down) {
        seq![Direction::Down]
    } else {
        Seq::empty()
    }) + (if changes(g, Direction::Right) {
        seq![Direction::Right]
    } else {
        Seq::empty()
    }) + (if changes(g, Direction::Up) {
        seq![Direction::Up]
    } else {
        Seq::empty()
    })
}

/// Total tile value on the board.
pub open spec fn grid_sum(g: Seq<u32>) -> int {
    row_sum(g[0]) + row_sum(g[1]) + row_sum(g[2]) + row_sum(g[3])
}

/// Cell `(i, c)` of the board is empty; `c` counts bit fields from the low
/// bits of row `i`, the same convention `place_block` uses, so display
/// column `3 - c`.
pub open spec fn cell_empty(g: Seq<u32>, i: int, c: int) -> bool {
    row_field(g[i], 3 - c) == 0
}

/// The packed row with display field `j` replaced by `v`.
pub open spec fn set_field_spec(r: u32, j: int, v: u32) -> u32 {
    pack_row(row_fields(r).update(j, v))
}

/// The board with a tile of exponent `v` written into cell `(i, c)` (`c`
/// counted from the low bits).
pub open spec fn place_spec(g: Seq<u32>, i: int, c: int, v: u32) -> Seq<u32> {
    g.update(i, set_field_spec(g[i], 3 - c, v))
}

/// Number of empty cells among the cells at linear positions `k..16`,
/// walked in the emission order of `empty_list`: row `k / 4`, field
/// `k % 4` from the low bits.
pub open spec fn empty_count_from(g: Seq<u32>, k: int) -> int
    decreases 16 - k,
{
    if k < 0 || k >= 16 {
        0
    } else {
        (if cell_empty(g, k / 4, k % 4) {
            1int
        } else {
            0int
        }) + empty_count_from(g, k + 1)
    }
}

/// Score of the first `n` columns slid upward.
pub open spec fn up_score_prefix(g: Seq<u32>, n: int) -> int
    decreases n,
{
    if n <= 0 {
        0
    } else {
        up_score_prefix(g, n - 1) + row_left_score(col_fields(g, n - 1))
    }
}

/// Score of the first `n` columns slid downward.
pub open spec fn down_score_prefix(g: Seq<u32>, n: int) -> int
    decreases n,
{
    if n <= 0 {
        0
    } else {
        down_score_prefix(g, n - 1) + row_right_score(col_fields(g, n - 1))
    }
}

/// Packing four small fields: the packed row is canonical, carries those
/// fields, and its row total is their total.
pub proof fn lemma_packed_fields_sum(s: Seq<u32>)
    requires
        s.len() == 4,
        forall|k: int| 0 <= k < 4 ==> #[trigger] s[k] < 32,
    ensures
        pack_row(s) < 0x100000,
        row_fields(pack_row(s)) == s,
        row_sum(pack_row(s)) == seq_val_sum(s),
{
    lemma_row_fields_of_pack(s);
}

/// A left slide changes the board exactly when it changes some row.
pub proof fn lemma_changes_left(g: Seq<u32>)
    requires
        valid_grid(g),
    ensures
        changes(g, Direction::Left) <==> exists|i: int|
            0 <= i < 4 && #[trigger] row_left_u(g[i]) != g[i],
{
    if forall|i: int| 0 <= i < 4 ==> #[trigger] row_left_u(g[i]) == g[i] {
        assert(grid_after(g, Direction::Left) =~= g);
    }
    if exists|i: int| 0 <= i < 4 && #[trigger] row_left_u(g[i]) != g[i] {
        let i = choose|i: int| 0 <= i < 4 && #[trigger] row_left_u(g[i]) != g[i];
        assert(grid_after(g, Direction::Left)[i] != g[i]);
    }
}

/// A right slide changes the board exactly when it changes some row.
pub proof fn lemma_changes_right(g: Seq<u32>)
    requires
        valid_grid(g),
    ensures
        changes(g, Direction::Right) <==> exists|i: int|
            0 <= i < 4 && #[trigger] row_right_u(g[i]) != g[i],
{
    if forall|i: int| 0 <= i < 4 ==> #[trigger] row_right_u(g[i]) == g[i] {
        assert(grid_after(g, Direction::Right) =~= g);
    }
    if exists|i: int| 0 <= i < 4 && #[trigger] row_right_u(g[i]) != g[i] {
        let i = choose|i: int| 0 <= i < 4 && #[trigger] row_right_u(g[i]) != g[i];
        assert(grid_after(g, Direction::Right)[i] != g[i]);
    }
}

/// An upward slide changes the board exactly when it changes some column,
/// read in row layout.
pub proof fn lemma_changes_up(g: Seq<u32>)
    requires
        valid_grid(g),
    ensures
        changes(g, Direction::Up) <==> exists|j: int|
            0 <= j < 4 && #[trigger] row_left_fields(col_fields(g, j)) != col_fields(g, j),
{
    assert forall|i: int, j: int| 0 <= i < 4 && 0 <= j < 4 implies #[trigger] col_fields(g, j)[i]
        < 32 by {
        lemma_valid_row_field(g[i], j);
    }
    assert forall|j: int| 0 <= j < 4 implies row_left_fields(col_fields(g, j)).len() == 4 && forall|
        k: int,
    | 0 <= k < 4 ==> #[trigger] row_left_fields(col_fields(g, j))[k] < 32 by {
        assert forall|k: int| 0 <= k < 4 implies #[trigger] col_fields(g, j)[k]
            <= MAX_BLOCK_EXPONENT by {
            lemma_valid_row_field(g[k], j);
        }
        lemma_row_left_total(col_fields(g, j));
    }
    let ga = grid_after(g, Direction::Up);
    assert forall|i: int| 0 <= i < 4 implies row_fields(#[trigger] ga[i]) == Seq::new(
        4,
        |j: int| row_left_fields(col_fields(g, j))[i],
    ) && ga[i] < 0x100000 by {
        lemma_row_fields_of_pack(Seq::new(4, |j: int| row_left_fields(col_fields(g, j))[i]));
    }
    if forall|j: int|
        0 <= j < 4 ==> #[trigger] row_left_fields(col_fields(g, j)) == col_fields(g, j) {
        assert forall|i: int| 0 <= i < 4 implies #[trigger] ga[i] == g[i] by {
            assert(row_fields(ga[i]) =~= row_fields(g[i]));
            lemma_pack_row_fields(ga[i]);
            lemma_pack_row_fields(g[i]);
        }
        assert(ga =~= g);
    }
    if exists|j: int|
        0 <= j < 4 && #[trigger] row_left_fields(col_fields(g, j)) != col_fields(g, j) {
        let j = choose|j: int|
            0 <= j < 4 && #[trigger] row_left_fields(col_fields(g, j)) != col_fields(g, j);
        assert(!(row_left_fields(col_fields(g, j)) =~= col_fields(g, j)));
        let i = choose|i: int|
            0 <= i < 4 && row_left_fields(col_fields(g, j))[i] != col_fields(g, j)[i];
        assert(row_fields(ga[i])[j] != row_fields(g[i])[j]);
        assert(ga[i] != g[i]);
        assert(ga != g);
    }
}

/// A downward slide changes the board exactly when it changes some column,
/// read in row layout.
pub proof fn lemma_changes_down(g: Seq<u32>)
    requires
        valid_grid(g),
    ensures
        changes(g, Direction::Down) <==> exists|j: int|
            0 <= j < 4 && #[trigger] row_right_fields(col_fields(g, j)) != col_fields(g, j),
{
    assert forall|j: int| 0 <= j < 4 implies row_right_fields(col_fields(g, j)).len() == 4
        && forall|k: int| 0 <= k < 4 ==> #[trigger] row_right_fields(col_fields(g, j))[k] < 32 by {
        assert forall|k: int| 0 <= k < 4 implies #[trigger] col_fields(g, j)[k]
            <= MAX_BLOCK_EXPONENT by {
            lemma_valid_row_field(g[k], j);
        }
        assert forall|k: int| 0 <= k < 4 implies #[trigger] rev4(col_fields(g, j))[k]
            <= MAX_BLOCK_EXPONENT by {
            lemma_valid_row_field(g[3 - k], j);
        }
        lemma_row_left_total(rev4(col_fields(g, j)));
    }
    let ga = grid_after(g, Direction::Down);
    assert forall|i: int| 0 <= i < 4 implies row_fields(#[trigger] ga[i]) == Seq::new(
        4,
        |j: int| row_right_fields(col_fields(g, j))[i],
    ) && ga[i] < 0x100000 by {
        lemma_row_fields_of_pack(Seq::new(4, |j: int| row_right_fields(col_fields(g, j))[i]));
    }
    if forall|j: int|
        0 <= j < 4 ==> #[trigger] row_right_fields(col_fields(g, j)) == col_fields(g, j) {
        assert forall|i: int| 0 <= i < 4 implies #[trigger] ga[i] == g[i] by {
            assert(row_fields(ga[i]) =~= row_fields(g[i]));
            lemma_pack_row_fields(ga[i]);
            lemma_pack_row_fields(g[i]);
        }
        assert(ga =~= g);
    }
    if exists|j: int|
        0 <= j < 4 && #[trigger] row_right_fields(col_fields(g, j)) != col_fields(g, j) {
        let j = choose|j: int|
            0 <= j < 4 && #[trigger] row_right_fields(col_fields(g, j)) != col_fields(g, j);
        assert(!(row_right_fields(col_fields(g, j)) =~= col_fields(g, j)));
        let i = choose|i: int|
            0 <= i < 4 && row_right_fields(col_fields(g, j))[i] != col_fields(g, j)[i];
        assert(row_fields(ga[i])[j] != row_fields(g[i])[j]);
        assert(ga[i] != g[i]);
        assert(ga != g);
    }
}

/// A slide that changes the board leaves at least one empty cell on it:
/// the changed line either merged a pair or closed a gap, and its
/// compacted tiles no longer fill it.
pub proof fn lemma_change_leaves_empty(g: Seq<u32>, d: Direction)
    requires
        valid_grid(g),
        changes(g, d),
    ensures
        exists|i: int, c: int|
            0 <= i < 4 && 0 <= c < 4 && #[trigger] cell_empty(grid_after(g, d), i, c),
{
    let ga = grid_after(g, d);
    match d {
        Direction::Stay => {
            assert(ga == g);
            assert(false);
        },
        Direction::Left => {
            lemma_changes_left(g);
            let i = choose|i: int| 0 <= i < 4 && #[trigger] row_left_u(g[i]) != g[i];
            let f = row_fields(g[i]);
            assert forall|k: int| 0 <= k < 4 implies #[trigger] f[k] <= MAX_BLOCK_EXPONENT by {
                lemma_valid_row_field(g[i], k);
            }
            lemma_row_left_total(f);
            lemma_row_fields_of_pack(row_left_fields(f));
            lemma_pack_row_fields(g[i]);
            if row_left_fields(f) == f {
                assert(row_left_u(g[i]) == g[i]);
            }
            crate::rows::lemma_changed_line_has_empty(f);
            assert(row_fields(ga[i])[3] == 0);
            assert(cell_empty(ga, i, 0));
        },
        Direction::Right => {
            lemma_changes_right(g);
            let i = choose|i: int| 0 <= i < 4 && #[trigger] row_right_u(g[i]) != g[i];
            let f = row_fields(g[i]);
            assert forall|k: int| 0 <= k < 4 implies #[trigger] rev4(f)[k]
                <= MAX_BLOCK_EXPONENT by {
                lemma_valid_row_field(g[i], 3 - k);
            }
            lemma_row_left_total(rev4(f));
            assert forall|k: int| 0 <= k < 4 implies #[trigger] row_right_fields(f)[k] < 32 by {}
            lemma_row_fields_of_pack(row_right_fields(f));
            lemma_pack_row_fields(g[i]);
            if row_left_fields(rev4(f)) == rev4(f) {
                assert(row_right_fields(f) =~= f);
                assert(row_right_u(g[i]) == g[i]);
            }
            crate::rows::lemma_changed_line_has_empty(rev4(f));
            assert(row_left_fields(rev4(f))[3] == 0);
            assert(row_fields(ga[i])[0] == row_right_fields(f)[0]);
            assert(row_right_fields(f)[0] == row_left_fields(rev4(f))[3]);
            assert(cell_empty(ga, i, 3));
        },
        Direction::Up => {
            lemma_changes_up(g);
            let j = choose|j: int|
                0 <= j < 4 && #[trigger] row_left_fields(col_fields(g, j)) != col_fields(g, j);
            let cf = col_fields(g, j);
            assert forall|k: int| 0 <= k < 4 implies #[trigger] cf[k] <= MAX_BLOCK_EXPONENT by {
                lemma_valid_row_field(g[k], j);
            }
            lemma_row_left_total(cf);
            crate::rows::lemma_changed_line_has_empty(cf);
            assert(row_left_fields(cf)[3] == 0);
            let target = Seq::new(4, |jj: int| row_left_fields(col_fields(g, jj))[3]);
            assert forall|k: int| 0 <= k < 4 implies #[trigger] target[k] < 32 by {
                assert forall|kk: int| 0 <= kk < 4 implies #[trigger] col_fields(g, k)[kk]
                    <= MAX_BLOCK_EXPONENT by {
                    lemma_valid_row_field(g[kk], k);
                }
                lemma_row_left_total(col_fields(g, k));
            }
            lemma_row_fields_of_pack(target);
            assert(row_fields(ga[3])[j] == 0);
            assert(cell_empty(ga, 3, 3 - j));
        },
        Direction::Down => {
            lemma_changes_down(g);
            let j = choose|j: int|
                0 <= j < 4 && #[trigger] row_right_fields(col_fields(g, j)) != col_fields(g, j);
            let cf = col_fields(g, j);
            assert forall|k: int| 0 <= k < 4 implies #[trigger] cf[k] <= MAX_BLOCK_EXPONENT by {
                lemma_valid_row_field(g[k], j);
            }
            assert forall|k: int| 0 <= k < 4 implies #[trigger] rev4(cf)[k]
                <= MAX_BLOCK_EXPONENT by {}
            lemma_row_left_total(rev4(cf));
            if row_left_fields(rev4(cf)) == rev4(cf) {
                assert(row_right_fields(cf) =~= cf);
            }
            crate::rows::lemma_changed_line_has_empty(rev4(cf));
            assert(row_left_fields(rev4(cf))[3] == 0);
            assert(row_right_fields(cf)[0] == row_left_fields(rev4(cf))[3]);
            let target = Seq::new(4, |jj: int| row_right_fields(col_fields(g, jj))[0]);
            assert forall|k: int| 0 <= k < 4 implies #[trigger] target[k] < 32 by {
                assert forall|kk: int| 0 <= kk < 4 implies #[trigger] col_fields(g, k)[kk]
                    <= MAX_BLOCK_EXPONENT by {
                    lemma_valid_row_field(g[kk], k);
                }
                assert forall|kk: int| 0 <= kk < 4 implies #[trigger] rev4(col_fields(g, k))[kk]
                    <= MAX_BLOCK_EXPONENT by {}
                lemma_row_left_total(rev4(col_fields(g, k)));
            }
            lemma_row_fields_of_pack(target);
            assert(row_fields(ga[0])[j] == 0);
            assert(cell_empty(ga, 0, 3 - j));
        },
    }
}

/// The engine: the precomputed table of every left row move, total over
/// all rows whose four exponents are at most `MAX_BLOCK_EXPONENT`. Built
/// once, never mutated afterwards.
pub struct FastGame {
    table: Vec<RowMove>,
}

impl FastGame {
    /// The table is fully built and correct: it stores, for every valid
    /// row, exactly the outcome of the direct slide-and-merge simulation.
    pub closed spec fn wf(&self) -> bool {
        &&& self.table@.len() == TABLE_SIZE
        &&& forall|r: u32|
            #[trigger] valid_row(r) ==> entry_ok(self.table@[r as int], r)
    }

    /// Decides `valid_row` executably.
    fn valid_row_x(row: u32) -> (r: bool)
        ensures
            r == valid_row(row),
    {
        proof {
            lemma_row_field_unfold(row);
        }
        row < 0x100000 && (row >> 15u32) & 0x1F <= MAX_BLOCK_EXPONENT && (row >> 10u32) & 0x1F
            <= MAX_BLOCK_EXPONENT && (row >> 5u32) & 0x1F <= MAX_BLOCK_EXPONENT && (row >> 0u32)
            & 0x1F <= MAX_BLOCK_EXPONENT
    }

    /// Simulates one left slide of a row directly: compact the nonzero
    /// exponents to the left, run one strict greedy merge pass, pad with
    /// zeros, and report the packed result, the change bit and the score.
    fn compute_move_left(row: u32) -> (r: RowMove)
        requires
            valid_row(row),
        ensures
            entry_ok(r, row),
    {
        let f: [u32; 4] = [
            (row >> 15u32) & 0x1F,
            (row >> 10u32) & 0x1F,
            (row >> 5u32) & 0x1F,
            (row >> 0u32) & 0x1F,
        ];
        proof {
            lemma_row_field_unfold(row);
            assert(f@ =~= row_fields(row));
            assert(forall|k: int| 0 <= k < 4 ==> #[trigger] row_fields(row)[k]
                <= MAX_BLOCK_EXPONENT);
        }
        let mut nz: Vec<u32> = Vec::new();
        let mut i: usize = 0;
        while i < 4
            invariant
                i <= 4,
                f@.len() == 4,
                f@ == row_fields(row),
                nz@ == nonzeros(f@.take(i as int)),
            decreases 4 - i,
        {
            proof {
                assert(f@.take(i as int + 1) =~= f@.take(i as int).push(f@[i as int]));
                lemma_nonzeros_push(f@.take(i as int), f@[i as int]);
            }
            if f[i] != 0 {
                nz.push(f[i]);
            }
            i += 1;
        }
        proof {
            assert(f@.take(4) =~= f@);
            lemma_nonzeros_props(row_fields(row), MAX_BLOCK_EXPONENT);
        }
        let ghost nzs = nz@;
        proof {
            lemma_merged_props(nzs, MAX_BLOCK_EXPONENT);
            lemma2_to64();
            assert(pow2(18) == 0x40000);
            assert(tile_val((MAX_BLOCK_EXPONENT + 1) as u32) == 0x40000);
            assert(2 * merged_score(nzs) <= nzs.len() * 0x40000);
            assert(2 * merged_score(nzs) <= 4 * 0x40000);
            assert(nzs.skip(0) =~= nzs);
        }
        let mut out: Vec<u32> = Vec::new();
        let mut score: u32 = 0;
        let mut i: usize = 0;
        while i < nz.len()
            invariant
                nz@ == nzs,
                i <= nzs.len(),
                nzs.len() <= 4,
                forall|k: int| 0 <= k < nzs.len() ==> 0 < #[trigger] nzs[k] <= MAX_BLOCK_EXPONENT,
                out@ + merged(nzs.skip(i as int)) == merged(nzs),
                score as int + merged_score(nzs.skip(i as int)) == merged_score(nzs),
                0 <= merged_score(nzs.skip(i as int)),
                merged_score(nzs) <= 0x80000,
                forall|k: int| 0 <= k < out@.len() ==> #[trigger] out@[k] < 32,
            decreases nzs.len() - i,
        {
            let ghost t = nzs.skip(i as int);
            proof {
                assert(t[0] == nzs[i as int]);
                assert(forall|k: int| 0 <= k < t.len() ==> #[trigger] t[k] == nzs[i as int + k]);
            }
            let e = nz[i];
            if i + 1 < nz.len() && nz[i + 1] == e {
                proof {
                    assert(t.len() >= 2 && t[1] == t[0]);
                    assert(merged(t) == seq![(t[0] + 1) as u32] + merged(t.skip(2)));
                    assert(merged_score(t) == 2 * pow2(t[0] as nat) + merged_score(t.skip(2)));
                    assert(t.skip(2) =~= nzs.skip(i as int + 2));
                    assert(forall|k: int|
                        0 <= k < nzs.skip(i as int + 2).len() ==> 0 < #[trigger] nzs.skip(
                            i as int + 2,
                        )[k] <= MAX_BLOCK_EXPONENT);
                    lemma_merged_props(nzs.skip(i as int + 2), MAX_BLOCK_EXPONENT);
                    lemma_pow2_adds(e as nat, 1);
                    lemma2_to64();
                    assert(pow2((e + 1) as nat) == 2 * pow2(e as nat));
                    assert(1u32 * pow2((e + 1) as nat) <= u32::MAX);
                    lemma_u32_shl_is_mul(1u32, (e + 1) as u32);
                    assert((1u32 << ((e + 1) as u32)) as int == 2 * pow2(e as nat));
                    assert((out@ + merged(nzs.skip(i as int))) =~= (out@.push((t[0] + 1) as u32))
                        + merged(nzs.skip(i as int + 2)));
                }
                out.push(e + 1);
                score = score + (1u32 << ((e + 1) as u32));
                i = i + 2;
            } else {
                proof {
                    assert(!(t.len() >= 2 && t[0] == t[1]));
                    assert(merged(t) == seq![t[0]] + merged(t.skip(1)));
                    assert(merged_score(t) == merged_score(t.skip(1)));
                    assert(t.skip(1) =~= nzs.skip(i as int + 1));
                    assert((out@ + merged(nzs.skip(i as int))) =~= (out@.push(t[0])) + merged(
                        nzs.skip(i as int + 1),
                    ));
                }
                out.push(e);
                i = i + 1;
            }
        }
        proof {
            assert(nzs.skip(nzs.len() as int) =~= Seq::<u32>::empty());
            assert(merged(Seq::<u32>::empty()) =~= Seq::<u32>::empty());
            assert(out@ + Seq::<u32>::empty() =~= out@);
            assert(out@ == merged(nzs));
            assert(score as int == merged_score(nzs));
        }
        let ghost m = merged(nzs);
        proof {
            assert(zero_pad(m, m.len()) =~= m);
        }
        while out.len() < 4
            invariant
                m.len() <= out@.len() <= 4,
                out@ == zero_pad(m, out@.len() as nat),
                forall|k: int| 0 <= k < out@.len() ==> #[trigger] out@[k] < 32,
            decreases 4 - out.len(),
        {
            proof {
                assert(zero_pad(m, (out@.len() + 1) as nat) =~= out@.push(0u32));
            }
            out.push(0);
        }
        let a = out[0];
        let b = out[1];
        let c = out[2];
        let d = out[3];
        let new_row = (a << 15u32) | (b << 10u32) | (c << 5u32) | d;
        proof {
            lemma_pack_fields(a, b, c, d);
            lemma_row_field_unfold(new_row);
            assert(row_fields(new_row) =~= out@);
            assert(out@ == row_left_fields(row_fields(row)));
        }
        let changed = new_row != row;
        RowMove { new_state: new_row, changed: changed, score: score }
    }

    /// Builds the engine by filling the move table for every valid row;
    /// other indices keep an inert identity entry.
    pub fn new() -> (r: FastGame)
        ensures
            r.wf(),
    {
        let mut table: Vec<RowMove> = Vec::new();
        let mut idx: usize = 0;
        while idx < TABLE_SIZE
            invariant
                table@.len() == idx as int,
                idx <= TABLE_SIZE,
                forall|r: u32|
                    #[trigger] valid_row(r) && (r as int) < (idx as int) ==> entry_ok(
                        table@[r as int],
                        r,
                    ),
            decreases TABLE_SIZE - idx,
        {
            let row = idx as u32;
            let e = if Self::valid_row_x(row) {
                Self::compute_move_left(row)
            } else {
                RowMove { new_state: row, changed: false, score: 0 }
            };
            table.push(e);
            idx += 1;
        }
        proof {
            assert forall|r: u32| #[trigger] valid_row(r) implies entry_ok(table@[r as int], r) by {
                lemma_row_field_unfold(r);
                lemma_valid_row_lt_table(r);
            }
        }
        FastGame { table }
    }

    /// Left slide of one row: a single table lookup.
    fn move_row_left(&self, row: u32) -> (r: (u32, u32))
        requires
            self.wf(),
            valid_row(row),
        ensures
            r.0 == row_left_u(row),
            r.0 < 0x100000,
            row_fields(r.0) == row_left_fields(row_fields(row)),
            r.1 as int == row_left_score(row_fields(row)),
            r.1 <= 0x80000,
    {
        proof {
            lemma_row_field_unfold(row);
            lemma_valid_row_lt_table(row);
        }
        let e = self.table[row as usize];
        proof {
            assert(entry_ok(e, row));
            lemma_pack_row_fields(e.new_state);
        }
        (e.new_state, e.score)
    }

    /// Reverses the four fields of a row.
    fn reverse_row(row: u32) -> (r: u32)
        requires
            row < 0x100000,
        ensures
            r < 0x100000,
            row_fields(r) == rev4(row_fields(row)),
            valid_row(row) ==> valid_row(r),
    {
        let a = (row >> 15u32) & 0x1F;
        let b = (row >> 10u32) & 0x1F;
        let c = (row >> 5u32) & 0x1F;
        let d = (row >> 0u32) & 0x1F;
        let r2 = (d << 15u32) | (c << 10u32) | (b << 5u32) | a;
        proof {
            lemma_row_field_unfold(row);
            lemma_field_bounds(row);
            lemma_pack_fields(d, c, b, a);
            lemma_row_field_unfold(r2);
            assert(row_fields(r2) =~= rev4(row_fields(row)));
        }
        r2
    }

    /// Right slide of one row: reverse, slide left via the table, reverse
    /// back, so the table covers both directions.
    fn move_row_right(&self, row: u32) -> (r: (u32, u32))
        requires
            self.wf(),
            valid_row(row),
        ensures
            r.0 == row_right_u(row),
            r.0 < 0x100000,
            row_fields(r.0) == row_right_fields(row_fields(row)),
            r.1 as int == row_right_score(row_fields(row)),
            r.1 <= 0x80000,
    {
        let rev = Self::reverse_row(row);
        let (moved, score) = self.move_row_left(rev);
        let res = Self::reverse_row(moved);
        proof {
            assert(row_fields(res) =~= row_right_fields(row_fields(row)));
            lemma_pack_row_fields(res);
        }
        (res, score)
    }

    /// Slides the whole board left; returns the new board and the summed
    /// row scores.
    pub fn move_grid_left(&self, grid: &[u32; 4]) -> (r: ([u32; 4], u32))
        requires
            self.wf(),
            valid_grid(grid@),
        ensures
            r.0@ == grid_after(grid@, Direction::Left),
            r.1 as int == move_score_spec(grid@, Direction::Left),
            r.1 <= 0x200000,
    {
        let (n0, s0) = self.move_row_left(grid[0]);
        let (n1, s1) = self.move_row_left(grid[1]);
        let (n2, s2) = self.move_row_left(grid[2]);
        let (n3, s3) = self.move_row_left(grid[3]);
        let out: [u32; 4] = [n0, n1, n2, n3];
        proof {
            assert(out@ =~= grid_after(grid@, Direction::Left));
        }
        (out, s0 + s1 + s2 + s3)
    }

    /// Slides the whole board right; `Right` on each row is `Left` on the
    /// reversed row, reversed back.
    pub fn move_grid_right(&self, grid: &[u32; 4]) -> (r: ([u32; 4], u32))
        requires
            self.wf(),
            valid_grid(grid@),
        ensures
            r.0@ == grid_after(grid@, Direction::Right),
            r.1 as int == move_score_spec(grid@, Direction::Right),
            r.1 <= 0x200000,
            forall|i: int|
                0 <= i < 4 ==> row_fields(#[trigger] r.0@[i]) == rev4(
                    row_left_fields(rev4(row_fields(grid@[i]))),
                ),
    {
        let (n0, s0) = self.move_row_right(grid[0]);
        let (n1, s1) = self.move_row_right(grid[1]);
        let (n2, s2) = self.move_row_right(grid[2]);
        let (n3, s3) = self.move_row_right(grid[3]);
        let out: [u32; 4] = [n0, n1, n2, n3];
        proof {
            assert(out@ =~= grid_after(grid@, Direction::Right));
        }
        (out, s0 + s1 + s2 + s3)
    }

    /// Writes `v` into display field `j` of a packed row.
    fn set_field(row: u32, j: usize, v: u32) -> (r: u32)
        requires
            j < 4,
            v < 32,
            row < 0x100000,
        ensures
            r < 0x100000,
            row_field(r, j as int) == v,
            forall|k: int| 0 <= k < 4 && k != j ==> #[trigger] row_field(r, k) == row_field(row, k),
    {
        let sh = ((3 - j) * 5) as u32;
        let r = (row & !(0x1Fu32 << sh)) | (v << sh);
        proof {
            let c = (3 - j) as u32;
            lemma_clear_set_field(row, c, v, 0);
            lemma_clear_set_field(row, c, v, 1);
            lemma_clear_set_field(row, c, v, 2);
            lemma_clear_set_field(row, c, v, 3);
            lemma_row_field_unfold(r);
            lemma_row_field_unfold(row);
            assert forall|k: int| 0 <= k < 4 && k != j implies #[trigger] row_field(r, k)
                == row_field(row, k) by {
                if k == 0 {
                } else if k == 1 {
                } else if k == 2 {
                } else {
                }
            }
        }
        r
    }

    /// Transposes column `col` into row layout: field `i` of the result is
    /// row `i`'s entry in that column.
    fn extract_column(grid: &[u32; 4], col: usize) -> (r: u32)
        requires
            col < 4,
            forall|i: int| 0 <= i < 4 ==> #[trigger] grid@[i] < 0x100000,
        ensures
            r < 0x100000,
            row_fields(r) == col_fields(grid@, col as int),
            valid_grid(grid@) ==> valid_row(r),
    {
        let sh = ((3 - col) * 5) as u32;
        let c0 = (grid[0] >> sh) & 0x1F;
        let c1 = (grid[1] >> sh) & 0x1F;
        let c2 = (grid[2] >> sh) & 0x1F;
        let c3 = (grid[3] >> sh) & 0x1F;
        let r = (c0 << 15u32) | (c1 << 10u32) | (c2 << 5u32) | c3;
        proof {
            lemma_field5_bound(grid@[0], sh);
            lemma_field5_bound(grid@[1], sh);
            lemma_field5_bound(grid@[2], sh);
            lemma_field5_bound(grid@[3], sh);
            lemma_pack_fields(c0, c1, c2, c3);
            lemma_row_field_unfold(r);
            assert(row_fields(r) =~= col_fields(grid@, col as int));
            if valid_grid(grid@) {
                lemma_valid_row_field(grid@[0], col as int);
                lemma_valid_row_field(grid@[1], col as int);
                lemma_valid_row_field(grid@[2], col as int);
                lemma_valid_row_field(grid@[3], col as int);
            }
        }
        r
    }

    /// Writes a column, given in row layout, back into display column
    /// `col` of the board; all other columns stay.
    fn update_column(grid: &mut [u32; 4], col: usize, column: u32)
        requires
            col < 4,
            forall|i: int| 0 <= i < 4 ==> #[trigger] old(grid)@[i] < 0x100000,
            column < 0x100000,
        ensures
            forall|i: int| 0 <= i < 4 ==> #[trigger] final(grid)@[i] < 0x100000,
            forall|i: int|
                0 <= i < 4 ==> row_field(#[trigger] final(grid)@[i], col as int) == row_field(
                    column,
                    i,
                ),
            forall|i: int, j: int|
                0 <= i < 4 && 0 <= j < 4 && j != col ==> #[trigger] row_field(final(grid)@[i], j)
                    == row_field(old(grid)@[i], j),
    {
        proof {
            lemma_row_field_unfold(column);
            lemma_field_bounds(column);
        }
        let v0 = (column >> 15u32) & 0x1F;
        let v1 = (column >> 10u32) & 0x1F;
        let v2 = (column >> 5u32) & 0x1F;
        let v3 = (column >> 0u32) & 0x1F;
        grid[0] = Self::set_field(grid[0], col, v0);
        grid[1] = Self::set_field(grid[1], col, v1);
        grid[2] = Self::set_field(grid[2], col, v2);
        grid[3] = Self::set_field(grid[3], col, v3);
    }

    /// Slides the whole board upward: each column is transposed into row
    /// layout, slid left through the table, and written back.
    pub fn move_grid_up(&self, grid: &[u32; 4]) -> (r: ([u32; 4], u32))
        requires
            self.wf(),
            valid_grid(grid@),
        ensures
            r.0@ == grid_after(grid@, Direction::Up),
            r.1 as int == move_score_spec(grid@, Direction::Up),
            r.1 <= 0x200000,
    {
        let mut new_grid: [u32; 4] = [0, 0, 0, 0];
        let mut score: u32 = 0;
        let mut j: usize = 0;
        while j < 4
            invariant
                self.wf(),
                valid_grid(grid@),
                j <= 4,
                forall|i: int| 0 <= i < 4 ==> #[trigger] new_grid@[i] < 0x100000,
                forall|i: int, jj: int|
                    0 <= i < 4 && 0 <= jj < j ==> #[trigger] row_field(new_grid@[i], jj)
                        == row_left_fields(col_fields(grid@, jj))[i],
                score as int == up_score_prefix(grid@, j as int),
                score as int <= 0x80000 * (j as int),
            decreases 4 - j,
        {
            let column = Self::extract_column(grid, j);
            let (nc, cs) = self.move_row_left(column);
            Self::update_column(&mut new_grid, j, nc);
            score = score + cs;
            j += 1;
        }
        proof {
            assert forall|i: int| 0 <= i < 4 implies #[trigger] new_grid@[i] == grid_after(
                grid@,
                Direction::Up,
            )[i] by {
                let target = Seq::new(4, |jj: int| row_left_fields(col_fields(grid@, jj))[i]);
                assert(row_fields(new_grid@[i]) =~= target);
                lemma_pack_row_fields(new_grid@[i]);
            }
            assert(new_grid@ =~= grid_after(grid@, Direction::Up));
            assert(up_score_prefix(grid@, 4) == up_score_prefix(grid@, 3) + row_left_score(
                col_fields(grid@, 3),
            ));
            assert(up_score_prefix(grid@, 3) == up_score_prefix(grid@, 2) + row_left_score(
                col_fields(grid@, 2),
            ));
            assert(up_score_prefix(grid@, 2) == up_score_prefix(grid@, 1) + row_left_score(
                col_fields(grid@, 1),
            ));
            assert(up_score_prefix(grid@, 1) == up_score_prefix(grid@, 0) + row_left_score(
                col_fields(grid@, 0),
            ));
            assert(up_score_prefix(grid@, 0) == 0);
        }
        (new_grid, score)
    }

    /// Slides the whole board downward: `Down` on a column is `Up` on the
    /// reversed column, reversed back.
    pub fn move_grid_down(&self, grid: &[u32; 4]) -> (r: ([u32; 4], u32))
        requires
            self.wf(),
            valid_grid(grid@),
        ensures
            r.0@ == grid_after(grid@, Direction::Down),
            r.1 as int == move_score_spec(grid@, Direction::Down),
            r.1 <= 0x200000,
    {
        let mut new_grid: [u32; 4] = [0, 0, 0, 0];
        let mut score: u32 = 0;
        let mut j: usize = 0;
        while j < 4
            invariant
                self.wf(),
                valid_grid(grid@),
                j <= 4,
                forall|i: int| 0 <= i < 4 ==> #[trigger] new_grid@[i] < 0x100000,
                forall|i: int, jj: int|
                    0 <= i < 4 && 0 <= jj < j ==> #[trigger] row_field(new_grid@[i], jj)
                        == row_right_fields(col_fields(grid@, jj))[i],
                score as int == down_score_prefix(grid@, j as int),
                score as int <= 0x80000 * (j as int),
            decreases 4 - j,
        {
            let column = Self::extract_column(grid, j);
            let (nc, cs) = self.move_row_right(column);
            Self::update_column(&mut new_grid, j, nc);
            score = score + cs;
            j += 1;
        }
        proof {
            assert forall|i: int| 0 <= i < 4 implies #[trigger] new_grid@[i] == grid_after(
                grid@,
                Direction::Down,
            )[i] by {
                let target = Seq::new(4, |jj: int| row_right_fields(col_fields(grid@, jj))[i]);
                assert(row_fields(new_grid@[i]) =~= target);
                lemma_pack_row_fields(new_grid@[i]);
            }
            assert(new_grid@ =~= grid_after(grid@, Direction::Down));
            assert(down_score_prefix(grid@, 4) == down_score_prefix(grid@, 3) + row_right_score(
                col_fields(grid@, 3),
            ));
            assert(down_score_prefix(grid@, 3) == down_score_prefix(grid@, 2) + row_right_score(
                col_fields(grid@, 2),
            ));
            assert(down_score_prefix(grid@, 2) == down_score_prefix(grid@, 1) + row_right_score(
                col_fields(grid@, 1),
            ));
            assert(down_score_prefix(grid@, 1) == down_score_prefix(grid@, 0) + row_right_score(
                col_fields(grid@, 0),
            ));
            assert(down_score_prefix(grid@, 0) == 0);
        }
        (new_grid, score)
    }

    /// The table's change bit for one row: does a left slide change it?
    fn row_changed_left(&self, row: u32) -> (r: bool)
        requires
            self.wf(),
            valid_row(row),
        ensures
            r == (row_left_u(row) != row),
    {
        proof {
            lemma_row_field_unfold(row);
            lemma_valid_row_lt_table(row);
        }
        let e = self.table[row as usize];
        proof {
            assert(entry_ok(e, row));
            lemma_pack_row_fields(e.new_state);
        }
        e.changed
    }

    /// Does a right slide change this row? Checked through the table on
    /// the reversed row.
    fn row_changed_right(&self, row: u32) -> (r: bool)
        requires
            self.wf(),
            valid_row(row),
        ensures
            r == (row_right_u(row) != row),
    {
        let rev = Self::reverse_row(row);
        let ch = self.row_changed_left(rev);
        proof {
            let f = row_fields(row);
            let rf = rev4(f);
            assert(row_fields(rev) == rf);
            assert forall|k: int| 0 <= k < 4 implies #[trigger] rf[k] <= MAX_BLOCK_EXPONENT by {
                lemma_valid_row_field(row, 3 - k);
            }
            lemma_row_left_total(rf);
            let l = row_left_fields(rf);
            lemma_row_fields_of_pack(l);
            assert forall|k: int| 0 <= k < 4 implies #[trigger] rev4(l)[k] < 32 by {}
            lemma_row_fields_of_pack(rev4(l));
            lemma_pack_row_fields(rev);
            lemma_pack_row_fields(row);
            assert(row_left_u(rev) == pack_row(l));
            assert(row_right_u(row) == pack_row(rev4(l)));
            if pack_row(l) == rev {
                assert(l == row_fields(rev));
                assert(rev4(l) =~= f);
                assert(pack_row(rev4(l)) == row);
            }
            if pack_row(rev4(l)) == row {
                assert(rev4(l) == row_fields(row));
                assert(l =~= rf);
                assert(pack_row(l) == rev);
            }
        }
        ch
    }

    /// Can a left slide change the board? Four change bits, no board
    /// materialized.
    fn can_go_left(&self, grid: &[u32; 4]) -> (r: bool)
        requires
            self.wf(),
            valid_grid(grid@),
        ensures
            r == changes(grid@, Direction::Left),
    {
        let mut i: usize = 0;
        while i < 4
            invariant
                self.wf(),
                valid_grid(grid@),
                i <= 4,
                forall|k: int| 0 <= k < i ==> #[trigger] row_left_u(grid@[k]) == grid@[k],
            decreases 4 - i,
        {
            if self.row_changed_left(grid[i]) {
                proof {
                    lemma_changes_left(grid@);
                }
                return true;
            }
            i += 1;
        }
        proof {
            lemma_changes_left(grid@);
        }
        false
    }

    /// Can a right slide change the board?
    fn can_go_right(&self, grid: &[u32; 4]) -> (r: bool)
        requires
            self.wf(),
            valid_grid(grid@),
        ensures
            r == changes(grid@, Direction::Right),
    {
        let mut i: usize = 0;
        while i < 4
            invariant
                self.wf(),
                valid_grid(grid@),
                i <= 4,
                forall|k: int| 0 <= k < i ==> #[trigger] row_right_u(grid@[k]) == grid@[k],
            decreases 4 - i,
        {
            if self.row_changed_right(grid[i]) {
                proof {
                    lemma_changes_right(grid@);
                }
                return true;
            }
            i += 1;
        }
        proof {
            lemma_changes_right(grid@);
        }
        false
    }

    /// Can an upward slide change the board? Checked per column.
    fn can_go_up(&self, grid: &[u32; 4]) -> (r: bool)
        requires
            self.wf(),
            valid_grid(grid@),
        ensures
            r == changes(grid@, Direction::Up),
    {
        let mut j: usize = 0;
        while j < 4
            invariant
                self.wf(),
                valid_grid(grid@),
                j <= 4,
                forall|k: int|
                    0 <= k < j ==> #[trigger] row_left_fields(col_fields(grid@, k)) == col_fields(
                        grid@,
                        k,
                    ),
            decreases 4 - j,
        {
            let column = Self::extract_column(grid, j);
            let ghost cf = col_fields(grid@, j as int);
            proof {
                lemma_pack_row_fields(column);
                assert(pack_row(cf) == column);
            }
            if self.row_changed_left(column) {
                proof {
                    assert(row_left_u(column) == pack_row(row_left_fields(cf)));
                    if row_left_fields(cf) == cf {
                        assert(row_left_u(column) == column);
                    }
                    lemma_changes_up(grid@);
                }
                return true;
            }
            proof {
                assert(row_left_u(column) == column);
                assert forall|k: int| 0 <= k < 4 implies #[trigger] cf[k] <= MAX_BLOCK_EXPONENT by {
                    lemma_valid_row_field(grid@[k], j as int);
                }
                lemma_row_left_total(cf);
                lemma_row_fields_of_pack(row_left_fields(cf));
                assert(row_left_fields(cf) == row_fields(row_left_u(column)));
                assert(row_left_fields(cf) == cf);
            }
            j += 1;
        }
        proof {
            lemma_changes_up(grid@);
        }
        false
    }

    /// Can a downward slide change the board? Checked per column through
    /// the reversed column.
    fn can_go_down(&self, grid: &[u32; 4]) -> (r: bool)
        requires
            self.wf(),
            valid_grid(grid@),
        ensures
            r == changes(grid@, Direction::Down),
    {
        let mut j: usize = 0;
        while j < 4
            invariant
                self.wf(),
                valid_grid(grid@),
                j <= 4,
                forall|k: int|
                    0 <= k < j ==> #[trigger] row_right_fields(col_fields(grid@, k)) == col_fields(
                        grid@,
                        k,
                    ),
            decreases 4 - j,
        {
            let column = Self::extract_column(grid, j);
            let ghost cf = col_fields(grid@, j as int);
            proof {
                lemma_pack_row_fields(column);
                assert(pack_row(cf) == column);
            }
            if self.row_changed_right(column) {
                proof {
                    assert(row_right_u(column) == pack_row(row_right_fields(cf)));
                    if row_right_fields(cf) == cf {
                        assert(row_right_u(column) == column);
                    }
                    lemma_changes_down(grid@);
                }
                return true;
            }
            proof {
                assert(row_right_u(column) == column);
                assert forall|k: int| 0 <= k < 4 implies #[trigger] cf[k] <= MAX_BLOCK_EXPONENT by {
                    lemma_valid_row_field(grid@[k], j as int);
                }
                assert forall|k: int| 0 <= k < 4 implies #[trigger] rev4(cf)[k]
                    <= MAX_BLOCK_EXPONENT by {}
                lemma_row_left_total(rev4(cf));
                assert forall|k: int| 0 <= k < 4 implies #[trigger] row_right_fields(cf)[k]
                    < 32 by {}
                lemma_row_fields_of_pack(row_right_fields(cf));
                assert(row_right_fields(cf) == row_fields(row_right_u(column)));
                assert(row_right_fields(cf) == cf);
            }
            j += 1;
        }
        proof {
            lemma_changes_down(grid@);
        }
        false
    }

    /// The board is lost exactly when no direction changes it.
    pub fn is_lost(&self, grid: &[u32; 4]) -> (r: bool)
        requires
            self.wf(),
            valid_grid(grid@),
        ensures
            r == lost(grid@),
    {
        !(self.can_go_left(grid) || self.can_go_right(grid) || self.can_go_up(grid)
            || self.can_go_down(grid))
    }

    /// The directions that change the board, in the fixed enumeration
    /// order left, down, right, up; empty exactly on lost boards.
    pub fn get_possible_directions(&self, grid: &[u32; 4]) -> (r: Vec<Direction>)
        requires
            self.wf(),
            valid_grid(grid@),
        ensures
            r@ == possible_dirs(grid@),
            forall|d: Direction| #[trigger]
                r@.contains(d) <==> (d != Direction::Stay && changes(grid@, d)),
            (r@.len() == 0) <==> lost(grid@),
            r@.no_duplicates(),
    {
        let ghost p1 = if changes(grid@, Direction::Left) {
            seq![Direction::Left]
        } else {
            Seq::<Direction>::empty()
        };
        let ghost p2 = if changes(grid@, Direction::Down) {
            seq![Direction::Down]
        } else {
            Seq::<Direction>::empty()
        };
        let ghost p3 = if changes(grid@, Direction::Right) {
            seq![Direction::Right]
        } else {
            Seq::<Direction>::empty()
        };
        let ghost p4 = if changes(grid@, Direction::Up) {
            seq![Direction::Up]
        } else {
            Seq::<Direction>::empty()
        };
        let mut directions: Vec<Direction> = Vec::new();
        if self.can_go_left(grid) {
            directions.push(Direction::Left);
        }
        proof {
            assert(directions@ =~= p1);
        }
        if self.can_go_down(grid) {
            directions.push(Direction::Down);
        }
        proof {
            assert(directions@ =~= p1 + p2);
        }
        if self.can_go_right(grid) {
            directions.push(Direction::Right);
        }
        proof {
            assert(directions@ =~= (p1 + p2) + p3);
        }
        if self.can_go_up(grid) {
            directions.push(Direction::Up);
        }
        proof {
            assert(directions@ =~= ((p1 + p2) + p3) + p4);
            assert(possible_dirs(grid@) == ((p1 + p2) + p3) + p4);
            lemma_possible_dirs_iff(grid@);
        }
        directions
    }

    /// Applies one direction: the board after the slide and the score it
    /// gained. `Stay` is a no-op returning the board unchanged with score
    /// zero.
    pub fn make_move(&self, grid: &[u32; 4], direction: &Direction) -> (r: ([u32; 4], u32))
        requires
            self.wf(),
            valid_grid(grid@),
        ensures
            r.0@ == grid_after(grid@, *direction),
            r.1 as int == move_score_spec(grid@, *direction),
            r.1 <= 0x200000,
    {
        match direction {
            Direction::Left => self.move_grid_left(grid),
            Direction::Right => self.move_grid_right(grid),
            Direction::Up => self.move_grid_up(grid),
            Direction::Down => self.move_grid_down(grid),
            Direction::Stay => (*grid, 0),
        }
    }

    /// Lists every empty cell as `(row, field)`, the field counted from
    /// the low bits of the row as `place_block` expects, rows ascending.
    pub fn empty_list(grid: &[u32; 4]) -> (r: Vec<(usize, usize)>)
        ensures
            forall|p: (usize, usize)| #[trigger]
                r@.contains(p) <==> (p.0 < 4 && p.1 < 4 && cell_empty(
                    grid@,
                    p.0 as int,
                    p.1 as int,
                )),
            forall|k1: int, k2: int| 0 <= k1 < k2 < r@.len() ==> r@[k1] != r@[k2],
            forall|k1: int, k2: int|
                0 <= k1 < k2 < r@.len() ==> (r@[k1].0 as int) * 4 + r@[k1].1 < (r@[k2].0 as int)
                    * 4 + r@[k2].1,
            r@.len() <= 16,
            r@.len() as int == empty_count_from(grid@, 0),
    {
        let mut empty: Vec<(usize, usize)> = Vec::new();
        let mut i: usize = 0;
        while i < 4
            invariant
                i <= 4,
                forall|p: (usize, usize)| #[trigger]
                    empty@.contains(p) <==> (p.0 < i && p.1 < 4 && cell_empty(
                        grid@,
                        p.0 as int,
                        p.1 as int,
                    )),
                forall|k1: int, k2: int| 0 <= k1 < k2 < empty@.len() ==> empty@[k1] != empty@[k2],
                forall|k1: int, k2: int|
                    0 <= k1 < k2 < empty@.len() ==> (empty@[k1].0 as int) * 4 + empty@[k1].1 < (
                    empty@[k2].0 as int) * 4 + empty@[k2].1,
                forall|k1: int|
                    0 <= k1 < empty@.len() ==> (#[trigger] empty@[k1].0 as int) * 4 + empty@[k1].1
                        < 4 * i,
                empty@.len() <= 4 * i,
                empty@.len() as int + empty_count_from(grid@, 4 * i) == empty_count_from(grid@, 0),
            decreases 4 - i,
        {
            let mut c: usize = 0;
            while c < 4
                invariant
                    i < 4,
                    c <= 4,
                    forall|p: (usize, usize)| #[trigger]
                        empty@.contains(p) <==> (((p.0 < i && p.1 < 4) || (p.0 == i && p.1 < c))
                            && cell_empty(grid@, p.0 as int, p.1 as int)),
                    forall|k1: int, k2: int|
                        0 <= k1 < k2 < empty@.len() ==> empty@[k1] != empty@[k2],
                    forall|k1: int, k2: int|
                        0 <= k1 < k2 < empty@.len() ==> (empty@[k1].0 as int) * 4 + empty@[k1].1
                            < (empty@[k2].0 as int) * 4 + empty@[k2].1,
                    forall|k1: int|
                        0 <= k1 < empty@.len() ==> (#[trigger] empty@[k1].0 as int) * 4
                            + empty@[k1].1 < 4 * i + c,
                    empty@.len() <= 4 * i + c,
                    empty@.len() as int + empty_count_from(grid@, 4 * i + c) == empty_count_from(
                        grid@,
                        0,
                    ),
                decreases 4 - c,
            {
                let ghost old_seq = empty@;
                if (grid[i] >> ((5 * c) as u32)) & 0x1F == 0 {
                    proof {
                        assert(cell_empty(grid@, i as int, c as int));
                    }
                    empty.push((i, c));
                    proof {
                        assert forall|p: (usize, usize)| #[trigger]
                            empty@.contains(p) <==> (old_seq.contains(p) || p == (
                            i,
                            c,
                        )) by {
                            lemma_push_contains(old_seq, (i, c), p);
                        }
                        assert(!old_seq.contains((i, c)));
                    }
                } else {
                    proof {
                        assert(!cell_empty(grid@, i as int, c as int));
                    }
                }
                c += 1;
            }
            i += 1;
        }
        empty
    }

    /// Writes a tile of exponent `value` into the given empty cell; the
    /// cell's second coordinate counts fields from the row's low bits. The
    /// caller guarantees the cell is empty.
    pub fn place_block(&self, grid: [u32; 4], pos: (usize, usize), value: u32) -> (r: [u32; 4])
        requires
            valid_grid(grid@),
            pos.0 < 4,
            pos.1 < 4,
            1 <= value <= MAX_BLOCK_EXPONENT,
            cell_empty(grid@, pos.0 as int, pos.1 as int),
        ensures
            r@ == place_spec(grid@, pos.0 as int, pos.1 as int, value),
            valid_grid(r@),
            grid_sum(r@) == grid_sum(grid@) + tile_val(value),
            row_field(r@[pos.0 as int], 3 - pos.1 as int) == value,
            forall|i: int, j: int|
                0 <= i < 4 && 0 <= j < 4 && !(i == pos.0 as int && j == 3 - pos.1 as int)
                    ==> #[trigger] row_field(r@[i], j) == row_field(grid@[i], j),
    {
        let mut new_grid = grid;
        let sh = (pos.1 * 5) as u32;
        let old_row = new_grid[pos.0];
        let new_row = old_row | (value << sh);
        new_grid[pos.0] = new_row;
        proof {
            let c = pos.1 as u32;
            let i = pos.0 as int;
            let j: int = 3 - pos.1 as int;
            lemma_or_set_field(grid@[i], c, value, 0);
            lemma_or_set_field(grid@[i], c, value, 1);
            lemma_or_set_field(grid@[i], c, value, 2);
            lemma_or_set_field(grid@[i], c, value, 3);
            lemma_row_field_unfold(new_row);
            lemma_row_field_unfold(grid@[i]);
            assert(row_field(new_row, j) == value);
            assert forall|k: int| 0 <= k < 4 && k != j implies #[trigger] row_field(new_row, k)
                == row_field(grid@[i], k) by {
                if k == 0 {
                } else if k == 1 {
                } else if k == 2 {
                } else {
                }
            }
            assert(row_fields(new_row) =~= row_fields(grid@[i]).update(j, value));
            lemma_pack_row_fields(new_row);
            assert(new_row == set_field_spec(grid@[i], j, value));
            assert(new_grid@ =~= place_spec(grid@, i, pos.1 as int, value));
            lemma_sum_update4(row_fields(grid@[i]), j, value);
            assert(row_sum(new_row) == row_sum(grid@[i]) + tile_val(value));
            assert forall|k: int| 0 <= k < 4 implies valid_row(#[trigger] new_grid@[k]) by {
                if k == i {
                    assert forall|kk: int| 0 <= kk < 4 implies row_field(new_row, kk)
                        <= MAX_BLOCK_EXPONENT by {
                        if kk != j {
                            lemma_valid_row_field(grid@[i], kk);
                        }
                    }
                }
            }
        }
        new_grid
    }

    /// Flattens the board into sixteen exponents, row major, leftmost cell
    /// first.
    pub fn to_flat_array(grid: [u32; 4]) -> (r: [u8; 16])
        ensures
            forall|k: int|
                0 <= k < 16 ==> #[trigger] r@[k] as u32 == row_field(grid@[k / 4], k % 4),
    {
        let mut flat: [u8; 16] = [0; 16];
        let mut i: usize = 0;
        while i < 4
            invariant
                i <= 4,
                forall|k: int|
                    0 <= k < 4 * i ==> #[trigger] flat@[k] as u32 == row_field(
                        grid@[k / 4],
                        k % 4,
                    ),
            decreases 4 - i,
        {
            let mut j: usize = 0;
            while j < 4
                invariant
                    i < 4,
                    j <= 4,
                    forall|k: int|
                        0 <= k < 4 * i + j ==> #[trigger] flat@[k] as u32 == row_field(
                            grid@[k / 4],
                            k % 4,
                        ),
                decreases 4 - j,
            {
                let sh = ((3 - j) * 5) as u32;
                let v = (grid[i] >> sh) & 0x1F;
                proof {
                    lemma_field5_bound(grid@[i as int], sh);
                    assert(row_field(grid@[i as int], j as int) == v);
                }
                flat[i * 4 + j] = v as u8;
                j += 1;
            }
            i += 1;
        }
        flat
    }

    /// The value of one tile: 2^e, or 0 for an empty cell.
    fn tile_value_x(e: u32) -> (r: u32)
        requires
            e <= MAX_BLOCK_EXPONENT,
        ensures
            r as int == tile_val(e),
            r <= 0x20000,
    {
        if e == 0 {
            0
        } else {
            proof {
                lemma2_to64();
                if e < 17 {
                    vstd::arithmetic::power2::lemma_pow2_strictly_increases(e as nat, 17);
                }
                assert(1u32 * pow2(e as nat) <= u32::MAX);
                lemma_u32_shl_is_mul(1u32, e);
            }
            1u32 << e
        }
    }

    /// Total tile value of one row.
    fn row_sum_x(row: u32) -> (r: u32)
        requires
            valid_row(row),
        ensures
            r as int == row_sum(row),
            r <= 0x80000,
    {
        proof {
            lemma_row_field_unfold(row);
            lemma_seq_val_sum4(row_fields(row));
            lemma_valid_row_field(row, 0);
            lemma_valid_row_field(row, 1);
            lemma_valid_row_field(row, 2);
            lemma_valid_row_field(row, 3);
        }
        let t0 = Self::tile_value_x((row >> 15u32) & 0x1F);
        let t1 = Self::tile_value_x((row >> 10u32) & 0x1F);
        let t2 = Self::tile_value_x((row >> 5u32) & 0x1F);
        let t3 = Self::tile_value_x((row >> 0u32) & 0x1F);
        t0 + t1 + t2 + t3
    }

    /// Adds a tile of exponent 1 (nine times in ten) or 2 at a uniformly
    /// random empty cell; a board with no empty cell comes back unchanged.
    pub fn add_random_block(&self, grid: [u32; 4], rand: &seeded_random::Random) -> (r: [u32; 4])
        requires
            valid_grid(grid@),
        ensures
            valid_grid(r@),
            grid_sum(grid@) <= grid_sum(r@) <= grid_sum(grid@) + 4,
            (forall|i: int, c: int| 0 <= i < 4 && 0 <= c < 4 ==> !#[trigger] cell_empty(grid@, i, c))
                ==> r@ == grid@,
            (exists|i: int, c: int| 0 <= i < 4 && 0 <= c < 4 && #[trigger] cell_empty(grid@, i, c))
                ==> exists|i: int, c: int, v: u32|
                0 <= i < 4 && 0 <= c < 4 && cell_empty(grid@, i, c) && 1 <= v <= 2 && r@
                    == #[trigger] place_spec(grid@, i, c, v),
    {
        let empty = Self::empty_list(&grid);
        if empty.len() == 0 {
            proof {
                lemma_grid_bounds(grid@);
                assert forall|i: int, c: int| 0 <= i < 4 && 0 <= c < 4 implies !#[trigger] cell_empty(
                    grid@,
                    i,
                    c,
                ) by {
                    if cell_empty(grid@, i, c) {
                        assert(empty@.contains((i as usize, c as usize)));
                    }
                }
            }
            return grid;
        }
        let value: u32 = if crate::randsrc::random_range(rand, 0, 10) < 9 {
            1
        } else {
            2
        };
        let index = crate::randsrc::random_range(rand, 0, empty.len() as u32) as usize;
        let pos = empty[index];
        proof {
            assert(empty@.contains(pos));
        }
        let ng = self.place_block(grid, pos, value);
        proof {
            lemma2_to64();
            assert(tile_val(1) == 2 && tile_val(2) == 4);
            assert(cell_empty(grid@, pos.0 as int, pos.1 as int) && 1 <= value <= 2 && ng@
                == place_spec(grid@, pos.0 as int, pos.1 as int, value));
        }
        ng
    }

    /// Plays one real turn: if the direction is legal, slide and add a
    /// random tile; otherwise the board comes back unchanged with score
    /// zero.
    pub fn play_move(&self, grid: [u32; 4], direction: Direction, rand: &seeded_random::Random)
        -> (r: ([u32; 4], u32))
        requires
            self.wf(),
            valid_grid(grid@),
            grid_sum(grid@) < 0x40000,
        ensures
            valid_grid(r.0@),
            grid_sum(r.0@) <= grid_sum(grid@) + 4,
            !changes(grid@, direction) ==> r.0@ == grid@ && r.1 == 0,
            changes(grid@, direction) ==> r.1 as int == move_score_spec(grid@, direction)
                && exists|i: int, c: int, v: u32|
                0 <= i < 4 && 0 <= c < 4 && cell_empty(grid_after(grid@, direction), i, c)
                    && 1 <= v <= 2 && r.0@ == #[trigger] place_spec(
                    grid_after(grid@, direction),
                    i,
                    c,
                    v,
                ),
    {
        proof {
            lemma_grid_bounds(grid@);
            lemma_make_move_keeps_sum(grid@, direction);
        }
        if matches!(direction, Direction::Stay) {
            return (grid, 0);
        }
        let dirs = self.get_possible_directions(&grid);
        let mut legal = false;
        let mut k: usize = 0;
        while k < dirs.len()
            invariant
                k <= dirs@.len(),
                legal ==> dirs@.contains(direction),
                !legal ==> forall|kk: int| 0 <= kk < k ==> dirs@[kk] != direction,
            decreases dirs@.len() - k,
        {
            if dirs[k] == direction {
                legal = true;
            }
            k += 1;
        }
        proof {
            if !legal {
                assert(!dirs@.contains(direction));
            }
        }
        if legal {
            proof {
                lemma_change_leaves_empty(grid@, direction);
            }
            let (ng, score) = self.make_move(&grid, &direction);
            let ng2 = self.add_random_block(ng, rand);
            (ng2, score)
        } else {
            (grid, 0)
        }
    }

    /// Total tile value on the board; the quantity every slide preserves.
    pub fn grid_sum_x(grid: &[u32; 4]) -> (r: u32)
        requires
            valid_grid(grid@),
        ensures
            r as int == grid_sum(grid@),
            r <= 0x200000,
    {
        let s0 = Self::row_sum_x(grid[0]);
        let s1 = Self::row_sum_x(grid[1]);
        let s2 = Self::row_sum_x(grid[2]);
        let s3 = Self::row_sum_x(grid[3]);
        s0 + s1 + s2 + s3
    }
}

/// The legal-direction list contains exactly the directions that change
/// the board, holds no duplicates, and is empty exactly on lost boards.
pub proof fn lemma_possible_dirs_iff(g: Seq<u32>)
    ensures
        forall|d: Direction| #[trigger]
            possible_dirs(g).contains(d) <==> (d != Direction::Stay && changes(g, d)),
        (possible_dirs(g).len() == 0) <==> lost(g),
        possible_dirs(g).no_duplicates(),
{
    let p1 = if changes(g, Direction::Left) {
        seq![Direction::Left]
    } else {
        Seq::<Direction>::empty()
    };
    let p2 = if changes(g, Direction::Down) {
        seq![Direction::Down]
    } else {
        Seq::<Direction>::empty()
    };
    let p3 = if changes(g, Direction::Right) {
        seq![Direction::Right]
    } else {
        Seq::<Direction>::empty()
    };
    let p4 = if changes(g, Direction::Up) {
        seq![Direction::Up]
    } else {
        Seq::<Direction>::empty()
    };
    let s = possible_dirs(g);
    assert(s == ((p1 + p2) + p3) + p4);
    assert forall|k: int| 0 <= k < s.len() implies (#[trigger] s[k] != Direction::Stay && changes(
        g,
        s[k],
    )) by {
        if k < p1.len() {
            assert(s[k] == Direction::Left);
        } else if k < p1.len() + p2.len() {
            assert(s[k] == Direction::Down);
        } else if k < p1.len() + p2.len() + p3.len() {
            assert(s[k] == Direction::Right);
        } else {
            assert(s[k] == Direction::Up);
        }
    }
    assert forall|d: Direction| d != Direction::Stay && changes(g, d) implies #[trigger] s.contains(
        d,
    ) by {
        if d == Direction::Left {
            assert(s[0] == d);
        } else if d == Direction::Down {
            assert(s[p1.len() as int] == d);
        } else if d == Direction::Right {
            assert(s[(p1.len() + p2.len()) as int] == d);
        } else {
            assert(s[(p1.len() + p2.len() + p3.len()) as int] == d);
        }
    }
    assert forall|d: Direction| #[trigger] s.contains(d) implies (d != Direction::Stay && changes(
        g,
        d,
    )) by {
        let k = choose|k: int| 0 <= k < s.len() && s[k] == d;
    }
    assert forall|k1: int, k2: int| 0 <= k1 < k2 < s.len() implies s[k1] != s[k2] by {
        let b1 = p1.len() as int;
        let b2 = b1 + p2.len();
        let b3 = b2 + p3.len();
        if k1 < b1 {
            assert(s[k1] == Direction::Left);
        } else if k1 < b2 {
            assert(s[k1] == Direction::Down);
        } else if k1 < b3 {
            assert(s[k1] == Direction::Right);
        } else {
            assert(s[k1] == Direction::Up);
        }
        if k2 < b1 {
            assert(s[k2] == Direction::Left);
        } else if k2 < b2 {
            assert(s[k2] == Direction::Down);
        } else if k2 < b3 {
            assert(s[k2] == Direction::Right);
        } else {
            assert(s[k2] == Direction::Up);
        }
    }
}

/// Shared facts: a valid board has small fields and a nonnegative total.
pub proof fn lemma_grid_bounds(g: Seq<u32>)
    requires
        valid_grid(g),
    ensures
        forall|i: int, k: int|
            0 <= i < 4 && 0 <= k < 4 ==> #[trigger] row_fields(g[i])[k] <= MAX_BLOCK_EXPONENT,
        forall|i: int| 0 <= i < 4 ==> 0 <= #[trigger] row_sum(g[i]),
        0 <= grid_sum(g),
{
    assert forall|i: int, k: int| 0 <= i < 4 && 0 <= k < 4 implies #[trigger] row_fields(g[i])[k]
        <= MAX_BLOCK_EXPONENT by {
        lemma_valid_row_field(g[i], k);
    }
    assert forall|i: int| 0 <= i < 4 implies 0 <= #[trigger] row_sum(g[i]) by {
        lemma_seq_val_sum_bounds(row_fields(g[i]), MAX_BLOCK_EXPONENT);
    }
}

/// A left slide keeps the rows canonical and the total tile value, and
/// its score lies within 2^21.
proof fn lemma_move_left_props(g: Seq<u32>)
    requires
        valid_grid(g),
    ensures
        grid_after(g, Direction::Left).len() == 4,
        forall|i: int| 0 <= i < 4 ==> #[trigger] grid_after(g, Direction::Left)[i] < 0x100000,
        grid_sum(grid_after(g, Direction::Left)) == grid_sum(g),
        0 <= move_score_spec(g, Direction::Left) <= 0x200000,
{
    lemma_grid_bounds(g);
    let ga = grid_after(g, Direction::Left);
    assert forall|i: int| 0 <= i < 4 implies #[trigger] ga[i] < 0x100000 && row_sum(ga[i])
        == row_sum(g[i]) && 0 <= row_left_score(row_fields(g[i])) <= 0x80000 by {
        let f = row_fields(g[i]);
        lemma_row_left_total(f);
        lemma_packed_fields_sum(row_left_fields(f));
    }
}

/// A right slide keeps the rows canonical and the total tile value, and
/// its score lies within 2^21.
proof fn lemma_move_right_props(g: Seq<u32>)
    requires
        valid_grid(g),
    ensures
        grid_after(g, Direction::Right).len() == 4,
        forall|i: int| 0 <= i < 4 ==> #[trigger] grid_after(g, Direction::Right)[i] < 0x100000,
        grid_sum(grid_after(g, Direction::Right)) == grid_sum(g),
        0 <= move_score_spec(g, Direction::Right) <= 0x200000,
{
    lemma_grid_bounds(g);
    let ga = grid_after(g, Direction::Right);
    assert forall|i: int| 0 <= i < 4 implies #[trigger] ga[i] < 0x100000 && row_sum(ga[i])
        == row_sum(g[i]) && 0 <= row_right_score(row_fields(g[i])) <= 0x80000 by {
        let f = row_fields(g[i]);
        assert forall|k: int| 0 <= k < 4 implies #[trigger] rev4(f)[k] <= MAX_BLOCK_EXPONENT by {}
        lemma_row_left_total(rev4(f));
        assert forall|k: int| 0 <= k < 4 implies #[trigger] row_right_fields(f)[k] < 32 by {}
        lemma_packed_fields_sum(row_right_fields(f));
        lemma_rev4_sum(f);
        lemma_rev4_sum(row_left_fields(rev4(f)));
    }
}

/// An upward slide keeps the rows canonical and the total tile value, and
/// its score lies within 2^21.
#[verifier::rlimit(60)]
proof fn lemma_move_up_props(g: Seq<u32>)
    requires
        valid_grid(g),
    ensures
        grid_after(g, Direction::Up).len() == 4,
        forall|i: int| 0 <= i < 4 ==> #[trigger] grid_after(g, Direction::Up)[i] < 0x100000,
        grid_sum(grid_after(g, Direction::Up)) == grid_sum(g),
        0 <= move_score_spec(g, Direction::Up) <= 0x200000,
{
    lemma_grid_bounds(g);
    let ga = grid_after(g, Direction::Up);
    assert forall|j: int, k: int| 0 <= j < 4 && 0 <= k < 4 implies #[trigger] col_fields(g, j)[k]
        <= MAX_BLOCK_EXPONENT by {
        lemma_valid_row_field(g[k], j);
    }
    let c0 = col_fields(g, 0);
    let c1 = col_fields(g, 1);
    let c2 = col_fields(g, 2);
    let c3 = col_fields(g, 3);
    lemma_row_left_total(c0);
    lemma_row_left_total(c1);
    lemma_row_left_total(c2);
    lemma_row_left_total(c3);
    lemma_seq_val_sum4(c0);
    lemma_seq_val_sum4(c1);
    lemma_seq_val_sum4(c2);
    lemma_seq_val_sum4(c3);
    lemma_seq_val_sum4(row_left_fields(c0));
    lemma_seq_val_sum4(row_left_fields(c1));
    lemma_seq_val_sum4(row_left_fields(c2));
    lemma_seq_val_sum4(row_left_fields(c3));
    lemma_seq_val_sum4(row_fields(g[0]));
    lemma_seq_val_sum4(row_fields(g[1]));
    lemma_seq_val_sum4(row_fields(g[2]));
    lemma_seq_val_sum4(row_fields(g[3]));
    assert forall|i: int| 0 <= i < 4 implies #[trigger] ga[i] < 0x100000 && row_sum(ga[i])
        == tile_val(row_left_fields(c0)[i]) + tile_val(row_left_fields(c1)[i]) + tile_val(
        row_left_fields(c2)[i],
    ) + tile_val(row_left_fields(c3)[i]) by {
        let target = Seq::new(4, |j: int| row_left_fields(col_fields(g, j))[i]);
        assert(target[0] == row_left_fields(c0)[i] && target[1] == row_left_fields(c1)[i]
            && target[2] == row_left_fields(c2)[i] && target[3] == row_left_fields(c3)[i]);
        assert forall|k: int| 0 <= k < 4 implies #[trigger] target[k] < 32 by {}
        lemma_packed_fields_sum(target);
        lemma_seq_val_sum4(target);
    }
    assert(grid_sum(ga) == grid_sum(g));
}

/// A downward slide keeps the rows canonical and the total tile value,
/// and its score lies within 2^21.
#[verifier::rlimit(60)]
proof fn lemma_move_down_props(g: Seq<u32>)
    requires
        valid_grid(g),
    ensures
        grid_after(g, Direction::Down).len() == 4,
        forall|i: int| 0 <= i < 4 ==> #[trigger] grid_after(g, Direction::Down)[i] < 0x100000,
        grid_sum(grid_after(g, Direction::Down)) == grid_sum(g),
        0 <= move_score_spec(g, Direction::Down) <= 0x200000,
{
    lemma_grid_bounds(g);
    let ga = grid_after(g, Direction::Down);
    assert forall|j: int, k: int| 0 <= j < 4 && 0 <= k < 4 implies #[trigger] col_fields(g, j)[k]
        <= MAX_BLOCK_EXPONENT by {
        lemma_valid_row_field(g[k], j);
    }
    let c0 = col_fields(g, 0);
    let c1 = col_fields(g, 1);
    let c2 = col_fields(g, 2);
    let c3 = col_fields(g, 3);
    assert forall|j: int, k: int| 0 <= j < 4 && 0 <= k < 4 implies #[trigger] rev4(
        col_fields(g, j),
    )[k] <= MAX_BLOCK_EXPONENT by {}
    lemma_row_left_total(rev4(c0));
    lemma_row_left_total(rev4(c1));
    lemma_row_left_total(rev4(c2));
    lemma_row_left_total(rev4(c3));
    lemma_rev4_sum(c0);
    lemma_rev4_sum(c1);
    lemma_rev4_sum(c2);
    lemma_rev4_sum(c3);
    lemma_rev4_sum(row_left_fields(rev4(c0)));
    lemma_rev4_sum(row_left_fields(rev4(c1)));
    lemma_rev4_sum(row_left_fields(rev4(c2)));
    lemma_rev4_sum(row_left_fields(rev4(c3)));
    lemma_seq_val_sum4(c0);
    lemma_seq_val_sum4(c1);
    lemma_seq_val_sum4(c2);
    lemma_seq_val_sum4(c3);
    lemma_seq_val_sum4(row_right_fields(c0));
    lemma_seq_val_sum4(row_right_fields(c1));
    lemma_seq_val_sum4(row_right_fields(c2));
    lemma_seq_val_sum4(row_right_fields(c3));
    lemma_seq_val_sum4(row_fields(g[0]));
    lemma_seq_val_sum4(row_fields(g[1]));
    lemma_seq_val_sum4(row_fields(g[2]));
    lemma_seq_val_sum4(row_fields(g[3]));
    assert forall|i: int| 0 <= i < 4 implies #[trigger] ga[i] < 0x100000 && row_sum(ga[i])
        == tile_val(row_right_fields(c0)[i]) + tile_val(row_right_fields(c1)[i]) + tile_val(
        row_right_fields(c2)[i],
    ) + tile_val(row_right_fields(c3)[i]) by {
        let target = Seq::new(4, |j: int| row_right_fields(col_fields(g, j))[i]);
        assert(target[0] == row_right_fields(c0)[i] && target[1] == row_right_fields(c1)[i]
            && target[2] == row_right_fields(c2)[i] && target[3] == row_right_fields(c3)[i]);
        assert forall|k: int| 0 <= k < 4 implies #[trigger] target[k] < 32 by {}
        lemma_packed_fields_sum(target);
        lemma_seq_val_sum4(target);
    }
    assert(grid_sum(ga) == grid_sum(g));
}

/// Every slide preserves the board's total tile value, keeps the rows
/// canonical, and — as long as the total stays below 2^18 — keeps every
/// exponent within the table's domain. The score of one slide is at most
/// 2^21.
pub proof fn lemma_make_move_keeps_sum(g: Seq<u32>, d: Direction)
    requires
        valid_grid(g),
    ensures
        grid_after(g, d).len() == 4,
        forall|i: int| 0 <= i < 4 ==> #[trigger] grid_after(g, d)[i] < 0x100000,
        grid_sum(grid_after(g, d)) == grid_sum(g),
        0 <= grid_sum(g),
        0 <= move_score_spec(g, d) <= 0x200000,
        grid_sum(g) < 0x40000 ==> valid_grid(grid_after(g, d)),
{
    lemma_grid_bounds(g);
    let ga = grid_after(g, d);
    match d {
        Direction::Stay => {
            assert(ga =~= g);
            assert forall|i: int| 0 <= i < 4 implies #[trigger] ga[i] < 0x100000 by {}
        },
        Direction::Left => {
            lemma_move_left_props(g);
        },
        Direction::Right => {
            lemma_move_right_props(g);
        },
        Direction::Up => {
            lemma_move_up_props(g);
        },
        Direction::Down => {
            lemma_move_down_props(g);
        },
    }
    lemma2_to64();
    assert(pow2(18) == 0x40000);
    if grid_sum(g) < 0x40000 {
        assert forall|k2: int| 0 <= k2 < 4 implies 0 <= #[trigger] row_sum(ga[k2]) by {
            assert forall|k: int| 0 <= k < 4 implies #[trigger] row_fields(ga[k2])[k] < 32 by {
                lemma_row_field_small(ga[k2], k);
            }
            lemma_seq_val_sum_bounds(row_fields(ga[k2]), 31);
        }
        assert forall|i: int| 0 <= i < 4 implies valid_row(#[trigger] ga[i]) by {
            assert forall|k: int| 0 <= k < 4 implies #[trigger] row_fields(ga[i])[k] < 32 by {
                lemma_row_field_small(ga[i], k);
            }
            assert(row_sum(ga[i]) < 0x40000);
            lemma_small_sum_valid_fields(row_fields(ga[i]));
            assert(row_fields(ga[i])[0] == row_field(ga[i], 0));
            assert(row_fields(ga[i])[1] == row_field(ga[i], 1));
            assert(row_fields(ga[i])[2] == row_field(ga[i], 2));
            assert(row_fields(ga[i])[3] == row_field(ga[i], 3));
        }
    }
}

} // verus!
