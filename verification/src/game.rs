//! The game's move alphabet, and the unpacked board variant: a flat array
//! of sixteen tile exponents with the same slide-and-merge rules as the
//! packed engine, plus seeded random spawns for real play.

use vstd::prelude::*;
use crate::rows::{
    nonzeros, merged, merged_score, row_left_fields, row_left_score, row_right_fields,
    row_right_score, zero_pad, rev4, tile_val, lemma_nonzeros_push, lemma_nonzeros_props,
    lemma_merged_props, lemma_row_left_total, MAX_BLOCK_EXPONENT,
};
use crate::randsrc::random_range;
use vstd::arithmetic::power2::{pow2, lemma_pow2_adds, lemma2_to64};
use vstd::bits::lemma_u32_shl_is_mul;

verus! {

/// A sliding direction. `Stay` is a sentinel for "no move": it is returned
/// by the search engines when no direction is legal and is never a legal
/// chosen move itself.
#[derive(Clone, Copy, PartialEq, Eq, Structural, Debug)]
pub enum Direction {
    Left,
    Right,
    Up,
    Down,
    Stay,
}

/// A four-cell line of exponents, widened to the row model.
pub open spec fn u8row(s: Seq<u8>) -> Seq<u32> {
    Seq::new(s.len(), |k: int| s[k] as u32)
}

/// Row `i` of a flat sixteen-cell board, widened to the row model.
pub open spec fn urow(s: Seq<u8>, i: int) -> Seq<u32> {
    Seq::new(4, |j: int| s[4 * i + j] as u32)
}

/// Column `j` of a flat sixteen-cell board, widened to the row model.
pub open spec fn ucol(s: Seq<u8>, j: int) -> Seq<u32> {
    Seq::new(4, |i: int| s[4 * i + j] as u32)
}

/// A line can shift or merge leftward: some nonzero cell has an equal or
/// an empty cell directly to its left.
pub open spec fn can_shift4(s: Seq<u32>) -> bool {
    exists|i: int| 1 <= i < 4 && #[trigger] s[i] != 0 && (s[i] == s[i - 1] || s[i - 1] == 0)
}

/// Number of empty cells at positions `k..16` of a flat board.
pub open spec fn zeros_from(s: Seq<u8>, k: int) -> int
    decreases 16 - k,
{
    if k < 0 || k >= 16 {
        0
    } else {
        (if s[k] == 0 {
            1int
        } else {
            0int
        }) + zeros_from(s, k + 1)
    }
}

/// Slides one four-cell line left in place: compact, one greedy merge
/// pass, zero padding; returns the merge score.
fn move_left_single(row: &mut [u8; 4]) -> (score: i32)
    requires
        forall|k: int| 0 <= k < 4 ==> #[trigger] old(row)@[k] <= MAX_BLOCK_EXPONENT,
    ensures
        u8row(final(row)@) == row_left_fields(u8row(old(row)@)),
        score as int == row_left_score(u8row(old(row)@)),
        forall|k: int| 0 <= k < 4 ==> #[trigger] final(row)@[k] < 32,
{
    let ghost f = u8row(old(row)@);
    proof {
        assert(forall|k: int| 0 <= k < 4 ==> #[trigger] f[k] <= MAX_BLOCK_EXPONENT);
    }
    let mut nz: Vec<u32> = Vec::new();
    let mut i: usize = 0;
    while i < 4
        invariant
            i <= 4,
            row@ == old(row)@,
            f == u8row(old(row)@),
            f.len() == 4,
            nz@ == nonzeros(f.take(i as int)),
        decreases 4 - i,
    {
        proof {
            assert(f.take(i as int + 1) =~= f.take(i as int).push(f[i as int]));
            lemma_nonzeros_push(f.take(i as int), f[i as int]);
        }
        if row[i] != 0 {
            nz.push(row[i] as u32);
        }
        i += 1;
    }
    proof {
        assert(f.take(4) =~= f);
        lemma_nonzeros_props(f, MAX_BLOCK_EXPONENT);
        lemma_row_left_total(f);
    }
    let ghost nzs = nz@;
    proof {
        lemma_merged_props(nzs, MAX_BLOCK_EXPONENT);
        lemma2_to64();
        assert(pow2(18) == 0x40000);
        assert(tile_val((MAX_BLOCK_EXPONENT + 1) as u32) == 0x40000);
        assert(2 * merged_score(nzs) <= nzs.len() * 0x40000);
        assert(2 * merged_score(nzs) <= 4 * 0x40000);
        assert(nzs.skip(0) =~= nzs);
    }
    let mut out: Vec<u32> = Vec::new();
    let mut score: u32 = 0;
    let mut i: usize = 0;
    while i < nz.len()
        invariant
            nz@ == nzs,
            i <= nzs.len(),
            nzs.len() <= 4,
            forall|k: int| 0 <= k < nzs.len() ==> 0 < #[trigger] nzs[k] <= MAX_BLOCK_EXPONENT,
            out@ + merged(nzs.skip(i as int)) == merged(nzs),
            score as int + merged_score(nzs.skip(i as int)) == merged_score(nzs),
            0 <= merged_score(nzs.skip(i as int)),
            merged_score(nzs) <= 0x80000,
            forall|k: int| 0 <= k < out@.len() ==> #[trigger] out@[k] < 32,
        decreases nzs.len() - i,
    {
        let ghost t = nzs.skip(i as int);
        proof {
            assert(t[0] == nzs[i as int]);
            assert(forall|k: int| 0 <= k < t.len() ==> #[trigger] t[k] == nzs[i as int + k]);
        }
        let e = nz[i];
        if i + 1 < nz.len() && nz[i + 1] == e {
            proof {
                assert(t.len() >= 2 && t[1] == t[0]);
                assert(merged(t) == seq![(t[0] + 1) as u32] + merged(t.skip(2)));
                assert(merged_score(t) == 2 * pow2(t[0] as nat) + merged_score(t.skip(2)));
                assert(t.skip(2) =~= nzs.skip(i as int + 2));
                assert(forall|k: int|
                    0 <= k < nzs.skip(i as int + 2).len() ==> 0 < #[trigger] nzs.skip(
                        i as int + 2,
                    )[k] <= MAX_BLOCK_EXPONENT);
                lemma_merged_props(nzs.skip(i as int + 2), MAX_BLOCK_EXPONENT);
                lemma_pow2_adds(e as nat, 1);
                lemma2_to64();
                assert(pow2((e + 1) as nat) == 2 * pow2(e as nat));
                assert(1u32 * pow2((e + 1) as nat) <= u32::MAX);
                lemma_u32_shl_is_mul(1u32, (e + 1) as u32);
                assert((1u32 << ((e + 1) as u32)) as int == 2 * pow2(e as nat));
                assert((out@ + merged(nzs.skip(i as int))) =~= (out@.push((t[0] + 1) as u32))
                    + merged(nzs.skip(i as int + 2)));
            }
            out.push(e + 1);
            score = score + (1u32 << ((e + 1) as u32));
            i = i + 2;
        } else {
            proof {
                assert(!(t.len() >= 2 && t[0] == t[1]));
                assert(merged(t) == seq![t[0]] + merged(t.skip(1)));
                assert(merged_score(t) == merged_score(t.skip(1)));
                assert(t.skip(1) =~= nzs.skip(i as int + 1));
                assert((out@ + merged(nzs.skip(i as int))) =~= (out@.push(t[0])) + merged(
                    nzs.skip(i as int + 1),
                ));
            }
            out.push(e);
            i = i + 1;
        }
    }
    proof {
        assert(nzs.skip(nzs.len() as int) =~= Seq::<u32>::empty());
        assert(merged(Seq::<u32>::empty()) =~= Seq::<u32>::empty());
        assert(out@ + Seq::<u32>::empty() =~= out@);
        assert(out@ == merged(nzs));
        assert(score as int == merged_score(nzs));
    }
    let ghost m = merged(nzs);
    proof {
        assert(zero_pad(m, m.len()) =~= m);
    }
    while out.len() < 4
        invariant
            m.len() <= out@.len() <= 4,
            out@ == zero_pad(m, out@.len() as nat),
            forall|k: int| 0 <= k < out@.len() ==> #[trigger] out@[k] < 32,
        decreases 4 - out.len(),
    {
        proof {
            assert(zero_pad(m, (out@.len() + 1) as nat) =~= out@.push(0u32));
        }
        out.push(0);
    }
    let mut k: usize = 0;
    while k < 4
        invariant
            k <= 4,
            out@.len() == 4,
            out@ == row_left_fields(f),
            forall|kk: int| 0 <= kk < out@.len() ==> #[trigger] out@[kk] < 32,
            forall|kk: int| 0 <= kk < k ==> #[trigger] row@[kk] as u32 == out@[kk],
            row@.len() == 4,
        decreases 4 - k,
    {
        row[k] = out[k] as u8;
        k += 1;
    }
    proof {
        assert(u8row(row@) =~= row_left_fields(f));
    }
    score as i32
}

/// Slides every row of the flat board left; returns the summed score.
pub fn move_left(game_state: &mut [u8; 16]) -> (score: i32)
    requires
        forall|k: int| 0 <= k < 16 ==> #[trigger] old(game_state)@[k] <= MAX_BLOCK_EXPONENT,
    ensures
        forall|i: int|
            0 <= i < 4 ==> #[trigger] urow(final(game_state)@, i) == row_left_fields(
                urow(old(game_state)@, i),
            ),
        score as int == row_left_score(urow(old(game_state)@, 0)) + row_left_score(
            urow(old(game_state)@, 1),
        ) + row_left_score(urow(old(game_state)@, 2)) + row_left_score(urow(old(game_state)@, 3)),
        forall|k: int| 0 <= k < 16 ==> #[trigger] final(game_state)@[k] < 32,
{
    let mut score: i32 = 0;
    let mut i: usize = 0;
    while i < 4
        invariant
            i <= 4,
            game_state@.len() == 16,
            forall|k: int| 0 <= k < 16 ==> #[trigger] old(game_state)@[k] <= MAX_BLOCK_EXPONENT,
            forall|k: int| 4 * i <= k < 16 ==> #[trigger] game_state@[k] == old(game_state)@[k],
            forall|k: int| 0 <= k < 4 * i ==> #[trigger] game_state@[k] < 32,
            forall|ii: int|
                0 <= ii < i ==> #[trigger] urow(game_state@, ii) == row_left_fields(
                    urow(old(game_state)@, ii),
                ),
            score as int == row_prefix_score(old(game_state)@, i as int),
            score as int <= 0x80000 * (i as int),
            0 <= score,
        decreases 4 - i,
    {
        let mut tmp: [u8; 4] = [
            game_state[4 * i],
            game_state[4 * i + 1],
            game_state[4 * i + 2],
            game_state[4 * i + 3],
        ];
        proof {
            assert(u8row(tmp@) =~= urow(game_state@, i as int));
            assert(urow(game_state@, i as int) =~= urow(old(game_state)@, i as int));
            lemma_row_left_total(u8row(tmp@));
        }
        let s = move_left_single(&mut tmp);
        let ghost pre = game_state@;
        game_state[4 * i] = tmp[0];
        game_state[4 * i + 1] = tmp[1];
        game_state[4 * i + 2] = tmp[2];
        game_state[4 * i + 3] = tmp[3];
        score = score + s;
        proof {
            assert(urow(game_state@, i as int) =~= u8row(tmp@));
            assert forall|ii: int| 0 <= ii < i implies #[trigger] urow(game_state@, ii) == urow(
                pre,
                ii,
            ) by {
                assert(urow(game_state@, ii) =~= urow(pre, ii));
            }
        }
        i += 1;
    }
    proof {
        assert(row_prefix_score(old(game_state)@, 4) == row_prefix_score(old(game_state)@, 3)
            + row_left_score(urow(old(game_state)@, 3)));
        assert(row_prefix_score(old(game_state)@, 3) == row_prefix_score(old(game_state)@, 2)
            + row_left_score(urow(old(game_state)@, 2)));
        assert(row_prefix_score(old(game_state)@, 2) == row_prefix_score(old(game_state)@, 1)
            + row_left_score(urow(old(game_state)@, 1)));
        assert(row_prefix_score(old(game_state)@, 1) == row_prefix_score(old(game_state)@, 0)
            + row_left_score(urow(old(game_state)@, 0)));
        assert(row_prefix_score(old(game_state)@, 0) == 0);
    }
    score
}

/// Score of the first `n` rows slid left.
pub open spec fn row_prefix_score(s: Seq<u8>, n: int) -> int
    decreases n,
{
    if n <= 0 {
        0
    } else {
        row_prefix_score(s, n - 1) + row_left_score(urow(s, n - 1))
    }
}

/// Score of the first `n` rows slid right.
pub open spec fn row_prefix_score_r(s: Seq<u8>, n: int) -> int
    decreases n,
{
    if n <= 0 {
        0
    } else {
        row_prefix_score_r(s, n - 1) + row_right_score(urow(s, n - 1))
    }
}

/// Score of the first `n` columns slid up.
pub open spec fn col_prefix_score(s: Seq<u8>, n: int) -> int
    decreases n,
{
    if n <= 0 {
        0
    } else {
        col_prefix_score(s, n - 1) + row_left_score(ucol(s, n - 1))
    }
}

/// Score of the first `n` columns slid down.
pub open spec fn col_prefix_score_r(s: Seq<u8>, n: int) -> int
    decreases n,
{
    if n <= 0 {
        0
    } else {
        col_prefix_score_r(s, n - 1) + row_right_score(ucol(s, n - 1))
    }
}

/// The flat board after sliding in a direction, cell by cell.
pub open spec fn flat_after(s: Seq<u8>, d: Direction) -> Seq<u8> {
    match d {
        Direction::Left => Seq::new(16, |k: int| row_left_fields(urow(s, k / 4))[k % 4] as u8),
        Direction::Right => Seq::new(16, |k: int| row_right_fields(urow(s, k / 4))[k % 4] as u8),
        Direction::Up => Seq::new(16, |k: int| row_left_fields(ucol(s, k % 4))[k / 4] as u8),
        Direction::Down => Seq::new(16, |k: int| row_right_fields(ucol(s, k % 4))[k / 4] as u8),
        Direction::Stay => s,
    }
}

/// Board `b` is board `a` after one random spawn: unchanged when `a` is
/// full, else exactly one previously empty cell now holds 1 or 2.
pub open spec fn spawned_from(a: Seq<u8>, b: Seq<u8>) -> bool {
    ||| (zeros_from(a, 0) == 0 && b == a)
    ||| exists|k: int|
        0 <= k < 16 && a[k] == 0 && 1 <= #[trigger] b[k] <= 2 && (forall|k2: int|
            0 <= k2 < 16 && k2 != k ==> b[k2] == a[k2])
}

/// Slides every row of the flat board right.
pub fn move_right(game_state: &mut [u8; 16]) -> (score: i32)
    requires
        forall|k: int| 0 <= k < 16 ==> #[trigger] old(game_state)@[k] <= MAX_BLOCK_EXPONENT,
    ensures
        forall|i: int|
            0 <= i < 4 ==> #[trigger] urow(final(game_state)@, i) == row_right_fields(
                urow(old(game_state)@, i),
            ),
        score as int == row_prefix_score_r(old(game_state)@, 4),
        forall|k: int| 0 <= k < 16 ==> #[trigger] final(game_state)@[k] < 32,
{
    let mut score: i32 = 0;
    let mut i: usize = 0;
    while i < 4
        invariant
            i <= 4,
            game_state@.len() == 16,
            forall|k: int| 0 <= k < 16 ==> #[trigger] old(game_state)@[k] <= MAX_BLOCK_EXPONENT,
            forall|k: int| 4 * i <= k < 16 ==> #[trigger] game_state@[k] == old(game_state)@[k],
            forall|k: int| 0 <= k < 4 * i ==> #[trigger] game_state@[k] < 32,
            forall|ii: int|
                0 <= ii < i ==> #[trigger] urow(game_state@, ii) == row_right_fields(
                    urow(old(game_state)@, ii),
                ),
            score as int == row_prefix_score_r(old(game_state)@, i as int),
            score as int <= 0x80000 * (i as int),
            0 <= score,
        decreases 4 - i,
    {
        let mut tmp: [u8; 4] = [
            game_state[4 * i + 3],
            game_state[4 * i + 2],
            game_state[4 * i + 1],
            game_state[4 * i],
        ];
        proof {
            assert(u8row(tmp@) =~= rev4(urow(old(game_state)@, i as int)));
            assert forall|k: int| 0 <= k < 4 implies #[trigger] tmp@[k] <= MAX_BLOCK_EXPONENT by {}
            lemma_row_left_total(u8row(tmp@));
        }
        let s = move_left_single(&mut tmp);
        let ghost pre = game_state@;
        game_state[4 * i] = tmp[3];
        game_state[4 * i + 1] = tmp[2];
        game_state[4 * i + 2] = tmp[1];
        game_state[4 * i + 3] = tmp[0];
        score = score + s;
        proof {
            assert(urow(game_state@, i as int) =~= rev4(u8row(tmp@)));
            assert(urow(game_state@, i as int) =~= row_right_fields(
                urow(old(game_state)@, i as int),
            ));
            assert forall|ii: int| 0 <= ii < i implies #[trigger] urow(game_state@, ii) == urow(
                pre,
                ii,
            ) by {
                assert(urow(game_state@, ii) =~= urow(pre, ii));
            }
        }
        i += 1;
    }
    score
}

/// Slides every column of the flat board up.
pub fn move_up(state: &mut [u8; 16]) -> (score: i32)
    requires
        forall|k: int| 0 <= k < 16 ==> #[trigger] old(state)@[k] <= MAX_BLOCK_EXPONENT,
    ensures
        forall|j: int|
            0 <= j < 4 ==> #[trigger] ucol(final(state)@, j) == row_left_fields(
                ucol(old(state)@, j),
            ),
        score as int == col_prefix_score(old(state)@, 4),
        forall|k: int| 0 <= k < 16 ==> #[trigger] final(state)@[k] < 32,
{
    let mut score: i32 = 0;
    let mut j: usize = 0;
    while j < 4
        invariant
            j <= 4,
            state@.len() == 16,
            forall|k: int| 0 <= k < 16 ==> #[trigger] old(state)@[k] <= MAX_BLOCK_EXPONENT,
            forall|k: int| 0 <= k < 16 && k % 4 >= j ==> #[trigger] state@[k] == old(state)@[k],
            forall|k: int| 0 <= k < 16 && k % 4 < j ==> #[trigger] state@[k] < 32,
            forall|jj: int|
                0 <= jj < j ==> #[trigger] ucol(state@, jj) == row_left_fields(
                    ucol(old(state)@, jj),
                ),
            score as int == col_prefix_score(old(state)@, j as int),
            score as int <= 0x80000 * (j as int),
            0 <= score,
        decreases 4 - j,
    {
        let mut tmp: [u8; 4] = [state[j], state[4 + j], state[8 + j], state[12 + j]];
        proof {
            assert(u8row(tmp@) =~= ucol(old(state)@, j as int));
            assert forall|k: int| 0 <= k < 4 implies #[trigger] tmp@[k] <= MAX_BLOCK_EXPONENT by {}
            lemma_row_left_total(u8row(tmp@));
        }
        let s = move_left_single(&mut tmp);
        let ghost pre = state@;
        state[j] = tmp[0];
        state[4 + j] = tmp[1];
        state[8 + j] = tmp[2];
        state[12 + j] = tmp[3];
        score = score + s;
        proof {
            assert(ucol(state@, j as int) =~= u8row(tmp@));
            assert forall|jj: int| 0 <= jj < j implies #[trigger] ucol(state@, jj) == ucol(
                pre,
                jj,
            ) by {
                assert(ucol(state@, jj) =~= ucol(pre, jj));
            }
        }
        j += 1;
    }
    score
}

/// Slides every column of the flat board down.
pub fn move_down(state: &mut [u8; 16]) -> (score: i32)
    requires
        forall|k: int| 0 <= k < 16 ==> #[trigger] old(state)@[k] <= MAX_BLOCK_EXPONENT,
    ensures
        forall|j: int|
            0 <= j < 4 ==> #[trigger] ucol(final(state)@, j) == row_right_fields(
                ucol(old(state)@, j),
            ),
        score as int == col_prefix_score_r(old(state)@, 4),
        forall|k: int| 0 <= k < 16 ==> #[trigger] final(state)@[k] < 32,
{
    let mut score: i32 = 0;
    let mut j: usize = 0;
    while j < 4
        invariant
            j <= 4,
            state@.len() == 16,
            forall|k: int| 0 <= k < 16 ==> #[trigger] old(state)@[k] <= MAX_BLOCK_EXPONENT,
            forall|k: int| 0 <= k < 16 && k % 4 >= j ==> #[trigger] state@[k] == old(state)@[k],
            forall|k: int| 0 <= k < 16 && k % 4 < j ==> #[trigger] state@[k] < 32,
            forall|jj: int|
                0 <= jj < j ==> #[trigger] ucol(state@, jj) == row_right_fields(
                    ucol(old(state)@, jj),
                ),
            score as int == col_prefix_score_r(old(state)@, j as int),
            score as int <= 0x80000 * (j as int),
            0 <= score,
        decreases 4 - j,
    {
        let mut tmp: [u8; 4] = [state[12 + j], state[8 + j], state[4 + j], state[j]];
        proof {
            assert(u8row(tmp@) =~= rev4(ucol(old(state)@, j as int)));
            assert forall|k: int| 0 <= k < 4 implies #[trigger] tmp@[k] <= MAX_BLOCK_EXPONENT by {}
            lemma_row_left_total(u8row(tmp@));
        }
        let s = move_left_single(&mut tmp);
        let ghost pre = state@;
        state[j] = tmp[3];
        state[4 + j] = tmp[2];
        state[8 + j] = tmp[1];
        state[12 + j] = tmp[0];
        score = score + s;
        proof {
            assert(ucol(state@, j as int) =~= rev4(u8row(tmp@)));
            assert(ucol(state@, j as int) =~= row_right_fields(ucol(old(state)@, j as int)));
            assert forall|jj: int| 0 <= jj < j implies #[trigger] ucol(state@, jj) == ucol(
                pre,
                jj,
            ) by {
                assert(ucol(state@, jj) =~= ucol(pre, jj));
            }
        }
        j += 1;
    }
    score
}

/// Applies a direction unconditionally, then spawns a random tile: the
/// sentinel `Stay` scores -1 and only spawns.
pub fn execute_move(
    game_state: &mut [u8; 16],
    direction: Direction,
    rand: &seeded_random::Random,
) -> (score: i32)
    requires
        forall|k: int| 0 <= k < 16 ==> #[trigger] old(game_state)@[k] <= MAX_BLOCK_EXPONENT,
    ensures
        spawned_from(flat_after(old(game_state)@, direction), final(game_state)@),
        direction == Direction::Stay ==> score == -1,
        direction == Direction::Left ==> score as int == row_prefix_score(old(game_state)@, 4),
        direction == Direction::Right ==> score as int == row_prefix_score_r(old(game_state)@, 4),
        direction == Direction::Up ==> score as int == col_prefix_score(old(game_state)@, 4),
        direction == Direction::Down ==> score as int == col_prefix_score_r(old(game_state)@, 4),
{
    let ghost g0 = game_state@;
    let score = match direction {
        Direction::Left => {
            let s = move_left(game_state);
            proof {
                lemma_row_prefix_unfold(g0);
                lemma_flat_after_left(g0, game_state@);
            }
            s
        },
        Direction::Right => {
            let s = move_right(game_state);
            proof {
                lemma_flat_after_right(g0, game_state@);
            }
            s
        },
        Direction::Up => {
            let s = move_up(game_state);
            proof {
                lemma_flat_after_up(g0, game_state@);
            }
            s
        },
        Direction::Down => {
            let s = move_down(game_state);
            proof {
                lemma_flat_after_down(g0, game_state@);
            }
            s
        },
        Direction::Stay => -1,
    };
    add_block(game_state, rand);
    proof {
        lemma_zeros_nonneg(flat_after(g0, direction), 0);
    }
    score
}

/// Applies a direction only when its legality test passes, then spawns a
/// random tile; an illegal direction returns 0 with the board unchanged.
/// The sentinel `Stay` scores -1 and only spawns.
pub fn try_move(
    game_state: &mut [u8; 16],
    direction: Direction,
    rand: &seeded_random::Random,
) -> (score: i32)
    requires
        forall|k: int| 0 <= k < 16 ==> #[trigger] old(game_state)@[k] <= MAX_BLOCK_EXPONENT,
    ensures
        direction == Direction::Left && !(exists|i: int|
            0 <= i < 4 && can_shift4(#[trigger] urow(old(game_state)@, i))) ==> final(game_state)@
            == old(game_state)@ && score == 0,
        direction == Direction::Right && !(exists|i: int|
            0 <= i < 4 && can_shift4(rev4(#[trigger] urow(old(game_state)@, i)))) ==> final(game_state)@ == old(game_state)@ && score == 0,
        direction == Direction::Up && !(exists|j: int|
            0 <= j < 4 && can_shift4(#[trigger] ucol(old(game_state)@, j))) ==> final(game_state)@
            == old(game_state)@ && score == 0,
        direction == Direction::Down && !(exists|j: int|
            0 <= j < 4 && can_shift4(rev4(#[trigger] ucol(old(game_state)@, j)))) ==> final(game_state)@ == old(game_state)@ && score == 0,
        direction == Direction::Left && (exists|i: int|
            0 <= i < 4 && can_shift4(#[trigger] urow(old(game_state)@, i))) ==> score as int
            == row_prefix_score(old(game_state)@, 4) && spawned_from(
            flat_after(old(game_state)@, direction),
            final(game_state)@,
        ),
        direction == Direction::Right && (exists|i: int|
            0 <= i < 4 && can_shift4(rev4(#[trigger] urow(old(game_state)@, i)))) ==> score as int
            == row_prefix_score_r(old(game_state)@, 4) && spawned_from(
            flat_after(old(game_state)@, direction),
            final(game_state)@,
        ),
        direction == Direction::Up && (exists|j: int|
            0 <= j < 4 && can_shift4(#[trigger] ucol(old(game_state)@, j))) ==> score as int
            == col_prefix_score(old(game_state)@, 4) && spawned_from(
            flat_after(old(game_state)@, direction),
            final(game_state)@,
        ),
        direction == Direction::Down && (exists|j: int|
            0 <= j < 4 && can_shift4(rev4(#[trigger] ucol(old(game_state)@, j)))) ==> score as int
            == col_prefix_score_r(old(game_state)@, 4) && spawned_from(
            flat_after(old(game_state)@, direction),
            final(game_state)@,
        ),
        direction == Direction::Stay ==> score == -1 && spawned_from(
            old(game_state)@,
            final(game_state)@,
        ),
{
    let ghost g0 = game_state@;
    let score = match direction {
        Direction::Left => {
            if can_left(game_state) {
                let s = move_left(game_state);
                proof {
                    lemma_row_prefix_unfold(g0);
                    lemma_flat_after_left(g0, game_state@);
                }
                s
            } else {
                return 0;
            }
        },
        Direction::Right => {
            if can_right(game_state) {
                let s = move_right(game_state);
                proof {
                    lemma_flat_after_right(g0, game_state@);
                }
                s
            } else {
                return 0;
            }
        },
        Direction::Up => {
            if can_up(game_state) {
                let s = move_up(game_state);
                proof {
                    lemma_flat_after_up(g0, game_state@);
                }
                s
            } else {
                return 0;
            }
        },
        Direction::Down => {
            if can_down(game_state) {
                let s = move_down(game_state);
                proof {
                    lemma_flat_after_down(g0, game_state@);
                }
                s
            } else {
                return 0;
            }
        },
        Direction::Stay => -1,
    };
    add_block(game_state, rand);
    proof {
        lemma_zeros_nonneg(flat_after(g0, direction), 0);
    }
    score
}

/// The legality test is exact: a line can shift or merge leftward
/// exactly when the left slide changes it.
pub proof fn lemma_can_shift_iff_changes(s: Seq<u32>)
    requires
        s.len() == 4,
        forall|k: int| 0 <= k < 4 ==> #[trigger] s[k] < 0x100,
    ensures
        can_shift4(s) <==> row_left_fields(s) != s,
{
    if !can_shift4(s) {
        // no nonzero cell follows a zero and adjacent nonzero cells
        // differ: the line is an adjacent-distinct prefix plus zeros, a
        // fixed point of the slide
        assert forall|i: int| 1 <= i < s.len() implies #[trigger] s[i] != 0 ==> s[i - 1] != 0 by {
            if s[i] != 0 && s[i - 1] == 0 {
                assert(s[i] != 0 && (s[i] == s[i - 1] || s[i - 1] == 0));
            }
        }
        crate::rows::lemma_nonzero_prefix(s);
        let k = choose|k: int|
            0 <= k <= s.len() && (forall|j: int| 0 <= j < k ==> s[j] != 0) && (forall|j: int|
                #![trigger s[j]]
                k <= j < s.len() ==> s[j] == 0) && nonzeros(s) == #[trigger] s.take(k);
        assert forall|i: int| 1 <= i < k implies #[trigger] s.take(k)[i] != s.take(k)[i - 1] by {
            if s[i] == s[i - 1] {
                assert(s[i] != 0 && (s[i] == s[i - 1] || s[i - 1] == 0));
            }
        }
        crate::rows::lemma_merged_of_distinct(s.take(k));
        assert(row_left_fields(s) == zero_pad(s.take(k), 4));
        assert(zero_pad(s.take(k), 4) =~= s);
    }
    if can_shift4(s) {
        let i = choose|i: int|
            1 <= i < 4 && #[trigger] s[i] != 0 && (s[i] == s[i - 1] || s[i - 1] == 0);
        lemma_nonzeros_props(s, 255);
        let nz = nonzeros(s);
        crate::rows::lemma_merged_len(nz);
        let m = merged(nz);
        if exists|j: int| 1 <= j < s.len() && #[trigger] s[j] != 0 && s[j - 1] == 0 {
            // a zero sits before a tile: after compaction the tiles form
            // a prefix, so the cell pattern must have changed
            let j = choose|j: int| 1 <= j < s.len() && #[trigger] s[j] != 0 && s[j - 1] == 0;
            if row_left_fields(s) == s {
                assert forall|k: int| 0 <= k < m.len() implies #[trigger] m[k] != 0 by {
                    crate::rows::lemma_merged_nonzero(nz, 255);
                }
                assert(row_left_fields(s)[j - 1] == 0);
                assert(j - 1 >= m.len() || m[j - 1] != 0);
                assert(j - 1 >= m.len());
                assert(row_left_fields(s)[j] == 0);
                assert(s[j] == 0);
                assert(false);
            }
        } else {
            // no zero before a tile, so the witness is an adjacent equal
            // pair inside the nonzero prefix: the merge pass shortens it
            assert(s[i] == s[i - 1] && s[i] != 0 && s[i - 1] != 0);
            assert forall|i2: int| 1 <= i2 < s.len() implies #[trigger] s[i2] != 0 ==> s[i2 - 1]
                != 0 by {
                if s[i2] != 0 && s[i2 - 1] == 0 {
                    assert(s[i2] != 0 && s[i2 - 1] == 0);
                }
            }
            crate::rows::lemma_nonzero_prefix(s);
            let k = choose|k: int|
                0 <= k <= s.len() && (forall|j: int| 0 <= j < k ==> s[j] != 0) && (forall|j: int|
                    #![trigger s[j]]
                    k <= j < s.len() ==> s[j] == 0) && nonzeros(s) == #[trigger] s.take(k);
            assert(i < k);
            assert(s.take(k)[i] == s.take(k)[i - 1]);
            assert forall|k2: int| 0 <= k2 < s.take(k).len() implies #[trigger] s.take(k)[k2]
                != 0 by {}
            crate::rows::lemma_merged_shrinks_on_pair(s.take(k));
            if row_left_fields(s) == s {
                // equal lines have equally many tiles, but the merge
                // removed one
                crate::rows::lemma_nonzeros_padded(m, 4);
                assert(forall|k2: int| 0 <= k2 < m.len() ==> #[trigger] m[k2] != 0) by {
                    crate::rows::lemma_merged_nonzero(nz, 255);
                }
                assert(nonzeros(row_left_fields(s)) == m);
                assert(nonzeros(s) == m);
                assert(m.len() < nz.len());
                assert(false);
            }
        }
    }
}

/// The empty-cell count is never negative.
proof fn lemma_zeros_nonneg(s: Seq<u8>, k: int)
    ensures
        zeros_from(s, k) >= 0,
    decreases 16 - k,
{
    if 0 <= k < 16 {
        lemma_zeros_nonneg(s, k + 1);
    }
}

/// A board whose rows are all slid left is the left flat image.
proof fn lemma_flat_after_left(g0: Seq<u8>, g1: Seq<u8>)
    requires
        g0.len() == 16,
        g1.len() == 16,
        forall|i: int| 0 <= i < 4 ==> #[trigger] urow(g1, i) == row_left_fields(urow(g0, i)),
    ensures
        g1 == flat_after(g0, Direction::Left),
{
    assert forall|k: int| 0 <= k < 16 implies g1[k] == flat_after(g0, Direction::Left)[k] by {
        let i = k / 4;
        let j = k % 4;
        assert(urow(g1, i)[j] == row_left_fields(urow(g0, i))[j]);
        assert(urow(g1, i)[j] == g1[4 * i + j] as u32);
        assert(4 * i + j == k);
    }
    assert(g1 =~= flat_after(g0, Direction::Left));
}

/// A board whose rows are all slid right is the right flat image.
proof fn lemma_flat_after_right(g0: Seq<u8>, g1: Seq<u8>)
    requires
        g0.len() == 16,
        g1.len() == 16,
        forall|i: int| 0 <= i < 4 ==> #[trigger] urow(g1, i) == row_right_fields(urow(g0, i)),
    ensures
        g1 == flat_after(g0, Direction::Right),
{
    assert forall|k: int| 0 <= k < 16 implies g1[k] == flat_after(g0, Direction::Right)[k] by {
        let i = k / 4;
        let j = k % 4;
        assert(urow(g1, i)[j] == row_right_fields(urow(g0, i))[j]);
        assert(urow(g1, i)[j] == g1[4 * i + j] as u32);
        assert(4 * i + j == k);
    }
    assert(g1 =~= flat_after(g0, Direction::Right));
}

/// A board whose columns are all slid up is the upward flat image.
proof fn lemma_flat_after_up(g0: Seq<u8>, g1: Seq<u8>)
    requires
        g0.len() == 16,
        g1.len() == 16,
        forall|j: int| 0 <= j < 4 ==> #[trigger] ucol(g1, j) == row_left_fields(ucol(g0, j)),
    ensures
        g1 == flat_after(g0, Direction::Up),
{
    assert forall|k: int| 0 <= k < 16 implies g1[k] == flat_after(g0, Direction::Up)[k] by {
        let i = k / 4;
        let j = k % 4;
        assert(ucol(g1, j)[i] == row_left_fields(ucol(g0, j))[i]);
        assert(ucol(g1, j)[i] == g1[4 * i + j] as u32);
        assert(4 * i + j == k);
    }
    assert(g1 =~= flat_after(g0, Direction::Up));
}

/// A board whose columns are all slid down is the downward flat image.
proof fn lemma_flat_after_down(g0: Seq<u8>, g1: Seq<u8>)
    requires
        g0.len() == 16,
        g1.len() == 16,
        forall|j: int| 0 <= j < 4 ==> #[trigger] ucol(g1, j) == row_right_fields(ucol(g0, j)),
    ensures
        g1 == flat_after(g0, Direction::Down),
{
    assert forall|k: int| 0 <= k < 16 implies g1[k] == flat_after(g0, Direction::Down)[k] by {
        let i = k / 4;
        let j = k % 4;
        assert(ucol(g1, j)[i] == row_right_fields(ucol(g0, j))[i]);
        assert(ucol(g1, j)[i] == g1[4 * i + j] as u32);
        assert(4 * i + j == k);
    }
    assert(g1 =~= flat_after(g0, Direction::Down));
}

/// Writes the four-term form of the left row scores.
proof fn lemma_row_prefix_unfold(s: Seq<u8>)
    ensures
        row_prefix_score(s, 4) == row_left_score(urow(s, 0)) + row_left_score(urow(s, 1))
            + row_left_score(urow(s, 2)) + row_left_score(urow(s, 3)),
{
    assert(row_prefix_score(s, 4) == row_prefix_score(s, 3) + row_left_score(urow(s, 3)));
    assert(row_prefix_score(s, 3) == row_prefix_score(s, 2) + row_left_score(urow(s, 2)));
    assert(row_prefix_score(s, 2) == row_prefix_score(s, 1) + row_left_score(urow(s, 1)));
    assert(row_prefix_score(s, 1) == row_prefix_score(s, 0) + row_left_score(urow(s, 0)));
    assert(row_prefix_score(s, 0) == 0);
}

/// Can some row shift or merge leftward?
pub fn can_left(game_state: &[u8; 16]) -> (r: bool)
    ensures
        r == exists|i: int| 0 <= i < 4 && can_shift4(#[trigger] urow(game_state@, i)),
{
    let mut i: usize = 0;
    while i < 4
        invariant
            i <= 4,
            forall|ii: int| 0 <= ii < i ==> !can_shift4(#[trigger] urow(game_state@, ii)),
        decreases 4 - i,
    {
        if can_left_line(game_state, 4 * i, 1) {
            return true;
        }
        i += 1;
    }
    false
}

/// Can some row shift or merge rightward? A right shift of a row is a
/// left shift of the reversed row.
pub fn can_right(game_state: &[u8; 16]) -> (r: bool)
    ensures
        r == exists|i: int| 0 <= i < 4 && can_shift4(rev4(#[trigger] urow(game_state@, i))),
{
    let mut i: usize = 0;
    while i < 4
        invariant
            i <= 4,
            forall|ii: int| 0 <= ii < i ==> !can_shift4(rev4(#[trigger] urow(game_state@, ii))),
        decreases 4 - i,
    {
        if can_left_line(game_state, 4 * i + 3, -1) {
            return true;
        }
        i += 1;
    }
    false
}

/// Can some column shift or merge upward?
pub fn can_up(game_state: &[u8; 16]) -> (r: bool)
    ensures
        r == exists|j: int| 0 <= j < 4 && can_shift4(#[trigger] ucol(game_state@, j)),
{
    let mut j: usize = 0;
    while j < 4
        invariant
            j <= 4,
            forall|jj: int| 0 <= jj < j ==> !can_shift4(#[trigger] ucol(game_state@, jj)),
        decreases 4 - j,
    {
        if can_left_line(game_state, j, 4) {
            return true;
        }
        j += 1;
    }
    false
}

/// Can some column shift or merge downward?
pub fn can_down(game_state: &[u8; 16]) -> (r: bool)
    ensures
        r == exists|j: int| 0 <= j < 4 && can_shift4(rev4(#[trigger] ucol(game_state@, j))),
{
    let mut j: usize = 0;
    while j < 4
        invariant
            j <= 4,
            forall|jj: int| 0 <= jj < j ==> !can_shift4(rev4(#[trigger] ucol(game_state@, jj))),
        decreases 4 - j,
    {
        if can_left_line(game_state, j + 12, -4) {
            return true;
        }
        j += 1;
    }
    false
}

/// The flat board is lost when no direction can shift or merge.
pub fn is_lost(game_state: &[u8; 16]) -> (r: bool)
    ensures
        r == !((exists|i: int| 0 <= i < 4 && can_shift4(#[trigger] urow(game_state@, i))) || (
        exists|i: int| 0 <= i < 4 && can_shift4(rev4(#[trigger] urow(game_state@, i)))) || (exists|
            j: int,
        | 0 <= j < 4 && can_shift4(#[trigger] ucol(game_state@, j))) || (exists|j: int|
            0 <= j < 4 && can_shift4(rev4(#[trigger] ucol(game_state@, j))))),
{
    !(can_left(game_state) || can_right(game_state) || can_up(game_state) || can_down(game_state))
}

/// One line's leftward test, walking four cells from `start` with the
/// given stride.
fn can_left_line(game_state: &[u8; 16], start: usize, stride: i32) -> (r: bool)
    requires
        stride == 1 || stride == -1 || stride == 4 || stride == -4,
        stride == 1 ==> start % 4 == 0 && start < 16,
        stride == -1 ==> start % 4 == 3 && start < 16,
        stride == 4 ==> start < 4,
        stride == -4 ==> 12 <= start < 16,
    ensures
        stride == 1 ==> r == can_shift4(urow(game_state@, start as int / 4)),
        stride == -1 ==> r == can_shift4(rev4(urow(game_state@, start as int / 4))),
        stride == 4 ==> r == can_shift4(ucol(game_state@, start as int)),
        stride == -4 ==> r == can_shift4(rev4(ucol(game_state@, (start - 12) as int))),
{
    let c0: u8;
    let c1: u8;
    let c2: u8;
    let c3: u8;
    if stride == 1 {
        c0 = game_state[start];
        c1 = game_state[start + 1];
        c2 = game_state[start + 2];
        c3 = game_state[start + 3];
    } else if stride == -1 {
        c0 = game_state[start];
        c1 = game_state[start - 1];
        c2 = game_state[start - 2];
        c3 = game_state[start - 3];
    } else if stride == 4 {
        c0 = game_state[start];
        c1 = game_state[start + 4];
        c2 = game_state[start + 8];
        c3 = game_state[start + 12];
    } else {
        c0 = game_state[start];
        c1 = game_state[start - 4];
        c2 = game_state[start - 8];
        c3 = game_state[start - 12];
    }
    let r = (c1 != 0 && (c1 == c0 || c0 == 0)) || (c2 != 0 && (c2 == c1 || c1 == 0)) || (c3 != 0
        && (c3 == c2 || c2 == 0));
    proof {
        let s: Seq<u32> = if stride == 1 {
            urow(game_state@, start as int / 4)
        } else if stride == -1 {
            rev4(urow(game_state@, start as int / 4))
        } else if stride == 4 {
            ucol(game_state@, start as int)
        } else {
            rev4(ucol(game_state@, (start - 12) as int))
        };
        assert(s.len() == 4);
        assert(s[0] == c0 as u32 && s[1] == c1 as u32 && s[2] == c2 as u32 && s[3] == c3 as u32);
        if r {
            if c1 != 0 && (c1 == c0 || c0 == 0) {
                assert(s[1] != 0 && (s[1] == s[0] || s[0] == 0));
            } else if c2 != 0 && (c2 == c1 || c1 == 0) {
                assert(s[2] != 0 && (s[2] == s[1] || s[1] == 0));
            } else {
                assert(s[3] != 0 && (s[3] == s[2] || s[2] == 0));
            }
        }
        if can_shift4(s) {
            let i = choose|i: int| 1 <= i < 4 && #[trigger] s[i] != 0 && (s[i] == s[i - 1] || s[i
                - 1] == 0);
            assert(r);
        }
    }
    r
}

/// Places a tile of exponent 1 (nine times in ten) or 2 at a uniformly
/// random empty cell of the flat board; a full board stays unchanged.
pub fn add_block(game_state: &mut [u8; 16], rand: &seeded_random::Random)
    ensures
        zeros_from(old(game_state)@, 0) == 0 ==> final(game_state)@ == old(game_state)@,
        zeros_from(old(game_state)@, 0) > 0 ==> exists|k: int|
            0 <= k < 16 && old(game_state)@[k] == 0 && (1 <= #[trigger] final(game_state)@[k] <= 2)
                && (forall|k2: int|
                0 <= k2 < 16 && k2 != k ==> final(game_state)@[k2] == old(game_state)@[k2]),
{
    let value: u8 = if random_range(rand, 0, 10) < 9 {
        1
    } else {
        2
    };
    let mut count: u32 = 0;
    let mut k: usize = 0;
    while k < 16
        invariant
            k <= 16,
            game_state@ == old(game_state)@,
            count as int + zeros_from(game_state@, k as int) == zeros_from(game_state@, 0),
            count <= k,
        decreases 16 - k,
    {
        if game_state[k] == 0 {
            count = count + 1;
        }
        k = k + 1;
    }
    if count == 0 {
        return ;
    }
    let mut index: u32 = random_range(rand, 0, count);
    let mut k: usize = 0;
    while k < 16
        invariant
            k <= 16,
            game_state@ == old(game_state)@,
            zeros_from(old(game_state)@, 0) > 0,
            1 <= value <= 2,
            (index as int) < zeros_from(game_state@, k as int),
        decreases 16 - k,
    {
        if game_state[k] == 0 {
            if index == 0 {
                proof {
                    assert(game_state@[k as int] == 0);
                }
                game_state[k] = value;
                proof {
                    assert(old(game_state)@[k as int] == 0);
                    assert(game_state@[k as int] == value);
                    assert(forall|k2: int|
                        0 <= k2 < 16 && k2 != k as int ==> game_state@[k2] == old(game_state)@[k2]);
                }
                return ;
            }
            index = index - 1;
        }
        k = k + 1;
    }
    proof {
        assert(zeros_from(game_state@, 16) == 0);
        assert(false);
    }
}

} // verus!
