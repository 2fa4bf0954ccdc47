//! Mathematical model of one board row: four 5-bit tile exponents packed
//! into the low 20 bits of a `u32`, and the left-slide-and-merge transition
//! on the sequence of exponents.

use vstd::prelude::*;
use vstd::arithmetic::power2::{pow2, lemma_pow2_adds, lemma_pow2_strictly_increases, lemma2_to64};

verus! {

/// Largest tile exponent the move table covers; the tile's value is 2^17.
pub const MAX_BLOCK_EXPONENT: u32 = 17;

/// Number of row bit patterns the move table stores: every packed row whose
/// four fields are each at most `MAX_BLOCK_EXPONENT` lies below this bound,
/// which is (17 << 15) + (17 << 10) + (17 << 5) + 17 + 1.
pub const TABLE_SIZE: usize = 17 * 32768 + 17 * 1024 + 17 * 32 + 17 + 1;

/// Field `j` of a packed row, in display order: field 0 is the leftmost
/// cell and sits in bits 15..20, field 3 is the rightmost in bits 0..5.
pub open spec fn row_field(row: u32, j: int) -> u32 {
    (row >> ((15 - 5 * j) as u32)) & 0x1F
}

/// The four exponents of a packed row, leftmost first.
pub open spec fn row_fields(row: u32) -> Seq<u32> {
    Seq::new(4, |j: int| row_field(row, j))
}

/// Packs four exponents (each below 32) into the canonical row encoding.
pub open spec fn pack_row(s: Seq<u32>) -> u32 {
    (s[0] << 15u32) | (s[1] << 10u32) | (s[2] << 5u32) | s[3]
}

/// A row the move table is total over: canonical 20-bit encoding with every
/// exponent at most `MAX_BLOCK_EXPONENT`.
pub open spec fn valid_row(row: u32) -> bool {
    &&& row < 0x100000
    &&& row_field(row, 0) <= MAX_BLOCK_EXPONENT
    &&& row_field(row, 1) <= MAX_BLOCK_EXPONENT
    &&& row_field(row, 2) <= MAX_BLOCK_EXPONENT
    &&& row_field(row, 3) <= MAX_BLOCK_EXPONENT
}

/// The subsequence of nonzero exponents, in order.
pub open spec fn nonzeros(s: Seq<u32>) -> Seq<u32>
    decreases s.len(),
{
    if s.len() == 0 {
        Seq::empty()
    } else if s[0] == 0 {
        nonzeros(s.skip(1))
    } else {
        seq![s[0]] + nonzeros(s.skip(1))
    }
}

/// One strict left-to-right greedy merge pass: two equal leading exponents
/// fuse into their successor and the scan resumes after the pair, so a
/// freshly merged cell never merges again within the pass.
pub open spec fn merged(s: Seq<u32>) -> Seq<u32>
    decreases s.len(),
{
    if s.len() == 0 {
        Seq::empty()
    } else if s.len() >= 2 && s[0] == s[1] {
        seq![(s[0] + 1) as u32] + merged(s.skip(2))
    } else {
        seq![s[0]] + merged(s.skip(1))
    }
}

/// Score of one merge pass: each merge of two exponent-`e` tiles is worth
/// 2^(e+1).
pub open spec fn merged_score(s: Seq<u32>) -> int
    decreases s.len(),
{
    if s.len() == 0 {
        0
    } else if s.len() >= 2 && s[0] == s[1] {
        2 * pow2(s[0] as nat) + merged_score(s.skip(2))
    } else {
        merged_score(s.skip(1))
    }
}

/// Pads a sequence with zero fields on the right up to length `n`.
pub open spec fn zero_pad(s: Seq<u32>, n: nat) -> Seq<u32> {
    s + Seq::new((n - s.len()) as nat, |i: int| 0u32)
}

/// The four exponents of a row after sliding left: nonzero cells compact to
/// the left, one greedy merge pass runs, zeros fill the tail.
pub open spec fn row_left_fields(s: Seq<u32>) -> Seq<u32> {
    zero_pad(merged(nonzeros(s)), 4)
}

/// Score gained by sliding this row left.
pub open spec fn row_left_score(s: Seq<u32>) -> int {
    merged_score(nonzeros(s))
}

/// The packed row after sliding left.
pub open spec fn row_left_u(row: u32) -> u32 {
    pack_row(row_left_fields(row_fields(row)))
}

/// Value of one tile: 2^e for a tile of exponent e, 0 for an empty cell.
pub open spec fn tile_val(e: u32) -> int {
    if e == 0 {
        0
    } else {
        pow2(e as nat) as int
    }
}

/// Total tile value of a sequence of exponents.
pub open spec fn seq_val_sum(s: Seq<u32>) -> int
    decreases s.len(),
{
    if s.len() == 0 {
        0
    } else {
        tile_val(s[0]) + seq_val_sum(s.skip(1))
    }
}

/// Total tile value of a packed row.
pub open spec fn row_sum(row: u32) -> int {
    seq_val_sum(row_fields(row))
}

/// Appending an element commutes with dropping zeros.
pub proof fn lemma_nonzeros_push(s: Seq<u32>, x: u32)
    ensures
        nonzeros(s.push(x)) == if x != 0 {
            nonzeros(s).push(x)
        } else {
            nonzeros(s)
        },
    decreases s.len(),
{
    if s.len() == 0 {
        assert(s.push(x).skip(1) =~= Seq::<u32>::empty());
        assert(s.push(x)[0] == x);
        assert(nonzeros(Seq::<u32>::empty()) =~= Seq::<u32>::empty());
        assert(nonzeros(s) =~= Seq::<u32>::empty());
        if x != 0 {
            assert(nonzeros(s.push(x)) == seq![x] + nonzeros(s.push(x).skip(1)));
            assert(seq![x] + Seq::<u32>::empty() =~= nonzeros(s).push(x));
        } else {
            assert(nonzeros(s.push(x)) == nonzeros(s.push(x).skip(1)));
        }
    } else {
        assert(s.push(x).skip(1) =~= s.skip(1).push(x));
        assert(s.push(x)[0] == s[0]);
        lemma_nonzeros_push(s.skip(1), x);
        if s[0] == 0 {
            assert(nonzeros(s.push(x)) == nonzeros(s.skip(1).push(x)));
            assert(nonzeros(s) == nonzeros(s.skip(1)));
        } else {
            assert(nonzeros(s.push(x)) == seq![s[0]] + nonzeros(s.skip(1).push(x)));
            assert(nonzeros(s) == seq![s[0]] + nonzeros(s.skip(1)));
            if x != 0 {
                assert(seq![s[0]] + nonzeros(s.skip(1)).push(x) =~= (seq![s[0]] + nonzeros(
                    s.skip(1),
                )).push(x));
            }
        }
    }
}

/// Dropping zeros keeps length bounded, keeps every element nonzero and
/// bounded, and preserves the total tile value.
pub proof fn lemma_nonzeros_props(s: Seq<u32>, b: u32)
    requires
        forall|k: int| 0 <= k < s.len() ==> s[k] <= b,
    ensures
        nonzeros(s).len() <= s.len(),
        forall|k: int| 0 <= k < nonzeros(s).len() ==> 0 < #[trigger] nonzeros(s)[k] <= b,
        seq_val_sum(nonzeros(s)) == seq_val_sum(s),
    decreases s.len(),
{
    if s.len() == 0 {
    } else {
        assert(forall|k: int| 0 <= k < s.skip(1).len() ==> #[trigger] s.skip(1)[k] == s[k + 1]);
        lemma_nonzeros_props(s.skip(1), b);
        if s[0] == 0 {
        } else {
            assert(nonzeros(s) == seq![s[0]] + nonzeros(s.skip(1)));
            assert(nonzeros(s).skip(1) =~= nonzeros(s.skip(1)));
            assert(seq_val_sum(nonzeros(s)) == tile_val(s[0]) + seq_val_sum(nonzeros(s.skip(1))));
        }
    }
}

/// One merge pass on a sequence of nonzero exponents bounded by `b`: the
/// result is no longer, stays nonzero and bounded by `b + 1`, keeps the
/// total tile value, and the score is nonnegative, bounded, and positive
/// exactly when the pass shortened the sequence.
pub proof fn lemma_merged_props(s: Seq<u32>, b: u32)
    requires
        b <= 30,
        forall|k: int| 0 <= k < s.len() ==> 0 < #[trigger] s[k] <= b,
    ensures
        merged(s).len() <= s.len(),
        s.len() > 0 ==> merged(s).len() >= 1,
        forall|k: int| 0 <= k < merged(s).len() ==> 0 < #[trigger] merged(s)[k] <= b + 1,
        seq_val_sum(merged(s)) == seq_val_sum(s),
        0 <= merged_score(s),
        2 * merged_score(s) <= s.len() * tile_val((b + 1) as u32),
        merged_score(s) > 0 ==> merged(s).len() < s.len(),
        merged_score(s) == 0 ==> merged(s) == s,
    decreases s.len(),
{
    assert(0 < b + 1);
    assert(tile_val((b + 1) as u32) == pow2((b + 1) as nat));
    vstd::arithmetic::power2::lemma_pow2_pos((b + 1) as nat);
    if s.len() == 0 {
        assert(merged(s) =~= s);
    } else if s.len() >= 2 && s[0] == s[1] {
        assert(forall|k: int| 0 <= k < s.skip(2).len() ==> #[trigger] s.skip(2)[k] == s[k + 2]);
        lemma_merged_props(s.skip(2), b);
        assert(merged(s) == seq![(s[0] + 1) as u32] + merged(s.skip(2)));
        assert(merged(s).skip(1) =~= merged(s.skip(2)));
        // the merged pair keeps its combined value: 2^e + 2^e == 2^(e+1)
        assert(s[0] >= 1 && s[0] + 1 <= b + 1);
        lemma_pow2_adds(s[0] as nat, 1);
        lemma2_to64();
        assert(pow2((s[0] + 1) as nat) == 2 * pow2(s[0] as nat));
        assert(tile_val((s[0] + 1) as u32) == tile_val(s[0]) + tile_val(s[1]));
        assert(seq_val_sum(s.skip(1)) == tile_val(s[1]) + seq_val_sum(s.skip(2))) by {
            assert(s.skip(1).skip(1) =~= s.skip(2));
            assert(s.skip(1)[0] == s[1]);
        }
        assert(seq_val_sum(merged(s)) == seq_val_sum(s));
        // score bound: this merge contributes 2^(e+1) <= 2^(b+1)
        assert(2 * pow2(s[0] as nat) == pow2((s[0] + 1) as nat));
        if s[0] + 1 < b + 1 {
            lemma_pow2_strictly_increases((s[0] + 1) as nat, (b + 1) as nat);
        }
        assert(pow2((s[0] + 1) as nat) <= pow2((b + 1) as nat));
        assert(merged_score(s) > 0) by {
            vstd::arithmetic::power2::lemma_pow2_pos(s[0] as nat);
        }
        assert(2 * tile_val((b + 1) as u32) + (s.len() - 2) * tile_val((b + 1) as u32) == s.len()
            * tile_val((b + 1) as u32)) by (nonlinear_arith);
    } else {
        assert(forall|k: int| 0 <= k < s.skip(1).len() ==> #[trigger] s.skip(1)[k] == s[k + 1]);
        lemma_merged_props(s.skip(1), b);
        assert(merged(s) == seq![s[0]] + merged(s.skip(1)));
        assert(merged(s).skip(1) =~= merged(s.skip(1)));
        if merged_score(s) == 0 {
            assert(merged(s) =~= s) by {
                assert(merged(s.skip(1)) == s.skip(1));
            }
        }
        assert(1 * tile_val((b + 1) as u32) + (s.len() - 1) * tile_val((b + 1) as u32) == s.len()
            * tile_val((b + 1) as u32)) by (nonlinear_arith);
        assert(2 * merged_score(s) <= s.len() * tile_val((b + 1) as u32));
    }
}

/// The total tile value bounds every single tile's value, and is itself
/// bounded by the length times the largest tile value.
pub proof fn lemma_seq_val_sum_bounds(s: Seq<u32>, b: u32)
    requires
        forall|k: int| 0 <= k < s.len() ==> #[trigger] s[k] <= b,
    ensures
        0 <= seq_val_sum(s),
        seq_val_sum(s) <= s.len() * tile_val(b),
        forall|k: int| 0 <= k < s.len() ==> tile_val(#[trigger] s[k]) <= seq_val_sum(s),
    decreases s.len(),
{
    if b > 0 {
        vstd::arithmetic::power2::lemma_pow2_pos(b as nat);
    }
    if s.len() == 0 {
    } else {
        assert(forall|k: int| 0 <= k < s.skip(1).len() ==> #[trigger] s.skip(1)[k] == s[k + 1]);
        lemma_seq_val_sum_bounds(s.skip(1), b);
        assert(tile_val(s[0]) <= tile_val(b)) by {
            if 0 < s[0] < b {
                lemma_pow2_strictly_increases(s[0] as nat, b as nat);
            }
            if s[0] > 0 {
                vstd::arithmetic::power2::lemma_pow2_pos(s[0] as nat);
            }
        }
        assert(forall|k: int| 1 <= k < s.len() ==> tile_val(#[trigger] s[k]) <= seq_val_sum(s))
            by {
            assert(forall|k: int| 1 <= k < s.len() ==> s.skip(1)[k - 1] == #[trigger] s[k]);
            assert(tile_val(s[0]) >= 0);
        }
        assert(1 * tile_val(b) + (s.len() - 1) * tile_val(b) == s.len() * tile_val(b))
            by (nonlinear_arith);
    }
}

/// A tile of exponent 18 or more is worth at least 2^18; a row whose total
/// value stays below 2^18 therefore only holds exponents up to 17.
pub proof fn lemma_small_sum_valid_fields(s: Seq<u32>)
    requires
        forall|k: int| 0 <= k < s.len() ==> #[trigger] s[k] < 32,
        seq_val_sum(s) < pow2(18),
    ensures
        forall|k: int| 0 <= k < s.len() ==> #[trigger] s[k] <= MAX_BLOCK_EXPONENT,
{
    lemma_seq_val_sum_bounds(s, 31);
    assert forall|k: int| 0 <= k < s.len() implies #[trigger] s[k] <= MAX_BLOCK_EXPONENT by {
        if s[k] > MAX_BLOCK_EXPONENT {
            assert(tile_val(s[k]) == pow2(s[k] as nat));
            if 18 < s[k] {
                lemma_pow2_strictly_increases(18, s[k] as nat);
            }
            assert(pow2(18) <= pow2(s[k] as nat));
            assert(tile_val(s[k]) <= seq_val_sum(s));
        }
    }
}

/// Packing four 5-bit fields yields a canonical 20-bit row that unpacks to
/// exactly those fields.
pub proof fn lemma_pack_fields(a: u32, b: u32, c: u32, d: u32)
    by (bit_vector)
    requires
        a < 32,
        b < 32,
        c < 32,
        d < 32,
    ensures
        ((a << 15u32) | (b << 10u32) | (c << 5u32) | d) < 0x100000,
        (((a << 15u32) | (b << 10u32) | (c << 5u32) | d) >> 15u32) & 0x1F == a,
        (((a << 15u32) | (b << 10u32) | (c << 5u32) | d) >> 10u32) & 0x1F == b,
        (((a << 15u32) | (b << 10u32) | (c << 5u32) | d) >> 5u32) & 0x1F == c,
        (((a << 15u32) | (b << 10u32) | (c << 5u32) | d) >> 0u32) & 0x1F == d,
{
}

/// Unpacking a canonical 20-bit row and packing the fields again restores
/// the row.
pub proof fn lemma_unpack_pack(r: u32)
    by (bit_vector)
    requires
        r < 0x100000,
    ensures
        ((((r >> 15u32) & 0x1F) << 15u32) | (((r >> 10u32) & 0x1F) << 10u32) | (((r >> 5u32)
            & 0x1F) << 5u32) | ((r >> 0u32) & 0x1F)) == r,
{
}

/// Every 5-bit field is below 32.
pub proof fn lemma_field_bounds(r: u32)
    by (bit_vector)
    ensures
        (r >> 15u32) & 0x1F < 32,
        (r >> 10u32) & 0x1F < 32,
        (r >> 5u32) & 0x1F < 32,
        (r >> 0u32) & 0x1F < 32,
{
}

/// A canonical row whose fields stay at most 17 lies below `TABLE_SIZE`.
pub proof fn lemma_valid_row_lt_table(r: u32)
    by (bit_vector)
    requires
        r < 0x100000,
        (r >> 15u32) & 0x1F <= 17,
        (r >> 10u32) & 0x1F <= 17,
        (r >> 5u32) & 0x1F <= 17,
        (r >> 0u32) & 0x1F <= 17,
    ensures
        r < 575026,
{
}

/// The four field projections, named at their concrete display indices, so
/// callers can move between `row_field` and raw shifts.
pub proof fn lemma_row_field_unfold(r: u32)
    ensures
        row_field(r, 0) == (r >> 15u32) & 0x1F,
        row_field(r, 1) == (r >> 10u32) & 0x1F,
        row_field(r, 2) == (r >> 5u32) & 0x1F,
        row_field(r, 3) == (r >> 0u32) & 0x1F,
{
}

/// A canonical row is exactly the packing of its own fields.
pub proof fn lemma_pack_row_fields(r: u32)
    requires
        r < 0x100000,
    ensures
        pack_row(row_fields(r)) == r,
{
    lemma_row_field_unfold(r);
    lemma_unpack_pack(r);
}

/// Packing four small fields gives a canonical row with exactly those
/// fields.
pub proof fn lemma_row_fields_of_pack(s: Seq<u32>)
    requires
        s.len() == 4,
        forall|k: int| 0 <= k < 4 ==> #[trigger] s[k] < 32,
    ensures
        pack_row(s) < 0x100000,
        row_fields(pack_row(s)) =~= s,
{
    lemma_pack_fields(s[0], s[1], s[2], s[3]);
    lemma_row_field_unfold(pack_row(s));
}

/// Any 5-bit field extraction is below 32, for any shift amount.
pub proof fn lemma_field5_bound(x: u32, s: u32)
    by (bit_vector)
    ensures
        (x >> s) & 0x1F < 32,
{
}

/// Clearing bit field `c` (counted from the low bits, five bits per field)
/// and writing `v` there changes only that field and stays canonical; `j`
/// is any other field.
pub proof fn lemma_clear_set_field(x: u32, c: u32, v: u32, j: u32)
    by (bit_vector)
    requires
        c < 4,
        v < 32,
        x < 0x100000,
        j < 4,
    ensures
        ((x & !(0x1Fu32 << (5 * c))) | (v << (5 * c))) < 0x100000,
        (((x & !(0x1Fu32 << (5 * c))) | (v << (5 * c))) >> (5 * c)) & 0x1F == v,
        j != c ==> (((x & !(0x1Fu32 << (5 * c))) | (v << (5 * c))) >> (5 * j)) & 0x1F == (x >> (5
            * j)) & 0x1F,
{
}

/// Writing `v` into an empty bit field `c` by a plain bitwise or changes
/// only that field and stays canonical; `j` is any other field.
pub proof fn lemma_or_set_field(x: u32, c: u32, v: u32, j: u32)
    by (bit_vector)
    requires
        c < 4,
        v < 32,
        x < 0x100000,
        (x >> (5 * c)) & 0x1F == 0,
        j < 4,
    ensures
        (x | (v << (5 * c))) < 0x100000,
        ((x | (v << (5 * c))) >> (5 * c)) & 0x1F == v,
        j != c ==> ((x | (v << (5 * c))) >> (5 * j)) & 0x1F == (x >> (5 * j)) & 0x1F,
{
}

/// Total tile value splits over concatenation.
pub proof fn lemma_seq_val_sum_concat(a: Seq<u32>, b: Seq<u32>)
    ensures
        seq_val_sum(a + b) == seq_val_sum(a) + seq_val_sum(b),
    decreases a.len(),
{
    if a.len() == 0 {
        assert(a + b =~= b);
    } else {
        assert((a + b).skip(1) =~= a.skip(1) + b);
        assert((a + b)[0] == a[0]);
        lemma_seq_val_sum_concat(a.skip(1), b);
    }
}

/// A run of empty cells carries no tile value.
pub proof fn lemma_seq_val_sum_zeros(n: nat)
    ensures
        seq_val_sum(Seq::new(n, |i: int| 0u32)) == 0,
    decreases n,
{
    if n > 0 {
        assert(Seq::new(n, |i: int| 0u32).skip(1) =~= Seq::new((n - 1) as nat, |i: int| 0u32));
        lemma_seq_val_sum_zeros((n - 1) as nat);
    }
}

/// Total tile value of a four-cell sequence, written out.
pub proof fn lemma_seq_val_sum4(s: Seq<u32>)
    requires
        s.len() == 4,
    ensures
        seq_val_sum(s) == tile_val(s[0]) + tile_val(s[1]) + tile_val(s[2]) + tile_val(s[3]),
{
    assert(s.skip(1).skip(1) =~= s.skip(2));
    assert(s.skip(2).skip(1) =~= s.skip(3));
    assert(s.skip(3).skip(1) =~= s.skip(4));
    assert(s.skip(4).len() == 0);
    assert(s.skip(1)[0] == s[1] && s.skip(2)[0] == s[2] && s.skip(3)[0] == s[3]);
    assert(seq_val_sum(s.skip(4)) == 0);
    assert(seq_val_sum(s.skip(3)) == tile_val(s[3]) + seq_val_sum(s.skip(4)));
    assert(seq_val_sum(s.skip(2)) == tile_val(s[2]) + seq_val_sum(s.skip(3)));
    assert(seq_val_sum(s.skip(1)) == tile_val(s[1]) + seq_val_sum(s.skip(2)));
    assert(seq_val_sum(s) == tile_val(s[0]) + seq_val_sum(s.skip(1)));
}

/// The four cells of a row, right to left.
pub open spec fn rev4(s: Seq<u32>) -> Seq<u32> {
    seq![s[3], s[2], s[1], s[0]]
}

/// Fields of a row after sliding right: reverse, slide left, reverse back.
pub open spec fn row_right_fields(s: Seq<u32>) -> Seq<u32> {
    rev4(row_left_fields(rev4(s)))
}

/// Score gained by sliding a row right.
pub open spec fn row_right_score(s: Seq<u32>) -> int {
    row_left_score(rev4(s))
}

/// The packed row after sliding right.
pub open spec fn row_right_u(row: u32) -> u32 {
    pack_row(row_right_fields(row_fields(row)))
}

/// A right slide is the left slide conjugated by reversal. This is the
/// definition made explicit, so that callers of the packed operations can
/// rely on it by name.
pub proof fn lemma_right_is_reversed_left(s: Seq<u32>)
    ensures
        row_right_fields(s) == rev4(row_left_fields(rev4(s))),
{
}

/// Every field of a valid row is a small exponent.
pub proof fn lemma_valid_row_field(r: u32, j: int)
    requires
        valid_row(r),
        0 <= j < 4,
    ensures
        row_field(r, j) <= MAX_BLOCK_EXPONENT,
        row_field(r, j) < 32,
{
    if j == 0 {
    } else if j == 1 {
    } else if j == 2 {
    } else {
    }
}

/// Every field of any row is below 32.
pub proof fn lemma_row_field_small(r: u32, j: int)
    requires
        0 <= j < 4,
    ensures
        row_field(r, j) < 32,
{
    lemma_field_bounds(r);
    if j == 0 {
    } else if j == 1 {
    } else if j == 2 {
    } else {
    }
}

/// Membership in a sequence after a push.
pub proof fn lemma_push_contains<A>(s: Seq<A>, x: A, p: A)
    ensures
        s.push(x).contains(p) <==> (s.contains(p) || p == x),
{
    if s.contains(p) {
        let k = choose|k: int| 0 <= k < s.len() && s[k] == p;
        assert(s.push(x)[k] == p);
    }
    assert(s.push(x)[s.len() as int] == x);
    if s.push(x).contains(p) {
        let k = choose|k: int| 0 <= k < s.push(x).len() && s.push(x)[k] == p;
        if k < s.len() {
            assert(s[k] == p);
        }
    }
}

/// The left slide of a full row of valid exponents: four fields out, all
/// small, total tile value preserved, score nonnegative and bounded.
pub proof fn lemma_row_left_total(s: Seq<u32>)
    requires
        s.len() == 4,
        forall|k: int| 0 <= k < 4 ==> #[trigger] s[k] <= MAX_BLOCK_EXPONENT,
    ensures
        row_left_fields(s).len() == 4,
        forall|k: int| 0 <= k < 4 ==> #[trigger] row_left_fields(s)[k] < 32,
        seq_val_sum(row_left_fields(s)) == seq_val_sum(s),
        0 <= row_left_score(s) <= 0x80000,
{
    lemma_nonzeros_props(s, MAX_BLOCK_EXPONENT);
    let nz = nonzeros(s);
    lemma_merged_props(nz, MAX_BLOCK_EXPONENT);
    let m = merged(nz);
    let z = Seq::new((4 - m.len()) as nat, |i: int| 0u32);
    lemma_seq_val_sum_concat(m, z);
    lemma_seq_val_sum_zeros((4 - m.len()) as nat);
    lemma2_to64();
    assert(pow2(18) == 0x40000);
    assert(tile_val((MAX_BLOCK_EXPONENT + 1) as u32) == 0x40000);
    assert(2 * merged_score(nz) <= nz.len() * 0x40000);
    assert(2 * merged_score(nz) <= 4 * 0x40000);
    assert forall|k: int| 0 <= k < 4 implies #[trigger] row_left_fields(s)[k] < 32 by {
        if k < m.len() {
            assert(row_left_fields(s)[k] == m[k]);
        } else {
            assert(row_left_fields(s)[k] == 0u32);
        }
    }
}

/// Replacing one cell of a four-cell sequence shifts the total tile value
/// by the difference of the two tile values.
pub proof fn lemma_sum_update4(s: Seq<u32>, j: int, v: u32)
    requires
        s.len() == 4,
        0 <= j < 4,
    ensures
        seq_val_sum(s.update(j, v)) == seq_val_sum(s) - tile_val(s[j]) + tile_val(v),
{
    lemma_seq_val_sum4(s);
    lemma_seq_val_sum4(s.update(j, v));
}

/// Reversing a four-cell sequence keeps its total tile value.
pub proof fn lemma_rev4_sum(s: Seq<u32>)
    requires
        s.len() == 4,
    ensures
        seq_val_sum(rev4(s)) == seq_val_sum(s),
{
    lemma_seq_val_sum4(s);
    lemma_seq_val_sum4(rev4(s));
}

/// A run of zeros has no nonzero cells.
pub proof fn lemma_nonzeros_of_zeros(n: nat)
    ensures
        nonzeros(Seq::new(n, |i: int| 0u32)) == Seq::<u32>::empty(),
    decreases n,
{
    if n > 0 {
        assert(Seq::new(n, |i: int| 0u32).skip(1) =~= Seq::new((n - 1) as nat, |i: int| 0u32));
        lemma_nonzeros_of_zeros((n - 1) as nat);
    }
}

/// Zero padding adds no nonzero cells: the nonzero subsequence of an
/// all-nonzero sequence padded with zeros is the sequence itself.
pub proof fn lemma_nonzeros_padded(m: Seq<u32>, n: nat)
    requires
        forall|k: int| 0 <= k < m.len() ==> #[trigger] m[k] != 0,
        m.len() <= n,
    ensures
        nonzeros(zero_pad(m, n)) == m,
    decreases m.len(),
{
    if m.len() == 0 {
        assert(zero_pad(m, n) =~= Seq::new(n, |i: int| 0u32));
        lemma_nonzeros_of_zeros(n);
    } else {
        assert(zero_pad(m, n).skip(1) =~= zero_pad(m.skip(1), (n - 1) as nat));
        assert(zero_pad(m, n)[0] == m[0]);
        assert(forall|k: int| 0 <= k < m.skip(1).len() ==> #[trigger] m.skip(1)[k] == m[k + 1]);
        lemma_nonzeros_padded(m.skip(1), (n - 1) as nat);
        assert(nonzeros(zero_pad(m, n)) == seq![m[0]] + m.skip(1));
        assert(seq![m[0]] + m.skip(1) =~= m);
    }
}

/// A greedy merge pass over a line with an adjacent equal pair of nonzero
/// cells always shortens the line.
pub proof fn lemma_merged_shrinks_on_pair(s: Seq<u32>)
    requires
        forall|k: int| 0 <= k < s.len() ==> #[trigger] s[k] != 0,
        exists|i: int| 1 <= i < s.len() && #[trigger] s[i] == s[i - 1],
    ensures
        merged(s).len() < s.len(),
    decreases s.len(),
{
    let i = choose|i: int| 1 <= i < s.len() && #[trigger] s[i] == s[i - 1];
    if s.len() >= 2 && s[0] == s[1] {
        assert(forall|k: int| 0 <= k < s.skip(2).len() ==> #[trigger] s.skip(2)[k] == s[k + 2]);
        assert(merged(s) == seq![(s[0] + 1) as u32] + merged(s.skip(2)));
        assert(merged(s.skip(2)).len() <= s.skip(2).len()) by {
            lemma_merged_len(s.skip(2));
        }
    } else {
        assert(i >= 2);
        assert(merged(s) == seq![s[0]] + merged(s.skip(1)));
        assert(forall|k: int| 0 <= k < s.skip(1).len() ==> #[trigger] s.skip(1)[k] == s[k + 1]);
        assert(s.skip(1)[i - 1] == s.skip(1)[i - 2]);
        lemma_merged_shrinks_on_pair(s.skip(1));
    }
}

/// A merge pass on nonzero cells keeps them nonzero and bounded.
pub proof fn lemma_merged_nonzero(s: Seq<u32>, b: u32)
    requires
        b < 0xFFFFFFFF,
        forall|k: int| 0 <= k < s.len() ==> 0 < #[trigger] s[k] <= b,
    ensures
        merged(s).len() <= s.len(),
        forall|k: int| 0 <= k < merged(s).len() ==> 0 < #[trigger] merged(s)[k] <= b + 1,
    decreases s.len(),
{
    if s.len() == 0 {
    } else if s.len() >= 2 && s[0] == s[1] {
        assert(forall|k: int| 0 <= k < s.skip(2).len() ==> #[trigger] s.skip(2)[k] == s[k + 2]);
        lemma_merged_nonzero(s.skip(2), b);
        assert(merged(s) == seq![(s[0] + 1) as u32] + merged(s.skip(2)));
        assert(merged(s).skip(1) =~= merged(s.skip(2)));
    } else {
        assert(forall|k: int| 0 <= k < s.skip(1).len() ==> #[trigger] s.skip(1)[k] == s[k + 1]);
        lemma_merged_nonzero(s.skip(1), b);
        assert(merged(s) == seq![s[0]] + merged(s.skip(1)));
        assert(merged(s).skip(1) =~= merged(s.skip(1)));
    }
}

/// A merge pass that keeps the length changes nothing.
pub proof fn lemma_merged_full_len(s: Seq<u32>)
    requires
        merged(s).len() == s.len(),
    ensures
        merged(s) == s,
    decreases s.len(),
{
    if s.len() == 0 {
        assert(merged(s) =~= s);
    } else if s.len() >= 2 && s[0] == s[1] {
        lemma_merged_len(s.skip(2));
        assert(merged(s).len() <= 1 + s.skip(2).len());
        assert(false);
    } else {
        assert(merged(s) == seq![s[0]] + merged(s.skip(1)));
        lemma_merged_full_len(s.skip(1));
        assert(seq![s[0]] + s.skip(1) =~= s);
    }
}

/// A line without empty cells is its own nonzero subsequence.
pub proof fn lemma_nonzeros_full(s: Seq<u32>)
    requires
        forall|k: int| 0 <= k < s.len() ==> #[trigger] s[k] != 0,
    ensures
        nonzeros(s) == s,
    decreases s.len(),
{
    if s.len() == 0 {
        assert(nonzeros(s) =~= s);
    } else {
        assert(forall|k: int| 0 <= k < s.skip(1).len() ==> #[trigger] s.skip(1)[k] == s[k + 1]);
        lemma_nonzeros_full(s.skip(1));
        assert(nonzeros(s) == seq![s[0]] + s.skip(1));
        assert(seq![s[0]] + s.skip(1) =~= s);
    }
}

/// Dropping an actual zero strictly shortens the line.
pub proof fn lemma_nonzeros_drop_zero(s: Seq<u32>, j: int)
    requires
        0 <= j < s.len(),
        s[j] == 0,
    ensures
        nonzeros(s).len() < s.len(),
    decreases s.len(),
{
    if s[0] == 0 {
        lemma_nonzeros_len(s.skip(1));
    } else {
        assert(j >= 1);
        assert(s.skip(1)[j - 1] == 0);
        lemma_nonzeros_drop_zero(s.skip(1), j - 1);
    }
}

/// Dropping zeros never lengthens a line.
pub proof fn lemma_nonzeros_len(s: Seq<u32>)
    ensures
        nonzeros(s).len() <= s.len(),
    decreases s.len(),
{
    if s.len() > 0 {
        lemma_nonzeros_len(s.skip(1));
    }
}

/// A line the left slide changes ends in an empty cell afterwards: either
/// a tile merged or a gap closed, so the compacted tiles no longer fill
/// the line.
pub proof fn lemma_changed_line_has_empty(s: Seq<u32>)
    requires
        s.len() == 4,
    ensures
        row_left_fields(s) != s ==> row_left_fields(s)[3] == 0,
{
    let nz = nonzeros(s);
    let m = merged(nz);
    lemma_nonzeros_len(s);
    lemma_merged_len(nz);
    if row_left_fields(s) != s && row_left_fields(s)[3] != 0 {
        assert(m.len() == 4);
        assert(nz.len() == 4);
        assert forall|k: int| 0 <= k < 4 implies #[trigger] s[k] != 0 by {
            if s[k] == 0 {
                lemma_nonzeros_drop_zero(s, k);
            }
        }
        lemma_nonzeros_full(s);
        lemma_merged_full_len(s);
        assert(row_left_fields(s) == zero_pad(s, 4));
        assert(zero_pad(s, 4) =~= s);
        assert(false);
    }
}

/// A merge pass never lengthens a line.
pub proof fn lemma_merged_len(s: Seq<u32>)
    ensures
        merged(s).len() <= s.len(),
    decreases s.len(),
{
    if s.len() == 0 {
    } else if s.len() >= 2 && s[0] == s[1] {
        lemma_merged_len(s.skip(2));
    } else {
        lemma_merged_len(s.skip(1));
    }
}

/// A merge pass over a line whose adjacent cells all differ changes
/// nothing.
pub proof fn lemma_merged_of_distinct(s: Seq<u32>)
    requires
        forall|i: int| 1 <= i < s.len() ==> #[trigger] s[i] != s[i - 1],
    ensures
        merged(s) == s,
    decreases s.len(),
{
    if s.len() == 0 {
        assert(merged(s) =~= s);
    } else {
        assert(forall|k: int| 0 <= k < s.skip(1).len() ==> #[trigger] s.skip(1)[k] == s[k + 1]);
        lemma_merged_of_distinct(s.skip(1));
        assert(merged(s) == seq![s[0]] + merged(s.skip(1)));
        assert(seq![s[0]] + s.skip(1) =~= s);
    }
}

/// Under "no nonzero cell follows a zero", the nonzero cells form a
/// prefix and the nonzero subsequence is exactly that prefix.
pub proof fn lemma_nonzero_prefix(s: Seq<u32>)
    requires
        forall|i: int| 1 <= i < s.len() ==> #[trigger] s[i] != 0 ==> s[i - 1] != 0,
    ensures
        exists|k: int|
            0 <= k <= s.len() && (forall|j: int| 0 <= j < k ==> s[j] != 0) && (forall|j: int|
                #![trigger s[j]]
                k <= j < s.len() ==> s[j] == 0) && nonzeros(s) == #[trigger] s.take(k),
    decreases s.len(),
{
    if s.len() == 0 {
        assert(nonzeros(s) =~= s.take(0));
        assert(0 <= 0 <= s.len() && (forall|j: int| 0 <= j < 0 ==> s[j] != 0) && (forall|j: int|
            #![trigger s[j]]
            0 <= j < s.len() ==> s[j] == 0) && nonzeros(s) == s.take(0));
    } else {
        let t = s.skip(1);
        assert(forall|k: int| 0 <= k < t.len() ==> #[trigger] t[k] == s[k + 1]);
        lemma_nonzero_prefix(t);
        let k2 = choose|k2: int|
            0 <= k2 <= t.len() && (forall|j: int| 0 <= j < k2 ==> t[j] != 0) && (forall|j: int|
                #![trigger t[j]]
                k2 <= j < t.len() ==> t[j] == 0) && nonzeros(t) == #[trigger] t.take(k2);
        if s[0] == 0 {
            // a zero head forces the whole line to be zero
            if k2 > 0 {
                assert(t[0] != 0);
                assert(s[1] != 0 && s[0] == 0);
                assert(false);
            }
            assert forall|j: int| #![trigger s[j]] 0 <= j < s.len() implies s[j] == 0 by {
                if j >= 1 {
                    assert(t[j - 1] == 0);
                }
            }
            assert(nonzeros(s) == nonzeros(t));
            assert(nonzeros(s) =~= s.take(0));
            assert(0 <= 0 <= s.len() && (forall|j: int| 0 <= j < 0 ==> s[j] != 0) && (forall|
                j: int,
            |
                #![trigger s[j]]
                0 <= j < s.len() ==> s[j] == 0) && nonzeros(s) == s.take(0));
        } else {
            let k = k2 + 1;
            assert forall|j: int| 0 <= j < k implies s[j] != 0 by {
                if j >= 1 {
                    assert(t[j - 1] != 0);
                }
            }
            assert forall|j: int| #![trigger s[j]] k <= j < s.len() implies s[j] == 0 by {
                assert(t[j - 1] == 0);
            }
            assert(nonzeros(s) == seq![s[0]] + nonzeros(t));
            assert(seq![s[0]] + t.take(k2) =~= s.take(k));
            assert(0 <= k <= s.len() && (forall|j: int| 0 <= j < k ==> s[j] != 0) && (forall|
                j: int,
            |
                #![trigger s[j]]
                k <= j < s.len() ==> s[j] == 0) && nonzeros(s) == s.take(k));
        }
    }
}

} // verus!
