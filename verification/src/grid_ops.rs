//! Grid-level specification of the puzzle rules.
//!
//! A grid is a square sequence of rows. Each primitive acts on every row
//! independently; transposition swaps the two axes so that one canonical
//! row pass can serve all four move directions.

use vstd::prelude::*;
use crate::row_ops::{
    compress_row, lemma_compress_row_idempotent, lemma_compress_row_len, lemma_compress_row_sum,
    lemma_gain_pos_count, lemma_gain_upto_nonneg, lemma_gain_zero_fixed, lemma_merge_row_props,
    lemma_nonzeros_of_compress, lemma_pow2_compress_row, lemma_pow2_merge_upto,
    lemma_reverse_row_involution, lemma_reverse_row_sum, lemma_row_count_update,
    lemma_row_sum_nonneg, lemma_row_sum_take_succ, lemma_settled_row_unchanged, merge_row,
    merge_row_gain, pow2_cell, pow2_row, reverse_row, row_count, row_sum, settled_row,
};

verus! {

/// A well-formed grid: square, with at least two rows so that a fresh
/// game always has room for its two starting tiles.
pub open spec fn square(g: Seq<Seq<u32>>) -> bool {
    &&& g.len() >= 2
    &&& forall|i: int| 0 <= i < g.len() ==> (#[trigger] g[i]).len() == g.len()
}

/// Every row compressed toward the low indices.
pub open spec fn compress_grid(g: Seq<Seq<u32>>) -> Seq<Seq<u32>> {
    Seq::new(g.len(), |i: int| compress_row(g[i]))
}

/// Every row after one left-to-right merge pass.
pub open spec fn merge_grid(g: Seq<Seq<u32>>) -> Seq<Seq<u32>> {
    Seq::new(g.len(), |i: int| merge_row(g[i]))
}

/// Every row mirrored left to right.
pub open spec fn reverse_grid(g: Seq<Seq<u32>>) -> Seq<Seq<u32>> {
    Seq::new(g.len(), |i: int| reverse_row(g[i]))
}

/// Rows and columns swapped.
pub open spec fn transpose_grid(g: Seq<Seq<u32>>) -> Seq<Seq<u32>> {
    Seq::new(g.len(), |i: int| Seq::new(g.len(), |j: int| g[j][i]))
}

/// The grid with one cell replaced.
pub open spec fn grid_set(g: Seq<Seq<u32>>, i: int, j: int, v: u32) -> Seq<Seq<u32>> {
    g.update(i, g[i].update(j, v))
}

pub open spec fn grid_sum_upto(g: Seq<Seq<u32>>, i: int) -> int
    decreases i,
{
    if i <= 0 {
        0
    } else {
        grid_sum_upto(g, i - 1) + row_sum(g[i - 1])
    }
}

/// The sum of every cell of the grid.
pub open spec fn grid_sum(g: Seq<Seq<u32>>) -> int {
    grid_sum_upto(g, g.len() as int)
}

pub open spec fn grid_count_upto(g: Seq<Seq<u32>>, i: int) -> int
    decreases i,
{
    if i <= 0 {
        0
    } else {
        grid_count_upto(g, i - 1) + row_count(g[i - 1])
    }
}

/// How many cells of the grid hold a tile.
pub open spec fn grid_count(g: Seq<Seq<u32>>) -> int {
    grid_count_upto(g, g.len() as int)
}

pub open spec fn grid_gain_upto(g: Seq<Seq<u32>>, i: int) -> int
    decreases i,
{
    if i <= 0 {
        0
    } else {
        grid_gain_upto(g, i - 1) + merge_row_gain(g[i - 1])
    }
}

/// The score one merge pass over the whole grid adds.
pub open spec fn merge_gain(g: Seq<Seq<u32>>) -> int {
    grid_gain_upto(g, g.len() as int)
}

/// The terminal state: no empty cell and no equal adjacent pair in
/// either direction, so no move can change the grid.
pub open spec fn spec_game_over(g: Seq<Seq<u32>>) -> bool {
    &&& forall|i: int, j: int|
        0 <= i < g.len() && 0 <= j < g[i].len() ==> #[trigger] g[i][j] != 0
    &&& forall|i: int, j: int|
        0 <= i < g.len() && 0 <= j < g[i].len() - 1 ==> #[trigger] g[i][j] != g[i][j + 1]
    &&& forall|i: int, j: int|
        0 <= i < g.len() - 1 && 0 <= j < g[i].len() ==> #[trigger] g[i][j] != g[i + 1][j]
}

/// Every tile on the grid carries the seed value.
pub open spec fn only_twos(g: Seq<Seq<u32>>) -> bool {
    forall|i: int, j: int|
        0 <= i < g.len() && 0 <= j < g[i].len() && #[trigger] g[i][j] != 0 ==> g[i][j] == 2
}

pub proof fn lemma_grid_sum_upto_nonneg(g: Seq<Seq<u32>>, i: int)
    ensures
        0 <= grid_sum_upto(g, i),
    decreases i,
{
    if i > 0 {
        lemma_grid_sum_upto_nonneg(g, i - 1);
        lemma_row_sum_nonneg(g[i - 1]);
    }
}

pub proof fn lemma_grid_sum_upto_le(g: Seq<Seq<u32>>, i: int)
    requires
        0 <= i <= g.len(),
    ensures
        grid_sum_upto(g, i) <= grid_sum(g),
    decreases g.len() - i,
{
    if i < g.len() {
        lemma_row_sum_nonneg(g[i]);
        lemma_grid_sum_upto_le(g, i + 1);
    }
}

/// Each row's sum is bounded by the whole grid's sum.
pub proof fn lemma_row_le_grid_sum(g: Seq<Seq<u32>>, i: int)
    requires
        0 <= i < g.len(),
    ensures
        row_sum(g[i]) <= grid_sum(g),
{
    lemma_grid_sum_upto_nonneg(g, i);
    lemma_grid_sum_upto_le(g, i + 1);
}

pub proof fn lemma_grid_gain_upto_nonneg(g: Seq<Seq<u32>>, i: int)
    ensures
        0 <= grid_gain_upto(g, i),
    decreases i,
{
    if i > 0 {
        lemma_grid_gain_upto_nonneg(g, i - 1);
        lemma_gain_upto_nonneg(g[i - 1], g[i - 1].len() - 1);
    }
}

/// Replacing one row shifts the tile count by the difference of the row
/// counts.
pub proof fn lemma_grid_count_update_upto(g: Seq<Seq<u32>>, i: int, r: Seq<u32>, k: int)
    requires
        0 <= i < g.len(),
        k <= g.len(),
    ensures
        grid_count_upto(g.update(i, r), k) == grid_count_upto(g, k) + (if i < k {
            row_count(r) - row_count(g[i])
        } else {
            0int
        }),
    decreases k,
{
    if k > 0 {
        lemma_grid_count_update_upto(g, i, r, k - 1);
        if k - 1 == i {
            assert(g.update(i, r)[k - 1] == r);
        } else {
            assert(g.update(i, r)[k - 1] == g[k - 1]);
        }
    }
}

/// Placing a tile on an empty cell raises the tile count by one.
pub proof fn lemma_grid_set_count(g: Seq<Seq<u32>>, i: int, j: int, v: u32)
    requires
        0 <= i < g.len(),
        0 <= j < g[i].len(),
        g[i][j] == 0,
        v != 0,
    ensures
        grid_count(grid_set(g, i, j, v)) == grid_count(g) + 1,
{
    lemma_row_count_update(g[i], j, v);
    lemma_grid_count_update_upto(g, i, g[i].update(j, v), g.len() as int);
}

/// Spawning a seed tile keeps a seed-only grid seed-only.
pub proof fn lemma_grid_set_only_twos(g: Seq<Seq<u32>>, a: int, b: int)
    requires
        only_twos(g),
        0 <= a < g.len(),
        0 <= b < g[a].len(),
    ensures
        only_twos(grid_set(g, a, b, 2u32)),
{
    let h = grid_set(g, a, b, 2u32);
    assert forall|i: int, j: int|
        0 <= i < h.len() && 0 <= j < h[i].len() && #[trigger] h[i][j] != 0 implies h[i][j] == 2 by {
        if i == a {
            assert(h[i] == g[a].update(b, 2u32));
            if j != b {
                assert(h[i][j] == g[a][j]);
            }
        } else {
            assert(h[i] == g[i]);
        }
    }
}

pub proof fn lemma_grid_count_upto_zero(g: Seq<Seq<u32>>, k: int)
    requires
        forall|i: int| 0 <= i < k ==> row_count(#[trigger] g[i]) == 0,
    ensures
        grid_count_upto(g, k) == 0,
    decreases k,
{
    if k > 0 {
        lemma_grid_count_upto_zero(g, k - 1);
    }
}

pub proof fn lemma_row_count_take_succ(r: Seq<u32>, j: int)
    requires
        0 <= j < r.len(),
    ensures
        row_count(r.take(j + 1)) == row_count(r.take(j)) + (if r[j] != 0 {
            1int
        } else {
            0int
        }),
{
    assert(r.take(j + 1).drop_last() =~= r.take(j));
}

/// Grids whose rows have pairwise equal sums have equal sums.
pub proof fn lemma_grid_sum_pointwise(g1: Seq<Seq<u32>>, g2: Seq<Seq<u32>>, k: int)
    requires
        forall|i: int| 0 <= i < k ==> row_sum(#[trigger] g1[i]) == row_sum(#[trigger] g2[i]),
    ensures
        grid_sum_upto(g1, k) == grid_sum_upto(g2, k),
    decreases k,
{
    if k > 0 {
        lemma_grid_sum_pointwise(g1, g2, k - 1);
    }
}

/// Mirroring every row twice restores the grid.
pub proof fn lemma_reverse_grid_involution(g: Seq<Seq<u32>>)
    ensures
        reverse_grid(reverse_grid(g)) == g,
{
    assert forall|i: int| 0 <= i < g.len() implies reverse_grid(reverse_grid(g))[i] == g[i] by {
        lemma_reverse_row_involution(g[i]);
    }
    assert(reverse_grid(reverse_grid(g)) =~= g);
}

/// Transposing twice restores a square grid.
pub proof fn lemma_transpose_involution(g: Seq<Seq<u32>>)
    requires
        square(g),
    ensures
        transpose_grid(transpose_grid(g)) == g,
{
    let t = transpose_grid(g);
    let tt = transpose_grid(t);
    assert forall|i: int| 0 <= i < g.len() implies tt[i] == g[i] by {
        assert(tt[i] =~= g[i]);
    }
    assert(tt =~= g);
}

pub proof fn lemma_transpose_square(g: Seq<Seq<u32>>)
    requires
        square(g),
    ensures
        square(transpose_grid(g)),
{
}

pub proof fn lemma_reverse_square(g: Seq<Seq<u32>>)
    requires
        square(g),
    ensures
        square(reverse_grid(g)),
        grid_sum(reverse_grid(g)) == grid_sum(g),
{
    assert forall|i: int| 0 <= i < g.len() implies row_sum(#[trigger] reverse_grid(g)[i])
        == row_sum(g[i]) by {
        lemma_reverse_row_sum(g[i]);
    }
    lemma_grid_sum_pointwise(reverse_grid(g), g, g.len() as int);
}

pub proof fn lemma_compress_square(g: Seq<Seq<u32>>)
    requires
        square(g),
    ensures
        square(compress_grid(g)),
        grid_sum(compress_grid(g)) == grid_sum(g),
{
    assert forall|i: int| 0 <= i < g.len() implies (#[trigger] compress_grid(g)[i]).len()
        == g.len() && row_sum(compress_grid(g)[i]) == row_sum(g[i]) by {
        lemma_compress_row_len(g[i]);
        lemma_compress_row_sum(g[i]);
    }
    lemma_grid_sum_pointwise(compress_grid(g), g, g.len() as int);
}

/// The grid's data-model invariant: every cell is empty or holds a
/// power of two bred from the seed value.
pub open spec fn pow2_grid(g: Seq<Seq<u32>>) -> bool {
    forall|i: int| 0 <= i < g.len() ==> pow2_row(#[trigger] g[i])
}

pub proof fn lemma_pow2_compress_grid(g: Seq<Seq<u32>>)
    requires
        pow2_grid(g),
    ensures
        pow2_grid(compress_grid(g)),
{
    assert forall|i: int| 0 <= i < g.len() implies pow2_row(#[trigger] compress_grid(g)[i]) by {
        lemma_pow2_compress_row(g[i]);
    }
}

pub proof fn lemma_pow2_merge_grid(g: Seq<Seq<u32>>)
    requires
        square(g),
        grid_sum(g) <= u32::MAX,
        pow2_grid(g),
    ensures
        pow2_grid(merge_grid(g)),
{
    assert forall|i: int| 0 <= i < g.len() implies pow2_row(#[trigger] merge_grid(g)[i]) by {
        lemma_row_le_grid_sum(g, i);
        lemma_pow2_merge_upto(g[i], g[i].len() - 1);
    }
}

pub proof fn lemma_pow2_reverse_grid(g: Seq<Seq<u32>>)
    requires
        pow2_grid(g),
    ensures
        pow2_grid(reverse_grid(g)),
{
    assert forall|i: int| 0 <= i < g.len() implies pow2_row(#[trigger] reverse_grid(g)[i]) by {
        assert forall|j: int|
            0 <= j < reverse_grid(g)[i].len() implies ((#[trigger] reverse_grid(g)[i][j]) == 0
            || pow2_cell(reverse_grid(g)[i][j])) by {
            assert(reverse_grid(g)[i][j] == g[i][g[i].len() - 1 - j]);
        }
    }
}

pub proof fn lemma_pow2_transpose_grid(g: Seq<Seq<u32>>)
    requires
        square(g),
        pow2_grid(g),
    ensures
        pow2_grid(transpose_grid(g)),
{
    assert forall|i: int| 0 <= i < g.len() implies pow2_row(#[trigger] transpose_grid(g)[i]) by {
        assert forall|j: int|
            0 <= j < transpose_grid(g)[i].len() implies ((#[trigger] transpose_grid(g)[i][j]) == 0
            || pow2_cell(transpose_grid(g)[i][j])) by {
            assert(transpose_grid(g)[i][j] == g[j][i]);
        }
    }
}

/// One whole leftward move pass keeps the invariant.
pub proof fn lemma_pow2_move_left(g: Seq<Seq<u32>>)
    requires
        square(g),
        grid_sum(g) <= u32::MAX,
        pow2_grid(g),
    ensures
        pow2_grid(move_left_grid(g)),
        square(move_left_grid(g)),
        grid_sum(move_left_grid(g)) == grid_sum(g),
{
    lemma_compress_square(g);
    lemma_pow2_compress_grid(g);
    lemma_merge_square(compress_grid(g));
    lemma_pow2_merge_grid(compress_grid(g));
    lemma_compress_square(merge_grid(compress_grid(g)));
    lemma_pow2_compress_grid(merge_grid(compress_grid(g)));
}

/// Spawning a seed tile keeps the invariant.
pub proof fn lemma_pow2_grid_set(g: Seq<Seq<u32>>, a: int, b: int)
    requires
        pow2_grid(g),
        0 <= a < g.len(),
        0 <= b < g[a].len(),
    ensures
        pow2_grid(grid_set(g, a, b, 2u32)),
{
    let h = grid_set(g, a, b, 2u32);
    assert forall|i: int| 0 <= i < h.len() implies pow2_row(#[trigger] h[i]) by {
        if i == a {
            assert(h[i] == g[a].update(b, 2u32));
            assert forall|j: int|
                0 <= j < h[i].len() implies ((#[trigger] h[i][j]) == 0 || pow2_cell(h[i][j])) by {
                if j != b {
                    assert(h[i][j] == g[a][j]);
                }
            }
        } else {
            assert(h[i] == g[i]);
        }
    }
}

/// Column `j` of the grid, read top to bottom.
pub open spec fn col(g: Seq<Seq<u32>>, j: int) -> Seq<u32> {
    Seq::new(g.len(), |i: int| g[i][j])
}

pub open spec fn grid_sum_take_upto(g: Seq<Seq<u32>>, j: int, i: int) -> int
    decreases i,
{
    if i <= 0 {
        0
    } else {
        grid_sum_take_upto(g, j, i - 1) + row_sum(g[i - 1].take(j))
    }
}

proof fn lemma_grid_sum_take_zero(g: Seq<Seq<u32>>, i: int)
    requires
        forall|ii: int| 0 <= ii < g.len() ==> (#[trigger] g[ii]).len() >= 0,
    ensures
        grid_sum_take_upto(g, 0, i) == 0,
    decreases i,
{
    if i > 0 {
        lemma_grid_sum_take_zero(g, i - 1);
        assert(g[i - 1].take(0) =~= Seq::<u32>::empty());
    }
}

proof fn lemma_grid_sum_take_col(g: Seq<Seq<u32>>, j: int, i: int)
    requires
        square(g),
        0 <= j < g.len(),
        0 <= i <= g.len(),
    ensures
        grid_sum_take_upto(g, j + 1, i) == grid_sum_take_upto(g, j, i) + row_sum(
            col(g, j).take(i),
        ),
    decreases i,
{
    if i <= 0 {
        assert(col(g, j).take(0) =~= Seq::<u32>::empty());
    } else {
        lemma_grid_sum_take_col(g, j, i - 1);
        lemma_row_sum_take_succ(g[i - 1], j);
        lemma_row_sum_take_succ(col(g, j), i - 1);
    }
}

proof fn lemma_grid_sum_take_full(g: Seq<Seq<u32>>, i: int)
    requires
        square(g),
        0 <= i <= g.len(),
    ensures
        grid_sum_take_upto(g, g.len() as int, i) == grid_sum_upto(g, i),
    decreases i,
{
    if i > 0 {
        lemma_grid_sum_take_full(g, i - 1);
        assert(g[i - 1].take(g.len() as int) =~= g[i - 1]);
    }
}

/// Summing by rows and summing by columns agree: transposition keeps the
/// grid sum.
pub proof fn lemma_transpose_sum(g: Seq<Seq<u32>>)
    requires
        square(g),
    ensures
        grid_sum(transpose_grid(g)) == grid_sum(g),
{
    let n = g.len() as int;
    let t = transpose_grid(g);
    assert forall|j: int| 0 <= j <= n implies grid_sum_take_upto(g, j, n) == grid_sum_upto(
        t,
        j,
    ) by {
        lemma_transpose_sum_steps(g, j);
    }
    lemma_grid_sum_take_full(g, n);
}

/// One move toward the low indices: compress, merge once, compress the
/// fresh gaps closed again.
pub open spec fn move_left_grid(g: Seq<Seq<u32>>) -> Seq<Seq<u32>> {
    compress_grid(merge_grid(compress_grid(g)))
}

/// The score that one move toward the low indices adds.
pub open spec fn move_left_gain(g: Seq<Seq<u32>>) -> int {
    merge_gain(compress_grid(g))
}

/// Within the cell type's range, a merge pass keeps the grid square and
/// keeps its sum, and its gain stays within the grid's sum.
pub proof fn lemma_merge_square(g: Seq<Seq<u32>>)
    requires
        square(g),
        grid_sum(g) <= u32::MAX,
    ensures
        square(merge_grid(g)),
        grid_sum(merge_grid(g)) == grid_sum(g),
{
    assert forall|i: int| 0 <= i < g.len() implies (#[trigger] merge_grid(g)[i]).len() == g.len()
        && row_sum(merge_grid(g)[i]) == row_sum(g[i]) by {
        lemma_row_le_grid_sum(g, i);
        lemma_merge_row_props(g[i]);
    }
    lemma_grid_sum_pointwise(merge_grid(g), g, g.len() as int);
}

/// The merge pass gains nothing exactly when every row gains nothing.
pub proof fn lemma_grid_gain_zero_iff(g: Seq<Seq<u32>>, k: int)
    requires
        0 <= k <= g.len(),
    ensures
        grid_gain_upto(g, k) == 0 <==> (forall|i: int|
            0 <= i < k ==> merge_row_gain(#[trigger] g[i]) == 0),
    decreases k,
{
    if k > 0 {
        lemma_grid_gain_zero_iff(g, k - 1);
        lemma_grid_gain_upto_nonneg(g, k - 1);
        lemma_gain_upto_nonneg(g[k - 1], g[k - 1].len() - 1);
    }
}

/// A merge pass that gains nothing leaves the grid unchanged.
pub proof fn lemma_merge_gain_zero_fixed(g: Seq<Seq<u32>>)
    requires
        merge_gain(g) == 0,
    ensures
        merge_grid(g) == g,
{
    lemma_grid_gain_zero_iff(g, g.len() as int);
    assert forall|i: int| 0 <= i < g.len() implies merge_grid(g)[i] == g[i] by {
        lemma_gain_zero_fixed(g[i], g[i].len() - 1);
    }
    assert(merge_grid(g) =~= g);
}

/// Tile counts compared row by row bound the whole grids' counts, and a
/// single strictly smaller row makes the whole count strictly smaller.
pub proof fn lemma_grid_count_le(a: Seq<Seq<u32>>, b: Seq<Seq<u32>>, k: int, w: int)
    requires
        forall|i: int| 0 <= i < k ==> row_count(#[trigger] a[i]) <= row_count(#[trigger] b[i]),
    ensures
        grid_count_upto(a, k) <= grid_count_upto(b, k),
        0 <= w < k && row_count(a[w]) < row_count(b[w]) ==> grid_count_upto(a, k)
            < grid_count_upto(b, k),
    decreases k,
{
    if k > 0 {
        lemma_grid_count_le(a, b, k - 1, w);
    }
}

/// Compression keeps each row's tile count, so it keeps the grid's.
pub proof fn lemma_compress_grid_count(g: Seq<Seq<u32>>, k: int)
    requires
        0 <= k <= g.len(),
    ensures
        grid_count_upto(compress_grid(g), k) == grid_count_upto(g, k),
    decreases k,
{
    if k > 0 {
        lemma_compress_grid_count(g, k - 1);
        lemma_nonzeros_of_compress(g[k - 1]);
    }
}

/// Compressing a grid twice is the same as compressing it once.
pub proof fn lemma_compress_grid_idempotent(g: Seq<Seq<u32>>)
    ensures
        compress_grid(compress_grid(g)) == compress_grid(g),
{
    assert forall|i: int| 0 <= i < g.len() implies compress_grid(compress_grid(g))[i]
        == compress_grid(g)[i] by {
        lemma_compress_row_len(g[i]);
        lemma_compress_row_idempotent(g[i]);
    }
    assert(compress_grid(compress_grid(g)) =~= compress_grid(g));
}

/// A grid of settled rows is a fixed point of the whole move pass: no
/// tile slides, no pair merges, no score accrues.
pub proof fn lemma_settled_rows_fixed(g: Seq<Seq<u32>>)
    requires
        forall|i: int| 0 <= i < g.len() ==> settled_row(#[trigger] g[i]),
    ensures
        move_left_grid(g) == g,
        move_left_gain(g) == 0,
{
    assert forall|i: int| 0 <= i < g.len() implies compress_grid(g)[i] == g[i] by {
        lemma_settled_row_unchanged(g[i]);
    }
    assert(compress_grid(g) =~= g);
    lemma_grid_gain_zero_iff(g, g.len() as int);
    assert forall|i: int| 0 <= i < g.len() implies merge_row_gain(#[trigger] g[i]) == 0 by {
        lemma_settled_row_unchanged(g[i]);
    }
    lemma_merge_gain_zero_fixed(g);
}

/// The three changed flags of the move pass, taken together, say exactly
/// that the move changed the grid.
pub proof fn lemma_move_left_changed(g: Seq<Seq<u32>>)
    requires
        square(g),
        grid_sum(g) <= u32::MAX,
    ensures
        (compress_grid(g) != g || merge_gain(compress_grid(g)) > 0 || compress_grid(
            merge_grid(compress_grid(g)),
        ) != merge_grid(compress_grid(g))) <==> move_left_grid(g) != g,
{
    let n = g.len() as int;
    let g1 = compress_grid(g);
    let g2 = merge_grid(g1);
    let g3 = compress_grid(g2);
    lemma_compress_square(g);
    if merge_gain(g1) > 0 {
        // a merge happened, so the move lost a tile for good
        lemma_grid_gain_zero_iff(g1, n);
        let w = choose|i: int| 0 <= i < n && merge_row_gain(#[trigger] g1[i]) != 0;
        assert forall|i: int| 0 <= i < n implies row_count(#[trigger] g2[i]) <= row_count(
            #[trigger] g1[i],
        ) && (merge_row_gain(g1[i]) > 0 ==> row_count(g2[i]) < row_count(g1[i])) by {
            lemma_gain_pos_count(g1[i], g1[i].len() - 1);
        }
        assert forall|i: int| 0 <= i < n implies merge_row_gain(#[trigger] g1[i]) >= 0 by {
            lemma_gain_upto_nonneg(g1[i], g1[i].len() - 1);
        }
        lemma_grid_count_le(g2, g1, n, w);
        lemma_compress_grid_count(g, n);
        lemma_compress_grid_count(g2, n);
        assert(grid_count(g3) < grid_count(g));
        assert(g3 != g);
    } else {
        lemma_grid_gain_upto_nonneg(g1, n);
        lemma_merge_gain_zero_fixed(g1);
        lemma_compress_grid_idempotent(g);
        assert(g2 == g1);
        assert(g3 == g1);
    }
}

proof fn lemma_transpose_sum_steps(g: Seq<Seq<u32>>, j: int)
    requires
        square(g),
        0 <= j <= g.len(),
    ensures
        grid_sum_take_upto(g, j, g.len() as int) == grid_sum_upto(transpose_grid(g), j),
    decreases j,
{
    let n = g.len() as int;
    let t = transpose_grid(g);
    if j == 0 {
        lemma_grid_sum_take_zero(g, n);
    } else {
        lemma_transpose_sum_steps(g, j - 1);
        lemma_grid_sum_take_col(g, j - 1, n);
        assert(col(g, j - 1).take(n) =~= col(g, j - 1));
        assert(t[j - 1] =~= col(g, j - 1));
    }
}

} // verus!
