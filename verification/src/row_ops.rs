//! Row-level specification of the puzzle rules.
//!
//! A row is a sequence of cell values; `0` marks an empty cell. The
//! functions here say what one pass of each primitive does to a single
//! row, and the lemmas establish the algebra the engine's contracts rest
//! on: lengths and sums are preserved, compression is idempotent,
//! reversal is an involution, and a settled row is a fixed point.

use vstd::prelude::*;

verus! {

/// A row of `n` empty cells.
pub open spec fn zero_row(n: nat) -> Seq<u32> {
    Seq::new(n, |j: int| 0u32)
}

/// The nonzero values of a row, in order.
pub open spec fn nonzeros(r: Seq<u32>) -> Seq<u32>
    decreases r.len(),
{
    if r.len() == 0 {
        Seq::empty()
    } else {
        let prefix = nonzeros(r.drop_last());
        if r.last() != 0 {
            prefix.push(r.last())
        } else {
            prefix
        }
    }
}

/// How many cells of the row hold a tile.
pub open spec fn row_count(r: Seq<u32>) -> int {
    nonzeros(r).len() as int
}

/// One pass of compression: the tiles slide to the low indices, in
/// order, and the tail fills with empty cells.
pub open spec fn compress_row(r: Seq<u32>) -> Seq<u32> {
    nonzeros(r) + zero_row((r.len() - nonzeros(r).len()) as nat)
}

/// The sum of the cell values of a row.
pub open spec fn row_sum(r: Seq<u32>) -> int
    decreases r.len(),
{
    if r.len() == 0 {
        0
    } else {
        row_sum(r.drop_last()) + r.last()
    }
}

/// The row mirrored left to right.
pub open spec fn reverse_row(r: Seq<u32>) -> Seq<u32> {
    Seq::new(r.len(), |j: int| r[r.len() - 1 - j])
}

/// No empty cell and no equal adjacent pair: a merge pass and a
/// compression pass both leave such a row alone.
pub open spec fn settled_row(r: Seq<u32>) -> bool {
    &&& forall|j: int| 0 <= j < r.len() ==> r[j] != 0
    &&& forall|j: int| 0 <= j < r.len() - 1 ==> r[j] != #[trigger] r[j + 1]
}

/// The merge scan at position `j`: an equal nonzero adjacent pair
/// doubles its left cell and empties its right cell.
pub open spec fn merge_step(s: Seq<u32>, j: int) -> Seq<u32> {
    if s[j] != 0 && s[j] == s[j + 1] {
        s.update(j, (s[j] + s[j + 1]) as u32).update(j + 1, 0u32)
    } else {
        s
    }
}

/// The score gained by the merge scan at position `j`.
pub open spec fn step_gain(s: Seq<u32>, j: int) -> int {
    if s[j] != 0 && s[j] == s[j + 1] {
        s[j] + s[j + 1]
    } else {
        0
    }
}

/// The row after the merge scan has visited positions `0 .. j`.
pub open spec fn merge_upto(r: Seq<u32>, j: int) -> Seq<u32>
    decreases j,
{
    if j <= 0 {
        r
    } else {
        merge_step(merge_upto(r, j - 1), j - 1)
    }
}

/// The score gained once the merge scan has visited positions `0 .. j`.
pub open spec fn gain_upto(r: Seq<u32>, j: int) -> int
    decreases j,
{
    if j <= 0 {
        0
    } else {
        gain_upto(r, j - 1) + step_gain(merge_upto(r, j - 1), j - 1)
    }
}

/// One full merge pass over the row: a single left-to-right scan of the
/// adjacent pairs, mutating in place, without skipping the cell after a
/// fresh merge.
pub open spec fn merge_row(r: Seq<u32>) -> Seq<u32> {
    merge_upto(r, r.len() - 1)
}

/// The score one full merge pass over the row adds.
pub open spec fn merge_row_gain(r: Seq<u32>) -> int {
    gain_upto(r, r.len() - 1)
}

/// A nonzero cell of `r` was seen at a position strictly above the tile
/// count of the prefix before it: compression moves that tile left.
pub open spec fn moved_before(r: Seq<u32>, j: int) -> bool {
    exists|jj: int| 0 <= jj < j && r[jj] != 0 && row_count(#[trigger] r.take(jj)) != jj
}

/// A tile value as merges produce them from the seed: a power of two,
/// two or greater.
pub open spec fn pow2_cell(v: u32) -> bool
    decreases v,
{
    if v < 2 {
        false
    } else if v == 2 {
        true
    } else {
        v % 2 == 0 && pow2_cell((v / 2) as u32)
    }
}

/// Every cell of the row is empty or holds a tile value.
pub open spec fn pow2_row(r: Seq<u32>) -> bool {
    forall|j: int| 0 <= j < r.len() ==> ((#[trigger] r[j]) == 0 || pow2_cell(r[j]))
}

pub proof fn lemma_nonzeros_len(r: Seq<u32>)
    ensures
        nonzeros(r).len() <= r.len(),
    decreases r.len(),
{
    if r.len() > 0 {
        lemma_nonzeros_len(r.drop_last());
    }
}

pub proof fn lemma_nonzeros_all_nonzero(r: Seq<u32>)
    ensures
        forall|k: int| 0 <= k < nonzeros(r).len() ==> #[trigger] nonzeros(r)[k] != 0,
    decreases r.len(),
{
    if r.len() > 0 {
        lemma_nonzeros_all_nonzero(r.drop_last());
        if r.last() != 0 {
            assert(forall|k: int|
                0 <= k < nonzeros(r).len() - 1 ==> #[trigger] nonzeros(r)[k] == nonzeros(
                    r.drop_last(),
                )[k]);
        }
    }
}

/// A row of tiles only is left alone by the nonzero filter.
pub proof fn lemma_nonzeros_of_full(r: Seq<u32>)
    requires
        forall|j: int| 0 <= j < r.len() ==> r[j] != 0,
    ensures
        nonzeros(r) == r,
    decreases r.len(),
{
    if r.len() > 0 {
        lemma_nonzeros_of_full(r.drop_last());
        assert(nonzeros(r) =~= r);
    }
}

pub proof fn lemma_nonzeros_of_zero_row(n: nat)
    ensures
        nonzeros(zero_row(n)) == Seq::<u32>::empty(),
    decreases n,
{
    if n > 0 {
        assert(zero_row(n).drop_last() =~= zero_row((n - 1) as nat));
        lemma_nonzeros_of_zero_row((n - 1) as nat);
    }
}

pub proof fn lemma_nonzeros_append(a: Seq<u32>, b: Seq<u32>)
    ensures
        nonzeros(a + b) == nonzeros(a) + nonzeros(b),
    decreases b.len(),
{
    if b.len() == 0 {
        assert(a + b =~= a);
        assert(nonzeros(a) + nonzeros(b) =~= nonzeros(a));
    } else {
        assert((a + b).drop_last() =~= a + b.drop_last());
        lemma_nonzeros_append(a, b.drop_last());
        if b.last() != 0 {
            assert(nonzeros(a) + nonzeros(b) =~= (nonzeros(a) + nonzeros(b.drop_last())).push(
                b.last(),
            ));
        }
    }
}

/// Compression keeps the tiles themselves: only the gaps go.
pub proof fn lemma_nonzeros_of_compress(r: Seq<u32>)
    ensures
        nonzeros(compress_row(r)) == nonzeros(r),
{
    lemma_nonzeros_len(r);
    lemma_nonzeros_append(nonzeros(r), zero_row((r.len() - nonzeros(r).len()) as nat));
    lemma_nonzeros_of_zero_row((r.len() - nonzeros(r).len()) as nat);
    lemma_nonzeros_all_nonzero(r);
    lemma_nonzeros_of_full(nonzeros(r));
    assert(nonzeros(nonzeros(r)) + Seq::<u32>::empty() =~= nonzeros(r));
}

pub proof fn lemma_compress_row_len(r: Seq<u32>)
    ensures
        compress_row(r).len() == r.len(),
{
    lemma_nonzeros_len(r);
}

/// Compressing twice is the same as compressing once.
pub proof fn lemma_compress_row_idempotent(r: Seq<u32>)
    ensures
        compress_row(compress_row(r)) == compress_row(r),
{
    lemma_nonzeros_of_compress(r);
    lemma_compress_row_len(r);
}

/// Mirroring a row twice restores it.
pub proof fn lemma_reverse_row_involution(r: Seq<u32>)
    ensures
        reverse_row(reverse_row(r)) == r,
{
    assert(reverse_row(reverse_row(r)) =~= r);
}

pub proof fn lemma_row_sum_front(r: Seq<u32>)
    requires
        r.len() > 0,
    ensures
        row_sum(r) == r[0] + row_sum(r.drop_first()),
{
    let s = seq![r[0]];
    assert(r =~= s + r.drop_first());
    lemma_row_sum_append(s, r.drop_first());
    assert(s.drop_last() =~= Seq::<u32>::empty());
    assert(row_sum(s) == row_sum(s.drop_last()) + s.last());
}

/// Mirroring a row keeps its sum.
pub proof fn lemma_reverse_row_sum(r: Seq<u32>)
    ensures
        row_sum(reverse_row(r)) == row_sum(r),
    decreases r.len(),
{
    if r.len() > 0 {
        assert(reverse_row(r).drop_last() =~= reverse_row(r.drop_first()));
        assert(reverse_row(r).last() == r[0]);
        lemma_reverse_row_sum(r.drop_first());
        lemma_row_sum_front(r);
    }
}

pub proof fn lemma_row_sum_append(a: Seq<u32>, b: Seq<u32>)
    ensures
        row_sum(a + b) == row_sum(a) + row_sum(b),
    decreases b.len(),
{
    if b.len() == 0 {
        assert(a + b =~= a);
    } else {
        assert((a + b).drop_last() =~= a + b.drop_last());
        lemma_row_sum_append(a, b.drop_last());
    }
}

pub proof fn lemma_row_sum_zero_row(n: nat)
    ensures
        row_sum(zero_row(n)) == 0,
    decreases n,
{
    if n > 0 {
        assert(zero_row(n).drop_last() =~= zero_row((n - 1) as nat));
        lemma_row_sum_zero_row((n - 1) as nat);
    }
}

pub proof fn lemma_row_sum_nonzeros(r: Seq<u32>)
    ensures
        row_sum(nonzeros(r)) == row_sum(r),
    decreases r.len(),
{
    if r.len() > 0 {
        lemma_row_sum_nonzeros(r.drop_last());
        if r.last() != 0 {
            let p = nonzeros(r.drop_last());
            assert(p.push(r.last()).drop_last() =~= p);
            assert(row_sum(p.push(r.last())) == row_sum(p) + r.last());
        }
    }
}

/// Compression keeps the row's sum: it only reorders cells.
pub proof fn lemma_compress_row_sum(r: Seq<u32>)
    ensures
        row_sum(compress_row(r)) == row_sum(r),
{
    lemma_nonzeros_len(r);
    lemma_row_sum_append(nonzeros(r), zero_row((r.len() - nonzeros(r).len()) as nat));
    lemma_row_sum_zero_row((r.len() - nonzeros(r).len()) as nat);
    lemma_row_sum_nonzeros(r);
}

pub proof fn lemma_row_sum_nonneg(r: Seq<u32>)
    ensures
        0 <= row_sum(r),
    decreases r.len(),
{
    if r.len() > 0 {
        lemma_row_sum_nonneg(r.drop_last());
    }
}

pub proof fn lemma_row_sum_take_succ(r: Seq<u32>, j: int)
    requires
        0 <= j < r.len(),
    ensures
        row_sum(r.take(j + 1)) == row_sum(r.take(j)) + r[j],
{
    assert(r.take(j + 1).drop_last() =~= r.take(j));
}

pub proof fn lemma_row_sum_take_le(r: Seq<u32>, j: int)
    requires
        0 <= j <= r.len(),
    ensures
        row_sum(r.take(j)) <= row_sum(r),
    decreases r.len() - j,
{
    if j == r.len() {
        assert(r.take(j) =~= r);
    } else {
        lemma_row_sum_take_succ(r, j);
        lemma_row_sum_take_le(r, j + 1);
    }
}

pub proof fn lemma_row_sum_update(r: Seq<u32>, j: int, v: u32)
    requires
        0 <= j < r.len(),
    ensures
        row_sum(r.update(j, v)) == row_sum(r) - r[j] + v,
    decreases r.len(),
{
    if j == r.len() - 1 {
        assert(r.update(j, v).drop_last() =~= r.drop_last());
    } else {
        assert(r.update(j, v).drop_last() =~= r.drop_last().update(j, v));
        lemma_row_sum_update(r.drop_last(), j, v);
    }
}

pub proof fn lemma_row_count_update(r: Seq<u32>, j: int, v: u32)
    requires
        0 <= j < r.len(),
    ensures
        row_count(r.update(j, v)) == row_count(r) - (if r[j] != 0 {
            1int
        } else {
            0int
        }) + (if v != 0 {
            1int
        } else {
            0int
        }),
    decreases r.len(),
{
    if j == r.len() - 1 {
        assert(r.update(j, v).drop_last() =~= r.drop_last());
    } else {
        assert(r.update(j, v).drop_last() =~= r.drop_last().update(j, v));
        lemma_row_count_update(r.drop_last(), j, v);
    }
}

pub proof fn lemma_gain_upto_nonneg(r: Seq<u32>, j: int)
    ensures
        0 <= gain_upto(r, j),
    decreases j,
{
    if j > 0 {
        lemma_gain_upto_nonneg(r, j - 1);
    }
}

/// While the row's total fits the cell type, the merge scan neither
/// changes the row's sum nor truncates a doubled cell, and the score it
/// gains never exceeds the sum of the cells it has passed.
pub proof fn lemma_merge_upto_props(r: Seq<u32>, j: int)
    requires
        1 <= r.len(),
        0 <= j <= r.len() - 1,
        row_sum(r) <= u32::MAX,
    ensures
        merge_upto(r, j).len() == r.len(),
        row_sum(merge_upto(r, j)) == row_sum(r),
        gain_upto(r, j) <= row_sum(merge_upto(r, j).take(j)),
        gain_upto(r, j) <= row_sum(r),
    decreases j,
{
    lemma_gain_upto_nonneg(r, j);
    lemma_row_sum_nonneg(r);
    if j == 0 {
        assert(merge_upto(r, 0).take(0) =~= Seq::<u32>::empty());
    } else {
        lemma_merge_upto_props(r, j - 1);
        let s = merge_upto(r, j - 1);
        lemma_row_sum_take_succ(s, j - 1);
        lemma_row_sum_take_succ(s, j);
        lemma_row_sum_take_le(s, j + 1);
        lemma_row_sum_nonneg(s.take(j - 1));
        // the adjacent pair is bounded by the whole row's sum
        assert(s[j - 1] + s[j] <= row_sum(s));
        if s[j - 1] != 0 && s[j - 1] == s[j] {
            let nv = (s[j - 1] + s[j]) as u32;
            assert(nv == s[j - 1] + s[j]);
            let t = s.update(j - 1, nv).update(j, 0u32);
            lemma_row_sum_update(s, j - 1, nv);
            lemma_row_sum_update(s.update(j - 1, nv), j, 0u32);
            assert(t.take(j - 1) =~= s.take(j - 1));
            lemma_row_sum_take_succ(t, j - 1);
        } else {
            assert(merge_upto(r, j) == s);
        }
        lemma_row_sum_take_le(merge_upto(r, j), j);
    }
}

/// One full merge pass preserves the row's length and sum, and its score
/// gain is bounded by the row's sum.
pub proof fn lemma_merge_row_props(r: Seq<u32>)
    requires
        1 <= r.len(),
        row_sum(r) <= u32::MAX,
    ensures
        merge_row(r).len() == r.len(),
        row_sum(merge_row(r)) == row_sum(r),
        0 <= merge_row_gain(r) <= row_sum(r),
{
    lemma_merge_upto_props(r, r.len() - 1);
    lemma_gain_upto_nonneg(r, r.len() - 1);
}

/// A merge pass that gains nothing merged nothing: the row is unchanged.
pub proof fn lemma_gain_zero_fixed(r: Seq<u32>, j: int)
    requires
        gain_upto(r, j) == 0,
    ensures
        merge_upto(r, j) == r,
    decreases j,
{
    if j > 0 {
        lemma_gain_upto_nonneg(r, j - 1);
        lemma_gain_zero_fixed(r, j - 1);
    }
}

pub proof fn lemma_merge_upto_len(r: Seq<u32>, j: int)
    requires
        j < r.len(),
    ensures
        merge_upto(r, j).len() == r.len(),
    decreases j,
{
    if j > 0 {
        lemma_merge_upto_len(r, j - 1);
    }
}

/// A merge pass that gains something removed at least one tile.
pub proof fn lemma_gain_pos_count(r: Seq<u32>, j: int)
    requires
        0 <= j <= r.len() - 1,
    ensures
        row_count(merge_upto(r, j)) <= row_count(r),
        gain_upto(r, j) > 0 ==> row_count(merge_upto(r, j)) < row_count(r),
    decreases j,
{
    if j > 0 {
        lemma_gain_pos_count(r, j - 1);
        lemma_gain_upto_nonneg(r, j - 1);
        lemma_merge_upto_len(r, j - 1);
        let s = merge_upto(r, j - 1);
        if s[j - 1] != 0 && s[j - 1] == s[j] {
            let nv = (s[j - 1] + s[j]) as u32;
            lemma_row_count_update(s, j - 1, nv);
            lemma_row_count_update(s.update(j - 1, nv), j, 0u32);
            assert(s.update(j - 1, nv)[j] == s[j]);
        }
    }
}

/// A settled row is a fixed point of both primitives: compression finds
/// no gap to close and the merge scan finds no pair to merge.
pub proof fn lemma_settled_row_unchanged(r: Seq<u32>)
    requires
        settled_row(r),
    ensures
        compress_row(r) == r,
        merge_row(r) == r,
        merge_row_gain(r) == 0,
{
    lemma_nonzeros_of_full(r);
    assert(compress_row(r) =~= r);
    if r.len() >= 1 {
        lemma_settled_merge_upto(r, r.len() - 1);
    }
}

proof fn lemma_settled_merge_upto(r: Seq<u32>, j: int)
    requires
        settled_row(r),
        0 <= j <= r.len() - 1,
    ensures
        merge_upto(r, j) == r,
        gain_upto(r, j) == 0,
    decreases j,
{
    if j > 0 {
        lemma_settled_merge_upto(r, j - 1);
    }
}

/// Up to position `j` the compression cursor saw no tile out of place:
/// the prefix is its own compression, tiles first, gaps after.
proof fn lemma_unmoved_prefix(r: Seq<u32>, j: int)
    requires
        0 <= j <= r.len(),
        !moved_before(r, j),
    ensures
        nonzeros(r.take(j)) == r.take(row_count(r.take(j))),
        forall|p: int| row_count(r.take(j)) <= p < j ==> r[p] == 0,
    decreases j,
{
    if j == 0 {
        assert(r.take(0) =~= Seq::<u32>::empty());
        assert(nonzeros(r.take(0)) =~= r.take(0));
    } else {
        assert(!moved_before(r, j - 1));
        lemma_unmoved_prefix(r, j - 1);
        let k = row_count(r.take(j - 1));
        lemma_nonzeros_len(r.take(j - 1));
        assert(r.take(j).drop_last() =~= r.take(j - 1));
        if r[j - 1] != 0 {
            // this tile was not flagged as moved, so the prefix before it
            // is packed full
            assert(k == j - 1);
            assert(nonzeros(r.take(j)) == nonzeros(r.take(j - 1)).push(r[j - 1]));
            assert(nonzeros(r.take(j)) =~= r.take(j));
            assert(row_count(r.take(j)) == j);
        } else {
            assert(nonzeros(r.take(j)) == nonzeros(r.take(j - 1)));
        }
    }
}

/// The compression cursor flags a move somewhere in the row exactly when
/// compression changes the row.
pub proof fn lemma_moved_iff_changed(r: Seq<u32>)
    ensures
        moved_before(r, r.len() as int) <==> compress_row(r) != r,
{
    lemma_nonzeros_len(r);
    lemma_nonzeros_all_nonzero(r);
    if moved_before(r, r.len() as int) {
        let jj = choose|jj: int|
            0 <= jj < r.len() && r[jj] != 0 && row_count(#[trigger] r.take(jj)) != jj;
        lemma_nonzeros_len(r.take(jj));
        // some gap precedes the flagged tile
        if forall|p: int| 0 <= p < jj ==> r[p] != 0 {
            assert(forall|p: int| 0 <= p < r.take(jj).len() ==> r.take(jj)[p] != 0);
            lemma_nonzeros_of_full(r.take(jj));
            assert(false);
        }
        let p = choose|p: int| 0 <= p < jj && r[p] == 0;
        if compress_row(r) == r {
            // a zero cell sits in the tile prefix of a compressed row
            lemma_take_count_le(r, jj);
            assert(compress_row(r)[jj] == r[jj]);
            assert(jj < row_count(r) || r[jj] == 0);
            assert(compress_row(r)[p] == r[p]);
            assert(p < row_count(r));
            assert(r[p] == nonzeros(r)[p]);
            assert(false);
        }
    } else {
        lemma_unmoved_prefix(r, r.len() as int);
        assert(r.take(r.len() as int) =~= r);
        let k = row_count(r);
        assert(compress_row(r) =~= r);
    }
}

/// Doubling a tile value gives a tile value, as long as it fits the
/// cell type.
pub proof fn lemma_pow2_double(v: u32)
    requires
        pow2_cell(v),
        2 * v <= u32::MAX,
    ensures
        pow2_cell((2 * v) as u32),
{
    let nv = (2 * v) as u32;
    assert(nv % 2 == 0 && (nv / 2) as u32 == v);
}

/// Compression only reorders cells, so a row of tile values stays one.
pub proof fn lemma_pow2_compress_row(r: Seq<u32>)
    requires
        pow2_row(r),
    ensures
        pow2_row(compress_row(r)),
{
    lemma_pow2_nonzeros(r);
    lemma_nonzeros_len(r);
}

proof fn lemma_pow2_nonzeros(r: Seq<u32>)
    requires
        pow2_row(r),
    ensures
        forall|k: int| 0 <= k < nonzeros(r).len() ==> pow2_cell(#[trigger] nonzeros(r)[k]),
    decreases r.len(),
{
    if r.len() > 0 {
        assert(pow2_row(r.drop_last()));
        lemma_pow2_nonzeros(r.drop_last());
        if r.last() != 0 {
            assert(forall|k: int|
                0 <= k < nonzeros(r).len() - 1 ==> #[trigger] nonzeros(r)[k] == nonzeros(
                    r.drop_last(),
                )[k]);
        }
    }
}

/// The merge pass only doubles tile values, so a row of tile values
/// stays one while the row's sum fits the cell type.
pub proof fn lemma_pow2_merge_upto(r: Seq<u32>, j: int)
    requires
        pow2_row(r),
        1 <= r.len(),
        0 <= j <= r.len() - 1,
        row_sum(r) <= u32::MAX,
    ensures
        pow2_row(merge_upto(r, j)),
    decreases j,
{
    if j > 0 {
        lemma_pow2_merge_upto(r, j - 1);
        lemma_merge_upto_props(r, j - 1);
        let s = merge_upto(r, j - 1);
        if s[j - 1] != 0 && s[j - 1] == s[j] {
            lemma_row_sum_take_succ(s, j - 1);
            lemma_row_sum_take_succ(s, j);
            lemma_row_sum_take_le(s, j + 1);
            lemma_row_sum_nonneg(s.take(j - 1));
            assert(s[j - 1] + s[j] <= row_sum(s));
            lemma_pow2_double(s[j - 1]);
            let nv = (s[j - 1] + s[j]) as u32;
            let t = s.update(j - 1, nv).update(j, 0u32);
            assert forall|jj: int| 0 <= jj < t.len() implies ((#[trigger] t[jj]) == 0 || pow2_cell(
                t[jj],
            )) by {
                if jj != j - 1 && jj != j {
                    assert(t[jj] == s[jj]);
                }
            }
        }
    }
}

/// A prefix never holds more tiles than its own length, so a tile count
/// of a strict prefix stays below the full count when the cell at its end
/// is a tile.
proof fn lemma_take_count_le(r: Seq<u32>, j: int)
    requires
        0 <= j <= r.len(),
    ensures
        row_count(r.take(j)) <= row_count(r),
        j < r.len() && r[j] != 0 ==> row_count(r.take(j)) < row_count(r),
    decreases r.len() - j,
{
    if j < r.len() {
        assert(r.take(j + 1).drop_last() =~= r.take(j));
        lemma_take_count_le(r, j + 1);
        assert(row_count(r.take(j + 1)) == row_count(r.take(j)) + (if r[j] != 0 {
            1int
        } else {
            0int
        }));
    } else {
        assert(r.take(j) =~= r);
    }
}

} // verus!
