//! The game engine: a square grid of tile values, the score, and the
//! game-over flag, with the directional moves built from the row
//! primitives.

use rand::Rng;
use vstd::prelude::*;
use crate::grid_ops::{
    compress_grid, grid_count, grid_count_upto, grid_gain_upto, grid_set, grid_sum,
    grid_sum_upto, lemma_compress_square, lemma_grid_count_upto_zero, lemma_grid_set_count,
    lemma_grid_set_only_twos, lemma_grid_sum_upto_le, lemma_grid_sum_upto_nonneg,
    lemma_merge_square, lemma_move_left_changed, lemma_pow2_move_left, lemma_pow2_reverse_grid,
    lemma_pow2_transpose_grid, pow2_grid,
    lemma_reverse_grid_involution, lemma_reverse_square, lemma_row_count_take_succ,
    lemma_row_le_grid_sum, lemma_transpose_involution, lemma_transpose_square, lemma_transpose_sum,
    merge_gain, merge_grid, move_left_gain, move_left_grid, only_twos, reverse_grid,
    spec_game_over, square, transpose_grid,
};
use crate::row_ops::{
    compress_row, gain_upto, lemma_gain_upto_nonneg, lemma_merge_upto_props,
    lemma_moved_iff_changed, lemma_nonzeros_len, lemma_nonzeros_of_zero_row, lemma_row_sum_nonneg,
    lemma_row_sum_take_succ, lemma_row_sum_take_le, merge_row, merge_row_gain, merge_upto,
    moved_before, nonzeros, reverse_row, row_count, row_sum, zero_row,
};

verus! {

/// Board side of a fresh game.
pub const DEFAULT_SIDE: usize = 4;

/// The four move directions a player can request.
#[derive(Clone, Copy, PartialEq, Eq, Structural, Debug)]
pub enum Direction {
    Up,
    Down,
    Left,
    Right,
}

/// The rule engine: it owns the grid and the score exclusively, and
/// every operation runs to completion before the next one starts.
pub struct MyGame {
    /// The grid, row by row; `0` marks an empty cell.
    pub map: Vec<Vec<u32>>,
    /// Sum of every merged tile's value at the moment of its merge.
    pub score: u32,
    /// Set once no move can change the grid any more.
    pub is_gameover: bool,
}

/// The grid a directional move leaves behind: the canonical leftward
/// pass, wrapped in the reflections that carry it to the other three
/// directions and back.
pub open spec fn apply_move_grid(g: Seq<Seq<u32>>, dir: Direction) -> Seq<Seq<u32>> {
    match dir {
        Direction::Up => move_left_grid(g),
        Direction::Down => reverse_grid(move_left_grid(reverse_grid(g))),
        Direction::Left => transpose_grid(move_left_grid(transpose_grid(g))),
        Direction::Right => transpose_grid(
            reverse_grid(move_left_grid(reverse_grid(transpose_grid(g)))),
        ),
    }
}

/// The score a directional move adds.
pub open spec fn apply_move_gain(g: Seq<Seq<u32>>, dir: Direction) -> int {
    match dir {
        Direction::Up => move_left_gain(g),
        Direction::Down => move_left_gain(reverse_grid(g)),
        Direction::Left => move_left_gain(transpose_grid(g)),
        Direction::Right => move_left_gain(reverse_grid(transpose_grid(g))),
    }
}

/// The grid's data-model invariant survives every directional move:
/// starting from cells that are empty or powers of two bred from the
/// seed, a move leaves only such cells behind.
pub proof fn lemma_apply_move_preserves_powers(g: Seq<Seq<u32>>, dir: Direction)
    requires
        square(g),
        grid_sum(g) <= u32::MAX,
        pow2_grid(g),
    ensures
        pow2_grid(apply_move_grid(g, dir)),
{
    match dir {
        Direction::Up => {
            lemma_pow2_move_left(g);
        },
        Direction::Down => {
            lemma_reverse_square(g);
            lemma_pow2_reverse_grid(g);
            lemma_pow2_move_left(reverse_grid(g));
            lemma_pow2_reverse_grid(move_left_grid(reverse_grid(g)));
        },
        Direction::Left => {
            lemma_transpose_square(g);
            lemma_transpose_sum(g);
            lemma_pow2_transpose_grid(g);
            lemma_pow2_move_left(transpose_grid(g));
            lemma_pow2_transpose_grid(move_left_grid(transpose_grid(g)));
        },
        Direction::Right => {
            lemma_transpose_square(g);
            lemma_transpose_sum(g);
            lemma_pow2_transpose_grid(g);
            lemma_reverse_square(transpose_grid(g));
            lemma_pow2_reverse_grid(transpose_grid(g));
            let x = reverse_grid(transpose_grid(g));
            lemma_pow2_move_left(x);
            lemma_reverse_square(move_left_grid(x));
            lemma_pow2_reverse_grid(move_left_grid(x));
            lemma_pow2_transpose_grid(reverse_grid(move_left_grid(x)));
        },
    }
}

impl MyGame {
    /// The grid as a sequence of rows of cell values.
    pub open spec fn rows(self) -> Seq<Seq<u32>> {
        Seq::new(self.map@.len(), |i: int| self.map@[i]@)
    }

    /// A well-formed engine holds a square grid with at least two rows.
    pub open spec fn wf(self) -> bool {
        square(self.rows())
    }

    /// The number of rows (and of columns) of the grid.
    pub open spec fn side(self) -> int {
        self.map@.len() as int
    }

    /// Wraps a caller-supplied grid, with the score at zero; the grid
    /// must be square and hold at least two rows.
    pub fn from_rows(map: Vec<Vec<u32>>) -> (game: MyGame)
        requires
            map@.len() >= 2,
            forall|i: int| 0 <= i < map@.len() ==> (#[trigger] map@[i])@.len() == map@.len(),
        ensures
            game.wf(),
            game.map == map,
            game.score == 0,
            !game.is_gameover,
    {
        MyGame { map, score: 0, is_gameover: false }
    }

    /// Read-only view of the grid, for rendering.
    pub fn grid(&self) -> (r: &Vec<Vec<u32>>)
        ensures
            r@ == self.map@,
    {
        &self.map
    }

    /// The accumulated score.
    pub fn score(&self) -> (s: u32)
        ensures
            s == self.score,
    {
        self.score
    }

    /// Whether the game has been marked as over.
    pub fn game_over(&self) -> (over: bool)
        ensures
            over == self.is_gameover,
    {
        self.is_gameover
    }

    /// Mirrors every row left to right; used to turn a rightward or
    /// downward request into the canonical leftward pass.
    pub fn reverse_map(&mut self)
        requires
            old(self).wf(),
        ensures
            final(self).wf(),
            final(self).rows() == reverse_grid(old(self).rows()),
            final(self).score == old(self).score,
            final(self).is_gameover == old(self).is_gameover,
    {
        let ghost g0 = self.rows();
        let n = self.map.len();
        let mut newm: Vec<Vec<u32>> = Vec::new();
        let mut i: usize = 0;
        while i < n
            invariant
                n == g0.len(),
                square(g0),
                self.map@.len() == n,
                forall|ii: int| 0 <= ii < n ==> (#[trigger] self.map@[ii])@ == g0[ii],
                i <= n,
                newm@.len() == i,
                forall|ii: int| 0 <= ii < i ==> (#[trigger] newm@[ii])@ == reverse_row(g0[ii]),
            decreases n - i,
        {
            let mut nr: Vec<u32> = Vec::new();
            let mut j: usize = 0;
            while j < n
                invariant
                    n == g0.len(),
                    square(g0),
                    self.map@.len() == n,
                    forall|ii: int| 0 <= ii < n ==> (#[trigger] self.map@[ii])@ == g0[ii],
                    i < n,
                    j <= n,
                    nr@.len() == j,
                    forall|jj: int| 0 <= jj < j ==> nr@[jj] == g0[i as int][n - 1 - jj],
                decreases n - j,
            {
                let v = self.map[i][n - 1 - j];
                nr.push(v);
                j += 1;
            }
            proof {
                assert(nr@ =~= reverse_row(g0[i as int]));
            }
            newm.push(nr);
            i += 1;
        }
        self.map = newm;
        proof {
            assert(self.rows() =~= reverse_grid(g0));
        }
    }

    /// Swaps rows and columns; used to turn a vertical request into a
    /// horizontal one.
    pub fn transp_map(&mut self)
        requires
            old(self).wf(),
        ensures
            final(self).wf(),
            final(self).rows() == transpose_grid(old(self).rows()),
            final(self).score == old(self).score,
            final(self).is_gameover == old(self).is_gameover,
    {
        let ghost g0 = self.rows();
        let n = self.map.len();
        let mut newm: Vec<Vec<u32>> = Vec::new();
        let mut i: usize = 0;
        while i < n
            invariant
                n == g0.len(),
                square(g0),
                self.map@.len() == n,
                forall|ii: int| 0 <= ii < n ==> (#[trigger] self.map@[ii])@ == g0[ii],
                i <= n,
                newm@.len() == i,
                forall|ii: int| 0 <= ii < i ==> (#[trigger] newm@[ii])@ == transpose_grid(g0)[ii],
            decreases n - i,
        {
            let mut nr: Vec<u32> = Vec::new();
            let mut j: usize = 0;
            while j < n
                invariant
                    n == g0.len(),
                    square(g0),
                    self.map@.len() == n,
                    forall|ii: int| 0 <= ii < n ==> (#[trigger] self.map@[ii])@ == g0[ii],
                    i < n,
                    j <= n,
                    nr@.len() == j,
                    forall|jj: int| 0 <= jj < j ==> nr@[jj] == g0[jj][i as int],
                decreases n - j,
            {
                let v = self.map[j][i];
                nr.push(v);
                j += 1;
            }
            proof {
                assert(nr@ =~= transpose_grid(g0)[i as int]);
            }
            newm.push(nr);
            i += 1;
        }
        self.map = newm;
        proof {
            assert(self.rows() =~= transpose_grid(g0));
        }
    }

    /// True exactly when the board is stuck: every cell holds a tile and
    /// no two adjacent tiles, in either direction, are equal.
    pub fn chk_gameover(&self) -> (over: bool)
        requires
            self.wf(),
        ensures
            over == spec_game_over(self.rows()),
    {
        let ghost g = self.rows();
        let n = self.map.len();
        let mut i: usize = 0;
        while i < n
            invariant
                n == g.len(),
                square(g),
                self.map@.len() == n,
                forall|ii: int| 0 <= ii < n ==> (#[trigger] self.map@[ii])@ == g[ii],
                i <= n,
                forall|a: int, b: int| 0 <= a < i && 0 <= b < n ==> #[trigger] g[a][b] != 0,
            decreases n - i,
        {
            let mut j: usize = 0;
            while j < n
                invariant
                    n == g.len(),
                    square(g),
                    self.map@.len() == n,
                    forall|ii: int| 0 <= ii < n ==> (#[trigger] self.map@[ii])@ == g[ii],
                    i < n,
                    j <= n,
                    forall|a: int, b: int| 0 <= a < i && 0 <= b < n ==> #[trigger] g[a][b] != 0,
                    forall|b: int| 0 <= b < j ==> #[trigger] g[i as int][b] != 0,
                decreases n - j,
            {
                if self.map[i][j] == 0 {
                    proof {
                        assert(self.rows() =~= g);
                    }
                    return false;
                }
                j += 1;
            }
            i += 1;
        }
        let mut i: usize = 0;
        while i < n
            invariant
                n == g.len(),
                square(g),
                self.map@.len() == n,
                forall|ii: int| 0 <= ii < n ==> (#[trigger] self.map@[ii])@ == g[ii],
                i <= n,
                forall|a: int, b: int|
                    0 <= a < i && 0 <= b < n - 1 ==> #[trigger] g[a][b] != g[a][b + 1],
            decreases n - i,
        {
            let mut j: usize = 0;
            while j + 1 < n
                invariant
                    n == g.len(),
                    square(g),
                    self.map@.len() == n,
                    forall|ii: int| 0 <= ii < n ==> (#[trigger] self.map@[ii])@ == g[ii],
                    i < n,
                    j < n,
                    forall|a: int, b: int|
                        0 <= a < i && 0 <= b < n - 1 ==> #[trigger] g[a][b] != g[a][b + 1],
                    forall|b: int| 0 <= b < j ==> #[trigger] g[i as int][b] != g[i as int][b + 1],
                decreases n - j,
            {
                if self.map[i][j] == self.map[i][j + 1] {
                    proof {
                        assert(self.rows() =~= g);
                    }
                    return false;
                }
                j += 1;
            }
            i += 1;
        }
        let mut i: usize = 0;
        while i + 1 < n
            invariant
                n == g.len(),
                square(g),
                self.map@.len() == n,
                forall|ii: int| 0 <= ii < n ==> (#[trigger] self.map@[ii])@ == g[ii],
                i < n,
                forall|a: int, b: int|
                    0 <= a < i && 0 <= b < n ==> #[trigger] g[a][b] != g[a + 1][b],
            decreases n - i,
        {
            let mut j: usize = 0;
            while j < n
                invariant
                    n == g.len(),
                    square(g),
                    self.map@.len() == n,
                    forall|ii: int| 0 <= ii < n ==> (#[trigger] self.map@[ii])@ == g[ii],
                    i + 1 < n,
                    j <= n,
                    forall|a: int, b: int|
                        0 <= a < i && 0 <= b < n ==> #[trigger] g[a][b] != g[a + 1][b],
                    forall|b: int| 0 <= b < j ==> #[trigger] g[i as int][b] != g[i as int + 1][b],
                decreases n - j,
            {
                if self.map[i][j] == self.map[i + 1][j] {
                    proof {
                        assert(self.rows() =~= g);
                    }
                    return false;
                }
                j += 1;
            }
            i += 1;
        }
        proof {
            assert(self.rows() =~= g);
        }
        true
    }

    /// Slides every row's tiles toward the low indices, keeping their
    /// order and leaving the empty cells at the tail; reports whether
    /// any tile moved.
    pub fn compress(&mut self) -> (changed: bool)
        requires
            old(self).wf(),
        ensures
            final(self).wf(),
            final(self).rows() == compress_grid(old(self).rows()),
            final(self).score == old(self).score,
            final(self).is_gameover == old(self).is_gameover,
            changed == (compress_grid(old(self).rows()) != old(self).rows()),
    {
        let ghost g0 = self.rows();
        let n = self.map.len();
        let mut is_changed = false;
        let mut i: usize = 0;
        while i < n
            invariant
                n == g0.len(),
                square(g0),
                self.map@.len() == n,
                self.score == old(self).score,
                self.is_gameover == old(self).is_gameover,
                i <= n,
                forall|ii: int| i <= ii < n ==> (#[trigger] self.map@[ii])@ == g0[ii],
                forall|ii: int|
                    0 <= ii < i ==> (#[trigger] self.map@[ii])@ == compress_row(g0[ii]),
                is_changed == (exists|ii: int|
                    0 <= ii < i && compress_row(#[trigger] g0[ii]) != g0[ii]),
            decreases n - i,
        {
            let ghost r = g0[i as int];
            let mut newr: Vec<u32> = Vec::new();
            let mut row_changed = false;
            let mut j: usize = 0;
            while j < n
                invariant
                    n == g0.len(),
                    square(g0),
                    self.map@.len() == n,
                    forall|ii: int| i <= ii < n ==> (#[trigger] self.map@[ii])@ == g0[ii],
                    i < n,
                    r == g0[i as int],
                    r.len() == n,
                    j <= n,
                    newr@ == nonzeros(r.take(j as int)),
                    newr@.len() <= j,
                    row_changed == moved_before(r, j as int),
                decreases n - j,
            {
                let v = self.map[i][j];
                proof {
                    assert(r.take(j + 1).drop_last() =~= r.take(j as int));
                    assert(r.take(j + 1).last() == r[j as int]);
                    lemma_nonzeros_len(r.take(j as int));
                }
                let ghost was_moved = moved_before(r, j as int);
                if v != 0 {
                    if newr.len() != j {
                        row_changed = true;
                    }
                    newr.push(v);
                }
                proof {
                    if row_changed {
                        if was_moved {
                            let jj = choose|jj: int|
                                0 <= jj < j && r[jj] != 0 && row_count(#[trigger] r.take(jj))
                                    != jj;
                            assert(0 <= jj < j + 1 && r[jj] != 0 && row_count(r.take(jj)) != jj);
                        } else {
                            assert(r[j as int] != 0 && row_count(r.take(j as int)) != j as int);
                        }
                        assert(moved_before(r, j + 1));
                    } else {
                        assert forall|jj: int|
                            0 <= jj < j + 1 && r[jj] != 0 implies row_count(
                            #[trigger] r.take(jj),
                        ) == jj by {
                            if jj < j {
                                assert(!moved_before(r, j as int));
                            }
                        }
                        assert(!moved_before(r, j + 1));
                    }
                }
                j += 1;
            }
            proof {
                assert(r.take(n as int) =~= r);
                lemma_nonzeros_len(r);
                assert(newr@ =~= nonzeros(r) + zero_row((newr@.len() - nonzeros(r).len()) as nat));
            }
            let ghost k = newr@.len();
            while newr.len() < n
                invariant
                    n == g0.len(),
                    r.len() == n,
                    k == nonzeros(r).len(),
                    k <= newr@.len() <= n,
                    newr@ == nonzeros(r) + zero_row((newr@.len() - k) as nat),
                decreases n - newr@.len(),
            {
                newr.push(0);
                proof {
                    assert(zero_row((newr@.len() - k) as nat) =~= zero_row(
                        (newr@.len() - 1 - k) as nat,
                    ).push(0u32));
                    assert(newr@ =~= nonzeros(r) + zero_row((newr@.len() - k) as nat));
                }
            }
            proof {
                assert(newr@ == compress_row(r));
                lemma_moved_iff_changed(r);
            }
            is_changed = is_changed || row_changed;
            self.map.set(i, newr);
            i += 1;
        }
        proof {
            assert(self.rows() =~= compress_grid(g0));
            lemma_compress_square(g0);
            if is_changed {
                let ii = choose|ii: int| 0 <= ii < n && compress_row(#[trigger] g0[ii]) != g0[ii];
                assert(compress_grid(g0)[ii] != g0[ii]);
            } else {
                assert(compress_grid(g0) =~= g0);
            }
        }
        is_changed
    }

    /// Scans each row's adjacent pairs once, left to right, merging
    /// every equal nonzero pair in place: the left cell doubles, the
    /// right cell empties, and the doubled value joins the score. The
    /// scan does not skip the cell after a fresh merge. Reports whether
    /// any pair merged.
    pub fn merge(&mut self) -> (changed: bool)
        requires
            old(self).wf(),
            grid_sum(old(self).rows()) + old(self).score <= u32::MAX,
        ensures
            final(self).wf(),
            final(self).rows() == merge_grid(old(self).rows()),
            final(self).score == old(self).score + merge_gain(old(self).rows()),
            final(self).is_gameover == old(self).is_gameover,
            grid_sum(final(self).rows()) == grid_sum(old(self).rows()),
            changed == (merge_gain(old(self).rows()) > 0),
    {
        let ghost g0 = self.rows();
        let n = self.map.len();
        let mut changed = false;
        let mut i: usize = 0;
        while i < n
            invariant
                n == g0.len(),
                square(g0),
                grid_sum(g0) + old(self).score <= u32::MAX,
                self.map@.len() == n,
                self.is_gameover == old(self).is_gameover,
                i <= n,
                forall|ii: int| i <= ii < n ==> (#[trigger] self.map@[ii])@ == g0[ii],
                forall|ii: int| 0 <= ii < i ==> (#[trigger] self.map@[ii])@ == merge_row(g0[ii]),
                self.score == old(self).score + grid_gain_upto(g0, i as int),
                0 <= grid_gain_upto(g0, i as int) <= grid_sum_upto(g0, i as int),
                changed == (grid_gain_upto(g0, i as int) > 0),
            decreases n - i,
        {
            let ghost r = g0[i as int];
            proof {
                lemma_row_le_grid_sum(g0, i as int);
                lemma_row_sum_nonneg(r);
                lemma_grid_sum_upto_nonneg(g0, i as int);
                lemma_grid_sum_upto_le(g0, i as int + 1);
            }
            let mut newr: Vec<u32> = Vec::new();
            let mut j: usize = 0;
            while j < n
                invariant
                    n == g0.len(),
                    square(g0),
                    self.map@.len() == n,
                    forall|ii: int| i <= ii < n ==> (#[trigger] self.map@[ii])@ == g0[ii],
                    i < n,
                    r == g0[i as int],
                    r.len() == n,
                    j <= n,
                    newr@ == r.take(j as int),
                decreases n - j,
            {
                let v = self.map[i][j];
                proof {
                    assert(r.take(j + 1).drop_last() =~= r.take(j as int));
                }
                newr.push(v);
                j += 1;
            }
            proof {
                assert(r.take(n as int) =~= r);
            }
            let mut j: usize = 0;
            while j + 1 < n
                invariant
                    n == g0.len(),
                    square(g0),
                    grid_sum(g0) + old(self).score <= u32::MAX,
                    self.map@.len() == n,
                    self.is_gameover == old(self).is_gameover,
                    forall|ii: int| i <= ii < n ==> (#[trigger] self.map@[ii])@ == g0[ii],
                    forall|ii: int|
                        0 <= ii < i ==> (#[trigger] self.map@[ii])@ == merge_row(g0[ii]),
                    i < n,
                    r == g0[i as int],
                    r.len() == n,
                    j < n,
                    newr@ == merge_upto(r, j as int),
                    newr@.len() == n,
                    self.score == old(self).score + grid_gain_upto(g0, i as int) + gain_upto(
                        r,
                        j as int,
                    ),
                    0 <= grid_gain_upto(g0, i as int) <= grid_sum_upto(g0, i as int),
                    changed == (grid_gain_upto(g0, i as int) + gain_upto(r, j as int) > 0),
                decreases n - j,
            {
                proof {
                    lemma_row_le_grid_sum(g0, i as int);
                    lemma_grid_sum_upto_nonneg(g0, i as int);
                    lemma_grid_sum_upto_le(g0, i as int + 1);
                    lemma_merge_upto_props(r, j as int);
                    lemma_merge_upto_props(r, j + 1);
                    lemma_gain_upto_nonneg(r, j as int);
                }
                let a = newr[j];
                let b = newr[j + 1];
                if a != 0 && a == b {
                    proof {
                        let s = merge_upto(r, j as int);
                        lemma_row_sum_take_succ(s, j as int);
                        lemma_row_sum_take_succ(s, j + 1);
                        lemma_row_sum_take_le(s, j + 2);
                        lemma_row_sum_nonneg(s.take(j as int));
                        assert(s[j as int] + s[j + 1] <= row_sum(s));
                    }
                    let nv = a * 2;
                    newr.set(j, nv);
                    newr.set(j + 1, 0);
                    self.score = self.score + nv;
                    changed = true;
                    proof {
                        assert(newr@ =~= merge_upto(r, j + 1));
                    }
                } else {
                    proof {
                        assert(newr@ =~= merge_upto(r, j + 1));
                    }
                }
                j += 1;
            }
            proof {
                assert(j == n - 1);
                assert(newr@ == merge_row(r));
                lemma_merge_upto_props(r, n - 1);
                lemma_gain_upto_nonneg(r, n - 1);
                assert(grid_gain_upto(g0, i as int + 1) == grid_gain_upto(g0, i as int)
                    + merge_row_gain(r));
                assert(grid_sum_upto(g0, i as int + 1) == grid_sum_upto(g0, i as int)
                    + row_sum(r));
            }
            self.map.set(i, newr);
            i += 1;
        }
        proof {
            assert(self.rows() =~= merge_grid(g0));
            lemma_merge_square(g0);
        }
        changed
    }

    /// One move toward the low indices: compress, merge the adjacent
    /// pairs once, compress again to close the fresh gaps. Reports
    /// whether the board changed.
    pub fn move_title(&mut self) -> (changed: bool)
        requires
            old(self).wf(),
            grid_sum(old(self).rows()) + old(self).score <= u32::MAX,
        ensures
            final(self).wf(),
            final(self).rows() == move_left_grid(old(self).rows()),
            final(self).score == old(self).score + move_left_gain(old(self).rows()),
            final(self).is_gameover == old(self).is_gameover,
            grid_sum(final(self).rows()) == grid_sum(old(self).rows()),
            changed == (move_left_grid(old(self).rows()) != old(self).rows()),
    {
        let ghost g = self.rows();
        proof {
            lemma_compress_square(g);
            lemma_merge_square(compress_grid(g));
            lemma_compress_square(merge_grid(compress_grid(g)));
            lemma_move_left_changed(g);
        }
        let mut if_moved = self.compress();
        let merged = self.merge();
        if_moved = if_moved || merged;
        let slid = self.compress();
        if_moved = if_moved || slid;
        if_moved
    }

    /// Applies one directional move, built from the leftward pass and
    /// the reflections of the direction table; the orientation of the
    /// grid is always restored before returning. Reports whether the
    /// board changed.
    pub fn apply_move(&mut self, dir: Direction) -> (changed: bool)
        requires
            old(self).wf(),
            grid_sum(old(self).rows()) + old(self).score <= u32::MAX,
        ensures
            final(self).wf(),
            final(self).rows() == apply_move_grid(old(self).rows(), dir),
            final(self).score == old(self).score + apply_move_gain(old(self).rows(), dir),
            final(self).is_gameover == old(self).is_gameover,
            grid_sum(final(self).rows()) == grid_sum(old(self).rows()),
            changed == (final(self).rows() != old(self).rows()),
    {
        let ghost g = self.rows();
        match dir {
            Direction::Up => {
                let moved = self.move_title();
                moved
            },
            Direction::Down => {
                proof {
                    lemma_reverse_square(g);
                    lemma_reverse_grid_involution(g);
                }
                self.reverse_map();
                let moved = self.move_title();
                let ghost gm = move_left_grid(reverse_grid(g));
                proof {
                    lemma_reverse_square(gm);
                    lemma_reverse_grid_involution(gm);
                }
                self.reverse_map();
                moved
            },
            Direction::Left => {
                proof {
                    lemma_transpose_square(g);
                    lemma_transpose_sum(g);
                    lemma_transpose_involution(g);
                }
                self.transp_map();
                let moved = self.move_title();
                let ghost gm = move_left_grid(transpose_grid(g));
                proof {
                    lemma_transpose_sum(gm);
                    lemma_transpose_involution(gm);
                }
                self.transp_map();
                moved
            },
            Direction::Right => {
                proof {
                    lemma_transpose_square(g);
                    lemma_transpose_sum(g);
                    lemma_transpose_involution(g);
                    lemma_reverse_square(transpose_grid(g));
                    lemma_reverse_grid_involution(transpose_grid(g));
                }
                self.transp_map();
                self.reverse_map();
                let moved = self.move_title();
                let ghost gm = move_left_grid(reverse_grid(transpose_grid(g)));
                proof {
                    lemma_reverse_square(gm);
                    lemma_reverse_grid_involution(gm);
                    lemma_transpose_sum(reverse_grid(gm));
                    lemma_transpose_involution(reverse_grid(gm));
                }
                self.reverse_map();
                self.transp_map();
                moved
            },
        }
    }

    /// Raises the game-over flag if the board is stuck; never lowers it.
    pub fn update_gameover(&mut self)
        requires
            old(self).wf(),
        ensures
            final(self).wf(),
            final(self).map == old(self).map,
            final(self).score == old(self).score,
            final(self).is_gameover == (old(self).is_gameover || spec_game_over(
                old(self).rows(),
            )),
    {
        if self.chk_gameover() {
            self.is_gameover = true;
        }
    }

    /// Spawns one tile of value 2 on a uniformly chosen empty cell and
    /// reports that it did; on a full grid it reports the lack of room
    /// and changes nothing.
    pub fn gen_new_tiles(&mut self) -> (spawned: bool)
        requires
            old(self).wf(),
        ensures
            final(self).wf(),
            final(self).map@.len() == old(self).map@.len(),
            final(self).score == old(self).score,
            final(self).is_gameover == old(self).is_gameover,
            spawned == (grid_count(old(self).rows()) < old(self).side() * old(self).side()),
            spawned ==> exists|a: int, b: int|
                0 <= a < old(self).side() && 0 <= b < old(self).side() && old(self).rows()[a][b]
                    == 0 && final(self).rows() == grid_set(old(self).rows(), a, b, 2u32),
            spawned ==> grid_count(final(self).rows()) == grid_count(old(self).rows()) + 1,
            !spawned ==> final(self).rows() == old(self).rows(),
    {
        let ghost g0 = self.rows();
        let n = self.map.len();
        let mut empties: Vec<(usize, usize)> = Vec::new();
        let mut i: usize = 0;
        while i < n
            invariant
                n == g0.len(),
                square(g0),
                self.map@.len() == n,
                forall|ii: int| 0 <= ii < n ==> (#[trigger] self.map@[ii])@ == g0[ii],
                i <= n,
                empties@.len() + grid_count_upto(g0, i as int) == i * n,
                forall|k: int|
                    0 <= k < empties@.len() ==> {
                        let c = #[trigger] empties@[k];
                        0 <= c.0 < n && 0 <= c.1 < n && g0[c.0 as int][c.1 as int] == 0
                    },
            decreases n - i,
        {
            let ghost r = g0[i as int];
            let mut j: usize = 0;
            while j < n
                invariant
                    n == g0.len(),
                    square(g0),
                    self.map@.len() == n,
                    forall|ii: int| 0 <= ii < n ==> (#[trigger] self.map@[ii])@ == g0[ii],
                    i < n,
                    r == g0[i as int],
                    r.len() == n,
                    j <= n,
                    empties@.len() + grid_count_upto(g0, i as int) + row_count(
                        r.take(j as int),
                    ) == i * n + j,
                    forall|k: int|
                        0 <= k < empties@.len() ==> {
                            let c = #[trigger] empties@[k];
                            0 <= c.0 < n && 0 <= c.1 < n && g0[c.0 as int][c.1 as int] == 0
                        },
                decreases n - j,
            {
                let v = self.map[i][j];
                proof {
                    lemma_row_count_take_succ(r, j as int);
                    lemma_nonzeros_len(r.take(j as int));
                }
                if v == 0 {
                    empties.push((i, j));
                }
                j += 1;
            }
            proof {
                assert(r.take(n as int) =~= r);
                assert(grid_count_upto(g0, i as int + 1) == grid_count_upto(g0, i as int)
                    + row_count(r));
                assert((i as int + 1) * (n as int) == i as int * (n as int) + n) by (nonlinear_arith);
            }
            i += 1;
        }
        if empties.len() == 0 {
            proof {
                assert(grid_count(g0) == (n as int) * (n as int));
            }
            return false;
        }
        let pick = random_below(empties.len());
        let cell = empties[pick];
        let a = cell.0;
        let b = cell.1;
        let mut nr: Vec<u32> = Vec::new();
        let mut j: usize = 0;
        while j < n
            invariant
                n == g0.len(),
                square(g0),
                self.map@.len() == n,
                forall|ii: int| 0 <= ii < n ==> (#[trigger] self.map@[ii])@ == g0[ii],
                a < n,
                b < n,
                j <= n,
                nr@.len() == j,
                forall|jj: int|
                    0 <= jj < j ==> nr@[jj] == (if jj == b {
                        2u32
                    } else {
                        g0[a as int][jj]
                    }),
            decreases n - j,
        {
            if j == b {
                nr.push(2);
            } else {
                let v = self.map[a][j];
                nr.push(v);
            }
            j += 1;
        }
        proof {
            assert(nr@ =~= g0[a as int].update(b as int, 2u32));
        }
        self.map.set(a, nr);
        proof {
            assert(self.rows() =~= grid_set(g0, a as int, b as int, 2u32));
            lemma_grid_set_count(g0, a as int, b as int, 2u32);
            assert(grid_count(g0) < (n as int) * (n as int));
            assert(g0[a as int][b as int] == 0 && self.rows() == grid_set(
                g0,
                a as int,
                b as int,
                2u32,
            ));
        }
        true
    }

    /// Starts over on the same board size: clears the grid, resets the
    /// score and the game-over flag, then spawns the two starting tiles.
    pub fn new_game(&mut self)
        requires
            old(self).wf(),
        ensures
            final(self).wf(),
            final(self).map@.len() == old(self).map@.len(),
            final(self).score == 0,
            !final(self).is_gameover,
            grid_count(final(self).rows()) == 2,
            only_twos(final(self).rows()),
    {
        let n = self.map.len();
        let mut zm: Vec<Vec<u32>> = Vec::new();
        let mut i: usize = 0;
        while i < n
            invariant
                i <= n,
                zm@.len() == i,
                forall|ii: int| 0 <= ii < i ==> (#[trigger] zm@[ii])@ == zero_row(n as nat),
            decreases n - i,
        {
            let mut zr: Vec<u32> = Vec::new();
            let mut j: usize = 0;
            while j < n
                invariant
                    j <= n,
                    zr@.len() == j,
                    forall|jj: int| 0 <= jj < j ==> zr@[jj] == 0u32,
                decreases n - j,
            {
                zr.push(0);
                j += 1;
            }
            proof {
                assert(zr@ =~= zero_row(n as nat));
            }
            zm.push(zr);
            i += 1;
        }
        self.map = zm;
        self.score = 0;
        self.is_gameover = false;
        proof {
            assert(square(self.rows()));
            assert forall|ii: int| 0 <= ii < n implies row_count(#[trigger] self.rows()[ii])
                == 0 by {
                lemma_nonzeros_of_zero_row(n as nat);
            }
            lemma_grid_count_upto_zero(self.rows(), n as int);
            assert((n as int) * (n as int) >= 4) by (nonlinear_arith)
                requires
                    n >= 2,
            ;
            assert(only_twos(self.rows()));
        }
        let ghost ga = self.rows();
        let first = self.gen_new_tiles();
        proof {
            let (a, b) = choose|a: int, b: int|
                0 <= a < ga.len() && 0 <= b < ga.len() && ga[a][b] == 0 && self.rows() == grid_set(
                    ga,
                    a,
                    b,
                    2u32,
                );
            lemma_grid_set_only_twos(ga, a, b);
        }
        let ghost gb = self.rows();
        let second = self.gen_new_tiles();
        proof {
            let (a, b) = choose|a: int, b: int|
                0 <= a < gb.len() && 0 <= b < gb.len() && gb[a][b] == 0 && self.rows() == grid_set(
                    gb,
                    a,
                    b,
                    2u32,
                );
            lemma_grid_set_only_twos(gb, a, b);
        }
    }

    /// A fresh game on the default board: score zero and exactly two
    /// seed tiles, each of value 2.
    pub fn new() -> (game: MyGame)
        ensures
            game.wf(),
            game.map@.len() == DEFAULT_SIDE,
            game.score == 0,
            !game.is_gameover,
            grid_count(game.rows()) == 2,
            only_twos(game.rows()),
    {
        let mut map: Vec<Vec<u32>> = Vec::new();
        let mut i: usize = 0;
        while i < DEFAULT_SIDE
            invariant
                i <= DEFAULT_SIDE,
                map@.len() == i,
                forall|ii: int| 0 <= ii < i ==> (#[trigger] map@[ii])@.len() == DEFAULT_SIDE,
            decreases DEFAULT_SIDE - i,
        {
            let mut zr: Vec<u32> = Vec::new();
            let mut j: usize = 0;
            while j < DEFAULT_SIDE
                invariant
                    j <= DEFAULT_SIDE,
                    zr@.len() == j,
                decreases DEFAULT_SIDE - j,
            {
                zr.push(0);
                j += 1;
            }
            map.push(zr);
            i += 1;
        }
        let mut game = MyGame { map, score: 0, is_gameover: false };
        game.new_game();
        game
    }
}

/// Relies on rand::thread_rng and rand::Rng::gen_range: sampling the
/// integer range `0..n` yields a value below `n`; the range must not be
/// empty, or the call panics.
#[verifier::external_body]
fn random_below(n: usize) -> (r: usize)
    requires
        n > 0,
    ensures
        r < n,
{
    rand::thread_rng().gen_range(0..n)
}

} // verus!
