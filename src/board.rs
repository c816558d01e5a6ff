//! The board: sixteen cells and a cumulative score, shifted in four
//! directions and filled with random tiles.

use vstd::prelude::*;
use crate::random::{choose_cell, roll_one_to_ten};
use crate::grid::{row_of, transposed, mirrored, lemma_transpose_twice, transpose, lemma_total_transposed, SIZE, CELLS};
use crate::row::{
    total, reduced, row_score, all_tiles, is_tile, score_row, lemma_total_add,
    lemma_total_nonneg, lemma_total_reverse, lemma_row_score_bound, lemma_reduced_len,
    lemma_reduced_tiles, is_power_of_two, lemma_reduce_settled,
};

verus! {

/// The one way in which a board operation fails.
#[derive(Debug, PartialEq, Eq, Structural)]
pub enum BoardError {
    /// Every cell holds a tile: there is nowhere to put a new one.
    NoSpaceForTile,
}

/// The game board: sixteen cells in row-major order, 0 for an empty cell,
/// and the score gathered so far.
#[derive(Debug, Default)]
pub struct Board {
    pub values: Vec<usize>,
    pub score: usize,
}

/// The grid after a left shift: each row reduced toward its head.
pub open spec fn shifted_left(v: Seq<usize>) -> Seq<usize> {
    Seq::new(16, |k: int| reduced(row_of(v, k / 4))[k % 4])
}

/// The grid after a right shift: each row reversed, reduced, and reversed
/// back.
pub open spec fn shifted_right(v: Seq<usize>) -> Seq<usize> {
    Seq::new(16, |k: int| reduced(row_of(v, k / 4).reverse())[3 - k % 4])
}

/// The score that a left shift earns on the first `n` rows of `v`.
pub open spec fn left_gain_upto(v: Seq<usize>, n: int) -> int
    decreases n,
{
    if n <= 0 {
        0
    } else {
        left_gain_upto(v, n - 1) + row_score(row_of(v, n - 1))
    }
}

/// The score that a right shift earns on the first `n` rows of `v`.
pub open spec fn right_gain_upto(v: Seq<usize>, n: int) -> int
    decreases n,
{
    if n <= 0 {
        0
    } else {
        right_gain_upto(v, n - 1) + row_score(row_of(v, n - 1).reverse())
    }
}

/// The score that a left shift earns on `v`: the sum of its row scores.
pub open spec fn left_gain(v: Seq<usize>) -> int {
    left_gain_upto(v, 4)
}

/// The score that a right shift earns on `v`: the sum of its row scores.
pub open spec fn right_gain(v: Seq<usize>) -> int {
    right_gain_upto(v, 4)
}

/// The sum of the first `n` rows of `v` bounds what a shift earns on them.
proof fn lemma_gain_bound(v: Seq<usize>, n: int)
    requires
        v.len() == 16,
        0 <= n <= 4,
    ensures
        0 <= left_gain_upto(v, n) <= total(v.subrange(0, 4 * n)),
        0 <= right_gain_upto(v, n) <= total(v.subrange(0, 4 * n)),
    decreases n,
{
    if n == 0 {
        assert(v.subrange(0, 0) =~= Seq::<usize>::empty());
    } else {
        lemma_gain_bound(v, n - 1);
        let r = row_of(v, n - 1);
        assert(v.subrange(0, 4 * n) =~= v.subrange(0, 4 * (n - 1)) + r);
        lemma_total_add(v.subrange(0, 4 * (n - 1)), r);
        lemma_row_score_bound(r);
        lemma_row_score_bound(r.reverse());
        lemma_total_reverse(r);
    }
}

/// What a shift earns on the first `n` rows grows with `n`, and each row's
/// score is part of it.
proof fn lemma_gain_monotone(v: Seq<usize>, m: int, n: int)
    requires
        0 <= m <= n,
    ensures
        0 <= left_gain_upto(v, m) <= left_gain_upto(v, n),
        0 <= right_gain_upto(v, m) <= right_gain_upto(v, n),
        m < n ==> row_score(row_of(v, m)) <= left_gain_upto(v, n),
        m < n ==> row_score(row_of(v, m).reverse()) <= right_gain_upto(v, n),
    decreases n,
{
    if n > 0 {
        lemma_row_score_bound(row_of(v, n - 1));
        lemma_row_score_bound(row_of(v, n - 1).reverse());
        if m < n {
            lemma_gain_monotone(v, m, n - 1);
        } else {
            lemma_gain_monotone(v, 0, n - 1);
        }
    }
}

/// A board with headroom can take the score of any of the four shifts.
pub proof fn lemma_headroom_covers_shifts(b: Board)
    requires
        b.wf(),
        b.has_headroom(),
    ensures
        b.score + left_gain(b.values@) <= usize::MAX,
        b.score + right_gain(b.values@) <= usize::MAX,
        b.score + left_gain(transposed(b.values@)) <= usize::MAX,
        b.score + right_gain(transposed(b.values@)) <= usize::MAX,
{
    let v = b.values@;
    lemma_gain_bound(v, 4);
    lemma_gain_bound(transposed(v), 4);
    lemma_total_transposed(v);
    assert(v.subrange(0, 16) =~= v);
    assert(transposed(v).subrange(0, 16) =~= transposed(v));
}

/// Any part of the grid sums to no more than the whole.
proof fn lemma_part_total(v: Seq<usize>, lo: int, hi: int)
    requires
        0 <= lo <= hi <= v.len(),
    ensures
        total(v.subrange(lo, hi)) <= total(v),
{
    let a = v.subrange(0, lo);
    let b = v.subrange(lo, hi);
    let c = v.subrange(hi, v.len() as int);
    assert(v =~= a + b + c);
    lemma_total_add(a + b, c);
    lemma_total_add(a, b);
    lemma_total_nonneg(a);
    lemma_total_nonneg(c);
}

/// The grid `v` has an empty cell.
pub open spec fn has_empty(v: Seq<usize>) -> bool {
    exists|k: int| 0 <= k < 16 && v[k] == 0
}

/// The indices below `n` of the empty cells of `v`, in increasing order.
pub open spec fn empty_indices(v: Seq<usize>, n: int) -> Seq<usize>
    decreases n,
{
    if n <= 0 {
        Seq::empty()
    } else if v[n - 1] == 0 {
        empty_indices(v, n - 1).push((n - 1) as usize)
    } else {
        empty_indices(v, n - 1)
    }
}

/// The tile that a roll from 1 to 10 gives: 4 on a ten, else 2.
pub open spec fn tile_of_roll(roll: u32) -> usize {
    if roll == 10 {
        4
    } else {
        2
    }
}

/// A tile that a new board may start with.
pub open spec fn is_seed(v: usize) -> bool {
    v == 2 || v == 4
}

/// Returns the tile that a roll from 1 to 10 gives: a 4 one time in ten,
/// else a 2.
pub fn tile_for_roll(roll: u32) -> (r: usize)
    ensures
        r == tile_of_roll(roll),
{
    if roll == 10 {
        4
    } else {
        2
    }
}

/// Row `r` of the mirrored grid is row `r` reversed.
proof fn lemma_mirrored_row(v: Seq<usize>, r: int)
    requires
        v.len() == 16,
        0 <= r < 4,
    ensures
        row_of(mirrored(v), r) == row_of(v, r).reverse(),
{
    assert forall|c: int| 0 <= c < 4 implies #[trigger] row_of(mirrored(v), r)[c] == row_of(v, r).reverse()[c] by {
        let k = 4 * r + c;
        assert(k / 4 == r && k % 4 == c) by (nonlinear_arith)
            requires k == 4 * r + c, 0 <= c < 4;
    }
    assert(row_of(mirrored(v), r) =~= row_of(v, r).reverse());
}

proof fn lemma_mirrored_gain(v: Seq<usize>, n: int)
    requires
        v.len() == 16,
        0 <= n <= 4,
    ensures
        right_gain_upto(v, n) == left_gain_upto(mirrored(v), n),
    decreases n,
{
    if n > 0 {
        lemma_mirrored_gain(v, n - 1);
        lemma_mirrored_row(v, n - 1);
    }
}

/// A right shift is a left shift seen in a mirror: reversing every row,
/// shifting left and reversing every row back gives the same cells, and the
/// same score, as shifting right.
pub proof fn lemma_right_is_mirrored_left(v: Seq<usize>)
    requires
        v.len() == 16,
    ensures
        shifted_right(v) == mirrored(shifted_left(mirrored(v))),
        right_gain(v) == left_gain(mirrored(v)),
{
    assert forall|k: int| 0 <= k < 16 implies #[trigger] shifted_right(v)[k] == mirrored(
        shifted_left(mirrored(v)),
    )[k] by {
        let j = 4 * (k / 4) + 3 - k % 4;
        assert(0 <= j < 16 && j / 4 == k / 4 && j % 4 == 3 - k % 4) by (nonlinear_arith)
            requires j == 4 * (k / 4) + 3 - k % 4, 0 <= k < 16;
        lemma_mirrored_row(v, k / 4);
    }
    assert(shifted_right(v) =~= mirrored(shifted_left(mirrored(v))));
    lemma_mirrored_gain(v, 4);
}

/// Every cell of `v` holds a tile and no two neighbours in a row are equal.
pub open spec fn rows_stuck(v: Seq<usize>) -> bool {
    &&& v.len() == 16
    &&& forall|k: int| 0 <= k < 16 ==> #[trigger] v[k] != 0
    &&& forall|r: int, c: int| 0 <= r < 4 && 0 <= c < 3 ==> #[trigger] v[4 * r + c] != v[4 * r + c + 1]
}

proof fn lemma_stuck_row(v: Seq<usize>, r: int)
    requires
        rows_stuck(v),
        0 <= r < 4,
    ensures
        reduced(row_of(v, r)) == row_of(v, r),
        row_score(row_of(v, r)) == 0,
        reduced(row_of(v, r).reverse()) == row_of(v, r).reverse(),
        row_score(row_of(v, r).reverse()) == 0,
{
    let w = row_of(v, r);
    assert forall|j: int| 0 <= j < 4 implies #[trigger] w[j] == v[4 * r + j] && w[j] != 0 by {
        assert(w[j] == v[4 * r + j]);
    }
    assert forall|j: int| 0 <= j < 3 implies #[trigger] w[j] != w[j + 1] by {
        assert(w[j] == v[4 * r + j]);
        assert(w[j + 1] == v[4 * r + j + 1]);
    }
    assert forall|j: int| 0 <= j < 3 implies #[trigger] w.reverse()[j] != w.reverse()[j + 1] by {
        assert(w.reverse()[j] == w[3 - j]);
        assert(w.reverse()[j + 1] == w[2 - j]);
        assert(w[2 - j] != w[2 - j + 1]);
    }
    lemma_reduce_settled(w);
    lemma_reduce_settled(w.reverse());
}

proof fn lemma_stuck_rows(v: Seq<usize>)
    requires
        rows_stuck(v),
    ensures
        shifted_left(v) == v,
        left_gain(v) == 0,
        shifted_right(v) == v,
        right_gain(v) == 0,
{
    lemma_stuck_row(v, 0);
    lemma_stuck_row(v, 1);
    lemma_stuck_row(v, 2);
    lemma_stuck_row(v, 3);
    assert forall|k: int| 0 <= k < 16 implies #[trigger] shifted_left(v)[k] == v[k]
        && shifted_right(v)[k] == v[k] by {
        let r = k / 4;
        let c = k % 4;
        assert(4 * r + c == k && 0 <= r < 4 && 0 <= c < 4);
        assert(row_of(v, r)[c] == v[k]);
        assert(row_of(v, r).reverse()[3 - c] == row_of(v, r)[c]);
    }
    assert(shifted_left(v) =~= v);
    assert(shifted_right(v) =~= v);
    reveal_with_fuel(left_gain_upto, 5);
    reveal_with_fuel(right_gain_upto, 5);
}

/// The columns of a board with no two equal neighbours in a column are the
/// rows of its transpose.
proof fn lemma_stuck_columns(v: Seq<usize>)
    requires
        rows_stuck(v),
        forall|r: int, c: int| 0 <= r < 3 && 0 <= c < 4 ==> #[trigger] v[4 * r + c] != v[4 * r + c + 4],
    ensures
        rows_stuck(transposed(v)),
{
    let t = transposed(v);
    assert forall|r: int, c: int| 0 <= r < 4 && 0 <= c < 3 implies #[trigger] t[4 * r + c] != t[4 * r + c + 1] by {
        let k = 4 * r + c;
        assert(k % 4 == c && k / 4 == r && (k + 1) % 4 == c + 1 && (k + 1) / 4 == r) by (nonlinear_arith)
            requires k == 4 * r + c, 0 <= c < 3;
        assert(t[k] == v[4 * c + r]);
        assert(t[k + 1] == v[4 * c + r + 4]);
    }
    assert forall|k: int| 0 <= k < 16 implies #[trigger] t[k] != 0 by {
        assert(0 <= 4 * (k % 4) + k / 4 < 16);
    }
}

/// A full board with no two equal neighbours in any row or column is stuck:
/// each of the four shifts leaves the cells and the score as they are, and
/// no cell is empty for a new tile.
pub proof fn lemma_stuck_board(v: Seq<usize>)
    requires
        rows_stuck(v),
        forall|r: int, c: int| 0 <= r < 3 && 0 <= c < 4 ==> #[trigger] v[4 * r + c] != v[4 * r + c + 4],
    ensures
        shifted_left(v) == v,
        left_gain(v) == 0,
        shifted_right(v) == v,
        right_gain(v) == 0,
        transposed(shifted_left(transposed(v))) == v,
        left_gain(transposed(v)) == 0,
        transposed(shifted_right(transposed(v))) == v,
        right_gain(transposed(v)) == 0,
        !has_empty(v),
{
    lemma_stuck_rows(v);
    lemma_stuck_columns(v);
    lemma_stuck_rows(transposed(v));
    lemma_transpose_twice(v);
}

impl Board {
    /// An empty board with two seed tiles, each a 2 or a 4, in two random
    /// cells, and a score of 0.
    pub fn new() -> (b: Board)
        ensures
            b.wf(),
            b.score == 0,
            exists|i: int, j: int|
                0 <= i < 16 && 0 <= j < 16 && i != j && is_seed(#[trigger] b.values@[i])
                    && is_seed(#[trigger] b.values@[j]) && forall|k: int|
                    0 <= k < 16 && k != i && k != j ==> b.values@[k] == 0,
    {
        let mut board = Board { values: vec![0; CELLS], score: 0 };
        let ghost z = board.values@;
        proof {
            assert(board.values@[0] == 0);
            assert(all_tiles(z));
        }
        let first = board.add_random_tile();
        let ghost v1 = board.values@;
        assert(first is Ok);
        let ghost k1 = choose|k: int|
            0 <= k < 16 && z[k] == 0 && (v1 == z.update(k, 2) || v1 == z.update(k, 4));
        proof {
            let other: int = if k1 == 0 { 1 } else { 0 };
            assert(v1[other] == 0);
        }
        let second = board.add_random_tile();
        let ghost v2 = board.values@;
        assert(second is Ok);
        let ghost k2 = choose|k: int|
            0 <= k < 16 && v1[k] == 0 && (v2 == v1.update(k, 2) || v2 == v1.update(k, 4));
        proof {
            assert(k1 != k2);
            assert(is_seed(v2[k1]) && is_seed(v2[k2]));
            assert(forall|k: int| 0 <= k < 16 && k != k1 && k != k2 ==> v2[k] == 0);
        }
        board
    }

    /// Tells whether the score can take every point that the next shift
    /// could earn: the score plus the sum of the cells fits in `usize`.
    pub fn check_headroom(&self) -> (r: bool)
        requires
            self.wf(),
        ensures
            r == self.has_headroom(),
    {
        let ghost v = self.values@;
        let mut acc: usize = self.score;
        let mut k: usize = 0;
        assert(v.subrange(0, 0) =~= Seq::<usize>::empty());
        while k < CELLS
            invariant
                v == self.values@,
                v.len() == 16,
                k <= 16,
                acc == self.score + total(v.subrange(0, k as int)),
            decreases 16 - k,
        {
            let cell = self.values[k];
            assert(v.subrange(0, k + 1).drop_last() =~= v.subrange(0, k as int));
            if acc > usize::MAX - cell {
                proof {
                    lemma_part_total(v, 0, k + 1);
                }
                return false;
            }
            acc = acc + cell;
            k = k + 1;
        }
        assert(v.subrange(0, 16) =~= v);
        true
    }

    /// The indices of the empty cells, in increasing order.
    pub fn empty_cells(&self) -> (r: Vec<usize>)
        requires
            self.wf(),
        ensures
            r@ == empty_indices(self.values@, 16),
            forall|j: int, l: int| 0 <= j < l < r@.len() ==> r@[j] < r@[l],
            forall|j: int| 0 <= j < r@.len() ==> r@[j] < 16 && self.values@[r@[j] as int] == 0,
            forall|k: int| 0 <= k < 16 && self.values@[k] == 0 ==> r@.contains(k as usize),
    {
        let mut cells: Vec<usize> = Vec::new();
        let mut k: usize = 0;
        while k < CELLS
            invariant
                self.values@.len() == 16,
                k <= 16,
                cells@ == empty_indices(self.values@, k as int),
                forall|j: int, l: int| 0 <= j < l < cells@.len() ==> cells@[j] < cells@[l],
                forall|j: int| 0 <= j < cells@.len() ==> cells@[j] < k && self.values@[cells@[j] as int] == 0,
                forall|i: int| 0 <= i < k && self.values@[i] == 0 ==> cells@.contains(i as usize),
            decreases 16 - k,
        {
            if self.values[k] == 0 {
                let ghost before = cells@;
                cells.push(k);
                assert forall|x: usize| before.contains(x) implies cells@.contains(x) by {
                    let j = choose|j: int| 0 <= j < before.len() && before[j] == x;
                    assert(cells@[j] == x);
                }
                assert(cells@[cells@.len() - 1] == k);
            }
            k = k + 1;
        }
        cells
    }

    /// Puts the tile for `roll` into the empty cell `cell`.
    pub fn place_tile(&mut self, cell: usize, roll: u32)
        requires
            old(self).wf(),
            cell < 16,
            old(self).values@[cell as int] == 0,
        ensures
            final(self).wf(),
            final(self).values@ == old(self).values@.update(cell as int, tile_of_roll(roll)),
            final(self).score == old(self).score,
    {
        let tile = tile_for_roll(roll);
        self.values.set(cell, tile);
        proof {
            reveal_with_fuel(is_power_of_two, 3);
            assert(is_tile(tile));
            assert forall|k: int| 0 <= k < 16 implies is_tile(#[trigger] self.values@[k]) by {
                if k != cell {
                    assert(self.values@[k] == old(self).values@[k]);
                }
            }
        }
    }

    /// Puts the tile for `roll` (see [`tile_for_roll`]) into the empty cell
    /// at position `pick` of [`Board::empty_cells`]: the same path as
    /// [`Board::add_random_tile`] with the draws given. Fails, changing
    /// nothing, when no cell is empty.
    pub fn add_tile_at(&mut self, pick: usize, roll: u32) -> (r: Result<(), BoardError>)
        requires
            old(self).wf(),
            has_empty(old(self).values@) ==> pick < empty_indices(old(self).values@, 16).len(),
        ensures
            final(self).wf(),
            final(self).score == old(self).score,
            r is Err <==> !has_empty(old(self).values@),
            r is Err ==> r == Err::<(), BoardError>(BoardError::NoSpaceForTile)
                && final(self).values@ == old(self).values@,
            r is Ok ==> final(self).values@ == old(self).values@.update(
                empty_indices(old(self).values@, 16)[pick as int] as int,
                tile_of_roll(roll),
            ),
    {
        let cells = self.empty_cells();
        if cells.len() == 0 {
            assert forall|k: int| 0 <= k < 16 implies old(self).values@[k] != 0 by {
                if old(self).values@[k] == 0 {
                    assert(cells@.contains(k as usize));
                }
            }
            return Err(BoardError::NoSpaceForTile);
        }
        assert(cells@[0] < 16 && old(self).values@[cells@[0] as int] == 0);
        let cell = cells[pick];
        self.place_tile(cell, roll);
        assert(old(self).values@[cell as int] == 0);
        Ok(())
    }

    /// Puts a 2 (nine times in ten) or a 4 (one time in ten) into an empty
    /// cell picked at random. Fails, changing nothing, when no cell is empty.
    pub fn add_random_tile(&mut self) -> (r: Result<(), BoardError>)
        requires
            old(self).wf(),
        ensures
            final(self).wf(),
            final(self).score == old(self).score,
            r is Err <==> !has_empty(old(self).values@),
            r is Err ==> r == Err::<(), BoardError>(BoardError::NoSpaceForTile)
                && final(self).values@ == old(self).values@,
            r is Ok ==> exists|k: int|
                0 <= k < 16 && old(self).values@[k] == 0 && (final(self).values@
                    == old(self).values@.update(k, 2) || final(self).values@
                    == old(self).values@.update(k, 4)),
    {
        let cells = self.empty_cells();
        let mut rng = rand::thread_rng();
        match choose_cell(&cells, &mut rng) {
            Some(cell) => {
                let roll = roll_one_to_ten(&mut rng);
                self.place_tile(cell, roll);
                assert(old(self).values@[cell as int] == 0);
                Ok(())
            },
            None => {
                assert forall|k: int| 0 <= k < 16 implies old(self).values@[k] != 0 by {
                    if old(self).values@[k] == 0 {
                        assert(cells@.contains(k as usize));
                    }
                }
                Err(BoardError::NoSpaceForTile)
            },
        }
    }

    /// The board has sixteen cells, each empty or a power of two.
    pub open spec fn wf(&self) -> bool {
        &&& self.values@.len() == 16
        &&& all_tiles(self.values@)
    }

    /// The score can take every point that a shift could earn without
    /// leaving `usize`.
    pub open spec fn has_headroom(&self) -> bool {
        self.score + total(self.values@) <= usize::MAX
    }

    /// Reduces each row toward its left end and adds the row scores to the
    /// score. Never fails.
    pub fn shift_left(&mut self) -> (r: Result<(), BoardError>)
        requires
            old(self).wf(),
            old(self).score + left_gain(old(self).values@) <= usize::MAX,
        ensures
            r is Ok,
            final(self).wf(),
            final(self).values@ == shifted_left(old(self).values@),
            final(self).score == old(self).score + left_gain(old(self).values@),
            final(self).score >= old(self).score,
    {
        let ghost v = self.values@;
        let ghost score0 = self.score;
        let mut out: Vec<usize> = Vec::new();
        let mut r: usize = 0;
        while r < SIZE
            invariant
                self.values@ == v,
                v.len() == 16,
                all_tiles(v),
                score0 + left_gain(v) <= usize::MAX,
                r <= 4,
                out@.len() == 4 * r,
                forall|k: int| 0 <= k < 4 * r ==> out@[k] == reduced(row_of(v, k / 4))[k % 4],
                all_tiles(out@),
                self.score == score0 + left_gain_upto(v, r as int),
            decreases 4 - r,
        {
            let base = r * SIZE;
            let row = vec![self.values[base], self.values[base + 1], self.values[base + 2], self.values[base + 3]];
            proof {
                assert(row@ =~= row_of(v, r as int));
                lemma_gain_monotone(v, r as int, 4);
                lemma_gain_monotone(v, r + 1, 4);
                lemma_reduced_len(row@);
                assert forall|k: int| 0 <= k < 4 implies is_tile(#[trigger] row@[k]) by {
                    assert(row@[k] == v[4 * r + k]);
                }
                lemma_reduced_tiles(row@);
            }
            let (reduced_row, gain) = score_row(row.as_slice());
            self.score = self.score + gain;
            let ghost before = out@;
            out.push(reduced_row[0]);
            out.push(reduced_row[1]);
            out.push(reduced_row[2]);
            out.push(reduced_row[3]);
            proof {
                assert forall|k: int| 0 <= k < 4 * r + 4 implies out@[k] == reduced(row_of(v, k / 4))[k % 4] by {
                    if k >= 4 * r {
                        assert(k / 4 == r && k % 4 == k - 4 * r);
                    } else {
                        assert(out@[k] == before[k]);
                    }
                }
                assert forall|k: int| 0 <= k < out@.len() implies is_tile(#[trigger] out@[k]) by {
                    if k >= 4 * r {
                        assert(out@[k] == reduced_row@[k - 4 * r]);
                    } else {
                        assert(out@[k] == before[k]);
                    }
                }
            }
            r = r + 1;
        }
        proof {
            lemma_gain_monotone(v, 0, 4);
        }
        assert(out@ =~= shifted_left(v));
        self.values = out;
        Ok(())
    }

    /// Reverses each row, reduces it toward its left end, reverses it back,
    /// and adds the row scores to the score. Never fails.
    pub fn shift_right(&mut self) -> (r: Result<(), BoardError>)
        requires
            old(self).wf(),
            old(self).score + right_gain(old(self).values@) <= usize::MAX,
        ensures
            r is Ok,
            final(self).wf(),
            final(self).values@ == shifted_right(old(self).values@),
            final(self).score == old(self).score + right_gain(old(self).values@),
            final(self).score >= old(self).score,
    {
        let ghost v = self.values@;
        let ghost score0 = self.score;
        let mut out: Vec<usize> = Vec::new();
        let mut r: usize = 0;
        while r < SIZE
            invariant
                self.values@ == v,
                v.len() == 16,
                all_tiles(v),
                score0 + right_gain(v) <= usize::MAX,
                r <= 4,
                out@.len() == 4 * r,
                forall|k: int|
                    0 <= k < 4 * r ==> out@[k] == reduced(row_of(v, k / 4).reverse())[3 - k % 4],
                all_tiles(out@),
                self.score == score0 + right_gain_upto(v, r as int),
            decreases 4 - r,
        {
            let base = r * SIZE;
            let reversed = vec![self.values[base + 3], self.values[base + 2], self.values[base + 1], self.values[base]];
            proof {
                assert(reversed@ =~= row_of(v, r as int).reverse());
                lemma_gain_monotone(v, r as int, 4);
                lemma_gain_monotone(v, r + 1, 4);
                lemma_reduced_len(reversed@);
                assert forall|k: int| 0 <= k < 4 implies is_tile(#[trigger] reversed@[k]) by {
                    assert(reversed@[k] == v[4 * r + 3 - k]);
                }
                lemma_reduced_tiles(reversed@);
            }
            let (scored, gain) = score_row(reversed.as_slice());
            self.score = self.score + gain;
            let ghost before = out@;
            out.push(scored[3]);
            out.push(scored[2]);
            out.push(scored[1]);
            out.push(scored[0]);
            proof {
                assert forall|k: int| 0 <= k < 4 * r + 4 implies out@[k] == reduced(
                    row_of(v, k / 4).reverse(),
                )[3 - k % 4] by {
                    if k >= 4 * r {
                        assert(k / 4 == r && k % 4 == k - 4 * r);
                    } else {
                        assert(out@[k] == before[k]);
                    }
                }
                assert forall|k: int| 0 <= k < out@.len() implies is_tile(#[trigger] out@[k]) by {
                    if k >= 4 * r {
                        assert(out@[k] == scored@[3 - (k - 4 * r)]);
                    } else {
                        assert(out@[k] == before[k]);
                    }
                }
            }
            r = r + 1;
        }
        proof {
            lemma_gain_monotone(v, 0, 4);
        }
        assert(out@ =~= shifted_right(v));
        self.values = out;
        Ok(())
    }

    /// Replaces the cells by their transpose, keeping the score.
    fn flip(&mut self)
        requires
            old(self).wf(),
        ensures
            final(self).wf(),
            final(self).values@ == transposed(old(self).values@),
            final(self).score == old(self).score,
    {
        let ghost v = self.values@;
        self.values = transpose(self.values.as_slice());
        proof {
            assert forall|k: int| 0 <= k < 16 implies is_tile(#[trigger] self.values@[k]) by {
                assert(0 <= 4 * (k % 4) + k / 4 < 16);
            }
        }
    }

    /// Shifts the columns toward the top: transposes, shifts left, and
    /// transposes back. Never fails.
    pub fn shift_up(&mut self) -> (r: Result<(), BoardError>)
        requires
            old(self).wf(),
            old(self).score + left_gain(transposed(old(self).values@)) <= usize::MAX,
        ensures
            r is Ok,
            final(self).wf(),
            final(self).values@ == transposed(shifted_left(transposed(old(self).values@))),
            final(self).score == old(self).score + left_gain(transposed(old(self).values@)),
            final(self).score >= old(self).score,
    {
        self.flip();
        let _ = self.shift_left();
        self.flip();
        Ok(())
    }

    /// Shifts the columns toward the bottom: transposes, shifts right, and
    /// transposes back. Never fails.
    pub fn shift_down(&mut self) -> (r: Result<(), BoardError>)
        requires
            old(self).wf(),
            old(self).score + right_gain(transposed(old(self).values@)) <= usize::MAX,
        ensures
            r is Ok,
            final(self).wf(),
            final(self).values@ == transposed(shifted_right(transposed(old(self).values@))),
            final(self).score == old(self).score + right_gain(transposed(old(self).values@)),
            final(self).score >= old(self).score,
    {
        self.flip();
        let _ = self.shift_right();
        self.flip();
        Ok(())
    }
}

} // verus!
