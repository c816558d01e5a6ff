//! The row reducer: compact a row toward its head, merge equal neighbours in
//! one left-to-right pass, and compact again.

use vstd::prelude::*;

verus! {

/// The non-zero values of `s`, in their original order.
pub open spec fn tiles_of(s: Seq<usize>) -> Seq<usize>
    decreases s.len(),
{
    if s.len() == 0 {
        Seq::empty()
    } else if s.last() == 0 {
        tiles_of(s.drop_last())
    } else {
        tiles_of(s.drop_last()).push(s.last())
    }
}

/// `n` empty cells.
pub open spec fn zeros(n: int) -> Seq<usize> {
    Seq::new(n as nat, |i: int| 0usize)
}

/// `s` with its non-zero values moved to the front, in order, and the
/// removed zeros put back at the tail.
pub open spec fn compact(s: Seq<usize>) -> Seq<usize> {
    tiles_of(s) + zeros(s.len() - tiles_of(s).len())
}

/// A row has no more tiles than cells.
pub proof fn lemma_tiles_len(s: Seq<usize>)
    ensures
        tiles_of(s).len() <= s.len(),
    decreases s.len(),
{
    if s.len() > 0 {
        lemma_tiles_len(s.drop_last());
    }
}

/// Returns a new row with all non-zero values of `row` at the front, in
/// order, followed by as many zeros as were removed.
pub fn push_zeros(row: &[usize]) -> (r: Vec<usize>)
    ensures
        r@ == compact(row@),
{
    let mut out: Vec<usize> = Vec::new();
    let mut j: usize = 0;
    while j < row.len()
        invariant
            j <= row@.len(),
            out@ == tiles_of(row@.subrange(0, j as int)),
        decreases row.len() - j,
    {
        assert(row@.subrange(0, j + 1).drop_last() == row@.subrange(0, j as int));
        if row[j] != 0 {
            out.push(row[j]);
        }
        j += 1;
    }
    assert(row@.subrange(0, row@.len() as int) == row@);
    proof {
        lemma_tiles_len(row@);
    }
    let ghost n_tiles = out@.len();
    while out.len() < row.len()
        invariant
            n_tiles == tiles_of(row@).len(),
            n_tiles <= out@.len() <= row@.len(),
            out@ == tiles_of(row@) + zeros(out@.len() - n_tiles),
        decreases row.len() - out.len(),
    {
        out.push(0);
        assert(out@ =~= tiles_of(row@) + zeros(out@.len() - n_tiles));
    }
    out
}

/// The sum of the values of `s`.
pub open spec fn total(s: Seq<usize>) -> int
    decreases s.len(),
{
    if s.len() == 0 {
        0
    } else {
        total(s.drop_last()) + s.last()
    }
}

/// Twice `v`, as a cell value.
pub open spec fn double(v: usize) -> usize {
    (2 * v) as usize
}

/// The single left-to-right merge pass over `s`, starting at index `i`: an
/// equal pair at `i` and `i + 1` becomes twice the value followed by an empty
/// cell, and the pass goes on after the pair, so no merged value merges again.
pub open spec fn merged_from(s: Seq<usize>, i: int) -> Seq<usize>
    decreases s.len() - i,
{
    if i < 0 || i >= s.len() {
        Seq::empty()
    } else if i + 1 < s.len() && s[i] == s[i + 1] {
        seq![double(s[i]), 0usize] + merged_from(s, i + 2)
    } else {
        seq![s[i]] + merged_from(s, i + 1)
    }
}

/// The score of the merge pass over `s` from index `i`: twice the value of
/// each merged pair.
pub open spec fn merge_score_from(s: Seq<usize>, i: int) -> int
    decreases s.len() - i,
{
    if i < 0 || i >= s.len() {
        0
    } else if i + 1 < s.len() && s[i] == s[i + 1] {
        2 * s[i] + merge_score_from(s, i + 2)
    } else {
        merge_score_from(s, i + 1)
    }
}

/// The row that the reducer makes of `s`.
pub open spec fn reduced(s: Seq<usize>) -> Seq<usize> {
    compact(merged_from(compact(s), 0))
}

/// The score that the reducer earns on `s`.
pub open spec fn row_score(s: Seq<usize>) -> int {
    merge_score_from(compact(s), 0)
}

/// The sum of a concatenation is the sum of its parts.
pub proof fn lemma_total_add(a: Seq<usize>, b: Seq<usize>)
    ensures
        total(a + b) == total(a) + total(b),
    decreases b.len(),
{
    if b.len() == 0 {
        assert(a + b =~= a);
    } else {
        assert((a + b).drop_last() =~= a + b.drop_last());
        lemma_total_add(a, b.drop_last());
    }
}

/// A sum of cells is never negative.
pub proof fn lemma_total_nonneg(s: Seq<usize>)
    ensures
        total(s) >= 0,
    decreases s.len(),
{
    if s.len() > 0 {
        lemma_total_nonneg(s.drop_last());
    }
}

/// Empty cells sum to 0.
pub proof fn lemma_total_zeros(n: int)
    requires
        n >= 0,
    ensures
        total(zeros(n)) == 0,
    decreases n,
{
    if n > 0 {
        assert(zeros(n).drop_last() =~= zeros(n - 1));
        lemma_total_zeros(n - 1);
    }
}

/// Dropping the empty cells keeps the sum.
pub proof fn lemma_total_tiles(s: Seq<usize>)
    ensures
        total(tiles_of(s)) == total(s),
    decreases s.len(),
{
    if s.len() > 0 {
        lemma_total_tiles(s.drop_last());
        if s.last() != 0 {
            assert(tiles_of(s).drop_last() =~= tiles_of(s.drop_last()));
        }
    }
}

/// Compacting keeps the sum.
pub proof fn lemma_total_compact(s: Seq<usize>)
    ensures
        total(compact(s)) == total(s),
{
    lemma_tiles_len(s);
    lemma_total_add(tiles_of(s), zeros(s.len() - tiles_of(s).len()));
    lemma_total_zeros(s.len() - tiles_of(s).len());
    lemma_total_tiles(s);
}

/// The sum of `s` from index `i` on, split off its first value.
proof fn lemma_total_front(s: Seq<usize>, i: int)
    requires
        0 <= i < s.len(),
    ensures
        total(s.subrange(i, s.len() as int)) == s[i] + total(s.subrange(i + 1, s.len() as int)),
{
    assert(s.subrange(i, s.len() as int) =~= seq![s[i]] + s.subrange(i + 1, s.len() as int));
    lemma_total_add(seq![s[i]], s.subrange(i + 1, s.len() as int));
    let one = seq![s[i]];
    assert(one.drop_last() =~= Seq::<usize>::empty());
    assert(total(one.drop_last()) == 0);
    assert(one.last() == s[i]);
}

/// The merge pass scores no more than the values it passes over.
pub proof fn lemma_merge_score_bound(s: Seq<usize>, i: int)
    requires
        0 <= i <= s.len(),
    ensures
        0 <= merge_score_from(s, i) <= total(s.subrange(i, s.len() as int)),
    decreases s.len() - i,
{
    if i == s.len() {
        assert(s.subrange(i, s.len() as int) =~= Seq::<usize>::empty());
    } else {
        lemma_total_front(s, i);
        if i + 1 < s.len() && s[i] == s[i + 1] {
            lemma_total_front(s, i + 1);
            lemma_merge_score_bound(s, i + 2);
        } else {
            lemma_merge_score_bound(s, i + 1);
            lemma_total_nonneg(s.subrange(i + 1, s.len() as int));
        }
    }
}

/// The reducer scores no more than the sum of the row.
pub proof fn lemma_row_score_bound(s: Seq<usize>)
    ensures
        0 <= row_score(s) <= total(s),
{
    lemma_merge_score_bound(compact(s), 0);
    assert(compact(s).subrange(0, compact(s).len() as int) =~= compact(s));
    lemma_total_compact(s);
}

/// `v` is 1, 2, 4, 8, ...
pub open spec fn is_power_of_two(v: nat) -> bool
    decreases v,
{
    if v <= 1 {
        v == 1
    } else {
        v % 2 == 0 && is_power_of_two(v / 2)
    }
}

/// A cell value: empty (0) or a power of two.
pub open spec fn is_tile(v: usize) -> bool {
    v == 0 || is_power_of_two(v as nat)
}

/// Every value of `s` is a cell value.
pub open spec fn all_tiles(s: Seq<usize>) -> bool {
    forall|k: int| 0 <= k < s.len() ==> is_tile(#[trigger] s[k])
}

/// Reversing a row keeps its sum.
pub proof fn lemma_total_reverse(s: Seq<usize>)
    ensures
        total(s.reverse()) == total(s),
    decreases s.len(),
{
    if s.len() > 0 {
        let rest = s.subrange(1, s.len() as int);
        assert(s.reverse().drop_last() =~= rest.reverse());
        lemma_total_reverse(rest);
        lemma_total_front(s, 0);
        assert(s.subrange(0, s.len() as int) =~= s);
    }
}

/// The merge pass from `i` yields one value for each cell from `i` on.
pub proof fn lemma_merged_len(s: Seq<usize>, i: int)
    requires
        0 <= i <= s.len(),
    ensures
        merged_from(s, i).len() == s.len() - i,
    decreases s.len() - i,
{
    if i < s.len() {
        if i + 1 < s.len() && s[i] == s[i + 1] {
            lemma_merged_len(s, i + 2);
        } else {
            lemma_merged_len(s, i + 1);
        }
    }
}

/// The reducer keeps the length of the row.
pub proof fn lemma_reduced_len(s: Seq<usize>)
    ensures
        reduced(s).len() == s.len(),
{
    lemma_tiles_len(s);
    lemma_merged_len(compact(s), 0);
    lemma_tiles_len(merged_from(compact(s), 0));
}

proof fn lemma_double_tile(v: usize)
    requires
        is_tile(v),
        2 * v <= usize::MAX,
    ensures
        is_tile(double(v)),
{
    if v != 0 {
        assert((2 * v) / 2 == v && (2 * v) % 2 == 0);
    }
}

proof fn lemma_tiles_of_tiles(s: Seq<usize>)
    requires
        all_tiles(s),
    ensures
        all_tiles(tiles_of(s)),
    decreases s.len(),
{
    if s.len() > 0 {
        lemma_tiles_of_tiles(s.drop_last());
        assert(all_tiles(s.drop_last()) ==> all_tiles(tiles_of(s.drop_last())));
    }
}

proof fn lemma_compact_tiles(s: Seq<usize>)
    requires
        all_tiles(s),
    ensures
        all_tiles(compact(s)),
{
    lemma_tiles_of_tiles(s);
    let t = tiles_of(s);
    let z = zeros(s.len() - t.len());
    assert forall|k: int| 0 <= k < (t + z).len() implies is_tile(#[trigger] (t + z)[k]) by {
        if k >= t.len() {
            assert((t + z)[k] == z[k - t.len()]);
        }
    }
}

proof fn lemma_merged_tiles(s: Seq<usize>, i: int)
    requires
        0 <= i <= s.len(),
        all_tiles(s),
        merge_score_from(s, i) <= usize::MAX,
    ensures
        all_tiles(merged_from(s, i)),
    decreases s.len() - i,
{
    if i < s.len() {
        if i + 1 < s.len() && s[i] == s[i + 1] {
            assert(0 <= i + 2 <= s.len());
            lemma_merge_score_bound(s, i + 2);
            lemma_merged_tiles(s, i + 2);
            lemma_double_tile(s[i]);
            let m = seq![double(s[i]), 0usize] + merged_from(s, i + 2);
            assert forall|k: int| 0 <= k < m.len() implies is_tile(#[trigger] m[k]) by {
                if k >= 2 {
                    assert(m[k] == merged_from(s, i + 2)[k - 2]);
                }
            }
        } else {
            lemma_merged_tiles(s, i + 1);
            let m = seq![s[i]] + merged_from(s, i + 1);
            assert forall|k: int| 0 <= k < m.len() implies is_tile(#[trigger] m[k]) by {
                if k >= 1 {
                    assert(m[k] == merged_from(s, i + 1)[k - 1]);
                }
            }
        }
    }
}

/// The reducer makes cell values of cell values.
pub proof fn lemma_reduced_tiles(s: Seq<usize>)
    requires
        all_tiles(s),
        row_score(s) <= usize::MAX,
    ensures
        all_tiles(reduced(s)),
{
    lemma_compact_tiles(s);
    lemma_tiles_len(s);
    lemma_merged_tiles(compact(s), 0);
    lemma_compact_tiles(merged_from(compact(s), 0));
}

/// The number of empty cells of `s`.
pub open spec fn zero_count(s: Seq<usize>) -> int
    decreases s.len(),
{
    if s.len() == 0 {
        0
    } else if s.last() == 0 {
        zero_count(s.drop_last()) + 1
    } else {
        zero_count(s.drop_last())
    }
}

proof fn lemma_tiles_add(a: Seq<usize>, b: Seq<usize>)
    ensures
        tiles_of(a + b) == tiles_of(a) + tiles_of(b),
    decreases b.len(),
{
    if b.len() == 0 {
        assert(a + b =~= a);
        assert(tiles_of(a) + tiles_of(b) =~= tiles_of(a));
    } else {
        assert((a + b).drop_last() =~= a + b.drop_last());
        lemma_tiles_add(a, b.drop_last());
        if b.last() != 0 {
            assert(tiles_of(a) + tiles_of(b.drop_last()).push(b.last()) =~= (tiles_of(a)
                + tiles_of(b.drop_last())).push(b.last()));
        }
    }
}

proof fn lemma_tiles_zeros(n: int)
    requires
        n >= 0,
    ensures
        tiles_of(zeros(n)) =~= Seq::<usize>::empty(),
    decreases n,
{
    if n > 0 {
        assert(zeros(n).drop_last() =~= zeros(n - 1));
        lemma_tiles_zeros(n - 1);
    }
}

proof fn lemma_tiles_nonzero(s: Seq<usize>)
    ensures
        forall|j: int| 0 <= j < tiles_of(s).len() ==> tiles_of(s)[j] != 0,
    decreases s.len(),
{
    if s.len() > 0 {
        lemma_tiles_nonzero(s.drop_last());
        let t = tiles_of(s.drop_last());
        if s.last() != 0 {
            assert forall|j: int| 0 <= j < tiles_of(s).len() implies tiles_of(s)[j] != 0 by {
                if j < t.len() {
                    assert(tiles_of(s)[j] == t[j]);
                }
            }
        }
    }
}

/// A row without empty cells is its own list of tiles.
proof fn lemma_tiles_of_full(s: Seq<usize>)
    requires
        forall|j: int| 0 <= j < s.len() ==> s[j] != 0,
    ensures
        tiles_of(s) == s,
    decreases s.len(),
{
    if s.len() > 0 {
        lemma_tiles_of_full(s.drop_last());
        assert(s.drop_last().push(s.last()) =~= s);
    }
}

proof fn lemma_zero_count(s: Seq<usize>)
    ensures
        zero_count(s) == s.len() - tiles_of(s).len(),
    decreases s.len(),
{
    if s.len() > 0 {
        lemma_zero_count(s.drop_last());
    }
}

/// Compacting a row keeps its length, keeps its non-zero values in their
/// order (so also as a multiset), keeps its number of zeros, and puts all
/// of those zeros at the tail.
pub proof fn lemma_compact_keeps_tiles(s: Seq<usize>)
    ensures
        compact(s).len() == s.len(),
        tiles_of(compact(s)) == tiles_of(s),
        tiles_of(compact(s)).to_multiset() == tiles_of(s).to_multiset(),
        zero_count(compact(s)) == zero_count(s),
        forall|j: int| 0 <= j < tiles_of(s).len() ==> compact(s)[j] != 0,
        forall|j: int| tiles_of(s).len() <= j < s.len() ==> compact(s)[j] == 0,
{
    let t = tiles_of(s);
    lemma_tiles_len(s);
    lemma_tiles_add(t, zeros(s.len() - t.len()));
    lemma_tiles_zeros(s.len() - t.len());
    lemma_tiles_nonzero(s);
    lemma_tiles_of_full(t);
    assert(t + Seq::<usize>::empty() =~= t);
    lemma_zero_count(s);
    lemma_zero_count(compact(s));
}

/// A row whose empty cells all sit at its tail is its own compaction.
proof fn lemma_compact_settled(s: Seq<usize>)
    requires
        forall|i: int, j: int| 0 <= i < j < s.len() && s[i] == 0 ==> s[j] == 0,
    ensures
        compact(s) == s,
    decreases s.len(),
{
    if s.len() > 0 {
        let d = s.drop_last();
        lemma_compact_settled(d);
        lemma_tiles_len(d);
        if s.last() == 0 {
            assert(zeros(s.len() - tiles_of(d).len()) =~= zeros(d.len() - tiles_of(d).len()).push(0));
            assert(compact(s) =~= compact(d).push(0));
            assert(d.push(0) =~= s);
        } else {
            lemma_tiles_of_full(s);
            assert(compact(s) =~= s);
        }
    } else {
        assert(compact(s) =~= s);
    }
}

/// With no two equal neighbouring tiles, the merge pass changes nothing and
/// scores nothing.
proof fn lemma_merge_settled(s: Seq<usize>, i: int)
    requires
        0 <= i <= s.len(),
        forall|j: int| 0 <= j < s.len() - 1 && #[trigger] s[j] != 0 ==> s[j] != s[j + 1],
    ensures
        merged_from(s, i) == s.subrange(i, s.len() as int),
        merge_score_from(s, i) == 0,
    decreases s.len() - i,
{
    if i == s.len() {
        assert(s.subrange(i, s.len() as int) =~= Seq::<usize>::empty());
    } else if i + 1 < s.len() && s[i] == s[i + 1] {
        lemma_merge_settled(s, i + 2);
        assert(s.subrange(i, s.len() as int) =~= seq![double(s[i]), 0usize] + s.subrange(i + 2, s.len() as int));
    } else {
        lemma_merge_settled(s, i + 1);
        assert(s.subrange(i, s.len() as int) =~= seq![s[i]] + s.subrange(i + 1, s.len() as int));
    }
}

/// A row that is already reduced, with no empty cell before a tile and no
/// two equal neighbouring tiles, comes back from the reducer unchanged and
/// with score 0.
pub proof fn lemma_reduce_settled(s: Seq<usize>)
    requires
        forall|i: int, j: int| 0 <= i < j < s.len() && s[i] == 0 ==> s[j] == 0,
        forall|j: int| 0 <= j < s.len() - 1 && #[trigger] s[j] != 0 ==> s[j] != s[j + 1],
    ensures
        reduced(s) == s,
        row_score(s) == 0,
{
    lemma_compact_settled(s);
    lemma_merge_settled(s, 0);
    assert(s.subrange(0, s.len() as int) =~= s);
}

/// Compacts `row` toward its head, merges each pair of equal neighbours in a
/// single left-to-right pass, and compacts again. Returns the new row and
/// the score: twice the value of each merged pair.
///
/// score_row(&[2, 2, 4, 4]) == (vec![4, 8, 0, 0], 12)
pub fn score_row(row: &[usize]) -> (r: (Vec<usize>, usize))
    requires
        row_score(row@) <= usize::MAX,
    ensures
        r.0@ == reduced(row@),
        r.1 == row_score(row@),
{
    let mut next = push_zeros(row);
    let ghost c = next@;
    let n = next.len();
    let mut score: usize = 0;
    let mut idx: usize = 0;
    proof {
        assert(c.subrange(0, 0) =~= Seq::<usize>::empty());
        assert(Seq::<usize>::empty() + merged_from(c, 0) =~= merged_from(c, 0));
    }
    while idx < n
        invariant
            n == c.len() == next@.len(),
            merge_score_from(c, 0) <= usize::MAX,
            idx <= n,
            forall|k: int| idx <= k < n ==> next@[k] == c[k],
            next@.subrange(0, idx as int) + merged_from(c, idx as int) == merged_from(c, 0),
            score + merge_score_from(c, idx as int) == merge_score_from(c, 0),
        decreases n - idx,
    {
        let val = next[idx];
        proof {
            lemma_merge_score_bound(c, idx as int);
        }
        if idx + 1 < n && val == next[idx + 1] {
            proof {
                lemma_merge_score_bound(c, idx + 2);
            }
            let ghost prefix = next@.subrange(0, idx as int);
            next.set(idx, val * 2);
            next.set(idx + 1, 0);
            score = score + val * 2;
            assert(next@.subrange(0, idx + 2) =~= prefix + seq![double(c[idx as int]), 0usize]);
            assert(next@.subrange(0, idx + 2) + merged_from(c, idx + 2) =~= prefix + merged_from(c, idx as int));
            idx = idx + 2;
        } else {
            assert(next@.subrange(0, idx + 1) =~= next@.subrange(0, idx as int) + seq![c[idx as int]]);
            assert(next@.subrange(0, idx + 1) + merged_from(c, idx + 1) =~= next@.subrange(0, idx as int) + merged_from(c, idx as int));
            idx = idx + 1;
        }
    }
    assert(next@ =~= merged_from(c, 0)) by {
        assert(merged_from(c, idx as int) =~= Seq::<usize>::empty());
        assert(next@.subrange(0, idx as int) =~= next@);
    }
    (push_zeros(next.as_slice()), score)
}

} // verus!
