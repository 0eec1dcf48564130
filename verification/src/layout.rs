//! The arithmetic that ties the table of row lengths to the flat buffer:
//! prefix sums, row offsets, and the rows that a pair of tables stands for.

use vstd::prelude::*;

verus! {

/// The sum of all row lengths in `dims`.
pub open spec fn total(dims: Seq<usize>) -> nat
    decreases dims.len(),
{
    if dims.len() == 0 {
        0
    } else {
        total(dims.drop_last()) + dims.last() as nat
    }
}

/// Where row `rank` starts in the flat buffer: the sum of the lengths of the
/// rows before it. For `rank == dims.len()` this is the end of the buffer.
pub open spec fn offset(dims: Seq<usize>, rank: int) -> nat {
    total(dims.take(rank))
}

/// The length table and the buffer agree: the lengths add up to the number
/// of elements.
pub open spec fn consistent<T>(dims: Seq<usize>, elems: Seq<T>) -> bool {
    total(dims) == elems.len()
}

/// The elements of row `rank`, cut out of the flat buffer.
pub open spec fn row<T>(dims: Seq<usize>, elems: Seq<T>, rank: int) -> Seq<T> {
    elems.subrange(offset(dims, rank) as int, offset(dims, rank) + dims[rank])
}

/// All rows, in order.
pub open spec fn rows<T>(dims: Seq<usize>, elems: Seq<T>) -> Seq<Seq<T>> {
    Seq::new(dims.len(), |rank: int| row(dims, elems, rank))
}

/// The buffer after a row `xs` has been spliced in at flat position `at`.
pub open spec fn spliced<T>(elems: Seq<T>, at: int, xs: Seq<T>) -> Seq<T> {
    elems.subrange(0, at) + xs + elems.subrange(at, elems.len() as int)
}

/// The buffer after the `n` elements from flat position `at` on have been
/// taken out.
pub open spec fn excised<T>(elems: Seq<T>, at: int, n: int) -> Seq<T> {
    elems.subrange(0, at) + elems.subrange(at + n, elems.len() as int)
}

/// The row that flat position `at` falls in.
pub open spec fn rank_at(dims: Seq<usize>, at: int) -> int
    decreases dims.len(),
{
    if dims.len() == 0 {
        0
    } else if at >= total(dims.drop_last()) {
        dims.len() - 1
    } else {
        rank_at(dims.drop_last(), at)
    }
}

/// The elements `rest`, which stand in the buffer from flat position
/// `start` on, each with its rank and its file.
pub open spec fn entries_from<T>(dims: Seq<usize>, start: int, rest: Seq<T>) -> Seq<(int, int, T)> {
    Seq::new(
        rest.len(),
        |j: int|
            (
                rank_at(dims, start + j),
                start + j - offset(dims, rank_at(dims, start + j)),
                rest[j],
            ),
    )
}

/// All elements of the buffer in row-major order, each with its rank and
/// its file.
pub open spec fn entries<T>(dims: Seq<usize>, elems: Seq<T>) -> Seq<(int, int, T)> {
    entries_from(dims, 0, elems)
}

/// The sum over a concatenation is the sum of the sums.
pub proof fn lemma_total_concat(a: Seq<usize>, b: Seq<usize>)
    ensures
        total(a + b) == total(a) + total(b),
    decreases b.len(),
{
    if b.len() == 0 {
        assert(a + b =~= a);
    } else {
        assert((a + b).drop_last() =~= a + b.drop_last());
        lemma_total_concat(a, b.drop_last());
    }
}

/// The sum over a single length is that length.
pub proof fn lemma_total_single(n: usize)
    ensures
        total(seq![n]) == n,
{
    let one = seq![n];
    assert(one.len() == 1);
    assert(one.last() == n);
    assert(one.drop_last().len() == 0);
    assert(total(one.drop_last()) == 0);
}

/// A row starts where the row before it ends.
pub proof fn lemma_offset_step(dims: Seq<usize>, rank: int)
    requires
        0 <= rank < dims.len(),
    ensures
        offset(dims, rank + 1) == offset(dims, rank) + dims[rank],
{
    assert(dims.take(rank + 1).drop_last() =~= dims.take(rank));
}

/// The first row starts at zero and the position past the last row is the
/// sum of all lengths.
pub proof fn lemma_offset_ends(dims: Seq<usize>)
    ensures
        offset(dims, 0) == 0,
        offset(dims, dims.len() as int) == total(dims),
{
    assert(dims.take(0) =~= Seq::<usize>::empty());
    assert(dims.take(dims.len() as int) =~= dims);
}

/// Offsets never decrease from one row to a later one.
pub proof fn lemma_offset_monotone(dims: Seq<usize>, i: int, j: int)
    requires
        0 <= i <= j <= dims.len(),
    ensures
        offset(dims, i) <= offset(dims, j),
{
    assert(dims.take(j) =~= dims.take(i) + dims.subrange(i, j));
    lemma_total_concat(dims.take(i), dims.subrange(i, j));
}

/// Every row lies inside the buffer.
pub proof fn lemma_row_in_bounds(dims: Seq<usize>, rank: int)
    requires
        0 <= rank < dims.len(),
    ensures
        offset(dims, rank) + dims[rank] <= total(dims),
{
    lemma_offset_step(dims, rank);
    lemma_offset_monotone(dims, rank + 1, dims.len() as int);
    lemma_offset_ends(dims);
}

/// The flat position of file `file` of row `rank` falls in row `rank`.
pub proof fn lemma_rank_at(dims: Seq<usize>, rank: int, file: int)
    requires
        0 <= rank < dims.len(),
        0 <= file < dims[rank],
    ensures
        rank_at(dims, offset(dims, rank) + file) == rank,
    decreases dims.len(),
{
    let last = dims.len() - 1;
    assert(dims.take(last) =~= dims.drop_last());
    if rank < last {
        lemma_offset_step(dims, rank);
        lemma_offset_monotone(dims, rank + 1, last);
        assert(dims.drop_last().take(rank) =~= dims.take(rank));
        lemma_rank_at(dims.drop_last(), rank, file);
    }
}

/// Every flat position of a buffer falls in a row that exists, at a file
/// that the row has.
pub proof fn lemma_rank_at_in_bounds(dims: Seq<usize>, at: int)
    requires
        0 <= at < total(dims),
    ensures
        0 <= rank_at(dims, at) < dims.len(),
        offset(dims, rank_at(dims, at)) <= at < offset(dims, rank_at(dims, at)) + dims[rank_at(
            dims,
            at,
        )],
    decreases dims.len(),
{
    let last = dims.len() - 1;
    assert(dims.take(last) =~= dims.drop_last());
    if at < total(dims.drop_last()) {
        lemma_rank_at_in_bounds(dims.drop_last(), at);
        let rank = rank_at(dims.drop_last(), at);
        assert(dims.drop_last().take(rank) =~= dims.take(rank));
    }
}

/// Offsets after a length `n` has been inserted into the table at `rank`:
/// rows before the new one keep their start, later ones move by `n`.
pub proof fn lemma_offset_after_insert(dims: Seq<usize>, rank: int, n: usize, k: int)
    requires
        0 <= rank <= dims.len(),
        0 <= k <= dims.len() + 1,
    ensures
        offset(dims.insert(rank, n), k) == if k <= rank {
            offset(dims, k) as int
        } else {
            offset(dims, k - 1) + n
        },
{
    let inserted = dims.insert(rank, n);
    if k <= rank {
        assert(inserted.take(k) =~= dims.take(k));
    } else {
        let head = dims.take(rank);
        let tail = dims.subrange(rank, k - 1);
        assert(inserted.take(k) =~= head + seq![n] + tail);
        assert(dims.take(k - 1) =~= head + tail);
        lemma_total_single(n);
        lemma_total_concat(head, seq![n]);
        lemma_total_concat(head + seq![n], tail);
        lemma_total_concat(head, tail);
    }
}

/// Offsets after the length at `rank` has been taken out of the table:
/// rows before it keep their start, later ones move back by that length.
pub proof fn lemma_offset_after_remove(dims: Seq<usize>, rank: int, k: int)
    requires
        0 <= rank < dims.len(),
        0 <= k <= dims.len() - 1,
    ensures
        offset(dims.remove(rank), k) == if k <= rank {
            offset(dims, k) as int
        } else {
            offset(dims, k + 1) - dims[rank]
        },
{
    let removed = dims.remove(rank);
    if k <= rank {
        assert(removed.take(k) =~= dims.take(k));
    } else {
        let head = dims.take(rank);
        let one = seq![dims[rank]];
        let tail = dims.subrange(rank + 1, k + 1);
        assert(removed.take(k) =~= head + tail);
        assert(dims.take(k + 1) =~= head + one + tail);
        lemma_total_single(dims[rank]);
        lemma_total_concat(head, one);
        lemma_total_concat(head + one, tail);
        lemma_total_concat(head, tail);
    }
}

/// Offsets after the length at `rank` has been changed to `n`: rows up to
/// and including `rank` keep their start, later ones move by the difference.
pub proof fn lemma_offset_after_update(dims: Seq<usize>, rank: int, n: usize, k: int)
    requires
        0 <= rank < dims.len(),
        0 <= k <= dims.len(),
    ensures
        offset(dims.update(rank, n), k) == if k <= rank {
            offset(dims, k) as int
        } else {
            offset(dims, k) - dims[rank] + n
        },
{
    let updated = dims.update(rank, n);
    if k <= rank {
        assert(updated.take(k) =~= dims.take(k));
    } else {
        let head = dims.take(rank);
        let old_one = seq![dims[rank]];
        let new_one = seq![n];
        let tail = dims.subrange(rank + 1, k);
        assert(updated.take(k) =~= head + new_one + tail);
        assert(dims.take(k) =~= head + old_one + tail);
        lemma_total_single(dims[rank]);
        lemma_total_single(n);
        lemma_total_concat(head, old_one);
        lemma_total_concat(head + old_one, tail);
        lemma_total_concat(head, new_one);
        lemma_total_concat(head + new_one, tail);
    }
}

/// Splicing a whole row into the buffer at the start of row `rank`, and its
/// length into the table, inserts exactly that row and leaves every other
/// row as it was.
pub proof fn lemma_rows_after_insert<T>(dims: Seq<usize>, elems: Seq<T>, rank: int, xs: Seq<T>)
    requires
        consistent(dims, elems),
        0 <= rank <= dims.len(),
        xs.len() <= usize::MAX,
    ensures
        consistent(
            dims.insert(rank, xs.len() as usize),
            spliced(elems, offset(dims, rank) as int, xs),
        ),
        rows(dims.insert(rank, xs.len() as usize), spliced(elems, offset(dims, rank) as int, xs))
            == rows(dims, elems).insert(rank, xs),
{
    let n = xs.len() as usize;
    let at = offset(dims, rank) as int;
    let dims2 = dims.insert(rank, n);
    let elems2 = spliced(elems, at, xs);
    lemma_offset_ends(dims);
    lemma_offset_monotone(dims, rank, dims.len() as int);
    lemma_offset_ends(dims2);
    lemma_offset_after_insert(dims, rank, n, dims.len() as int + 1);
    let expected = rows(dims, elems).insert(rank, xs);
    assert forall|k: int| 0 <= k < dims2.len() implies #[trigger] rows(dims2, elems2)[k]
        == expected[k] by {
        lemma_offset_after_insert(dims, rank, n, k);
        if k < rank {
            lemma_offset_step(dims, k);
            lemma_offset_monotone(dims, k + 1, rank);
            assert(row(dims2, elems2, k) =~= row(dims, elems, k));
        } else if k == rank {
            assert(row(dims2, elems2, k) =~= xs);
        } else {
            lemma_offset_monotone(dims, rank, k - 1);
            lemma_row_in_bounds(dims, k - 1);
            assert(row(dims2, elems2, k) =~= row(dims, elems, k - 1));
        }
    }
    assert(rows(dims2, elems2) =~= expected);
}

/// Taking row `rank` out of the buffer, and its length out of the table,
/// removes exactly that row and leaves every other row as it was.
pub proof fn lemma_rows_after_remove<T>(dims: Seq<usize>, elems: Seq<T>, rank: int)
    requires
        consistent(dims, elems),
        0 <= rank < dims.len(),
    ensures
        consistent(
            dims.remove(rank),
            excised(elems, offset(dims, rank) as int, dims[rank] as int),
        ),
        rows(dims.remove(rank), excised(elems, offset(dims, rank) as int, dims[rank] as int))
            == rows(dims, elems).remove(rank),
{
    let at = offset(dims, rank) as int;
    let n = dims[rank] as int;
    let dims2 = dims.remove(rank);
    let elems2 = excised(elems, at, n);
    lemma_row_in_bounds(dims, rank);
    lemma_offset_ends(dims);
    lemma_offset_ends(dims2);
    lemma_offset_after_remove(dims, rank, dims.len() - 1);
    if rank == dims.len() - 1 {
        lemma_offset_step(dims, rank);
    }
    let expected = rows(dims, elems).remove(rank);
    assert forall|k: int| 0 <= k < dims2.len() implies #[trigger] rows(dims2, elems2)[k]
        == expected[k] by {
        lemma_offset_after_remove(dims, rank, k);
        if k < rank {
            lemma_offset_step(dims, k);
            lemma_offset_monotone(dims, k + 1, rank);
            assert(row(dims2, elems2, k) =~= row(dims, elems, k));
        } else {
            lemma_offset_step(dims, rank);
            lemma_offset_monotone(dims, rank + 1, k + 1);
            lemma_row_in_bounds(dims, k + 1);
            assert(row(dims2, elems2, k) =~= row(dims, elems, k + 1));
        }
    }
    assert(rows(dims2, elems2) =~= expected);
}

/// Overwriting one element of row `rank` in the buffer changes that row
/// alone, and in it that one position.
pub proof fn lemma_rows_after_set<T>(dims: Seq<usize>, elems: Seq<T>, rank: int, file: int, value: T)
    requires
        consistent(dims, elems),
        0 <= rank < dims.len(),
        0 <= file < dims[rank],
    ensures
        consistent(dims, elems.update(offset(dims, rank) + file, value)),
        rows(dims, elems.update(offset(dims, rank) + file, value)) == rows(dims, elems).update(
            rank,
            row(dims, elems, rank).update(file, value),
        ),
{
    let elems2 = elems.update(offset(dims, rank) + file, value);
    lemma_row_in_bounds(dims, rank);
    let expected = rows(dims, elems).update(rank, row(dims, elems, rank).update(file, value));
    assert forall|k: int| 0 <= k < dims.len() implies #[trigger] rows(dims, elems2)[k]
        == expected[k] by {
        lemma_row_in_bounds(dims, k);
        if k < rank {
            lemma_offset_step(dims, k);
            lemma_offset_monotone(dims, k + 1, rank);
            assert(row(dims, elems2, k) =~= row(dims, elems, k));
        } else if k == rank {
            assert(row(dims, elems2, k) =~= row(dims, elems, rank).update(file, value));
        } else {
            lemma_offset_step(dims, rank);
            lemma_offset_monotone(dims, rank + 1, k);
            assert(row(dims, elems2, k) =~= row(dims, elems, k));
        }
    }
    assert(rows(dims, elems2) =~= expected);
}

/// The buffer after the `n` elements from flat position `at` on have been
/// replaced by `ys`.
pub open spec fn overwritten<T>(elems: Seq<T>, at: int, n: int, ys: Seq<T>) -> Seq<T> {
    elems.subrange(0, at) + ys + elems.subrange(at + n, elems.len() as int)
}

/// Overwriting the whole of row `rank` in the buffer with as many other
/// elements changes that row alone.
pub proof fn lemma_rows_after_row_overwrite<T>(
    dims: Seq<usize>,
    elems: Seq<T>,
    rank: int,
    ys: Seq<T>,
)
    requires
        consistent(dims, elems),
        0 <= rank < dims.len(),
    ensures
        ys.len() == dims[rank] ==> consistent(
            dims,
            overwritten(elems, offset(dims, rank) as int, dims[rank] as int, ys),
        ) && rows(dims, overwritten(elems, offset(dims, rank) as int, dims[rank] as int, ys))
            == rows(dims, elems).update(rank, ys),
{
    if ys.len() == dims[rank] {
        let elems2 = overwritten(elems, offset(dims, rank) as int, dims[rank] as int, ys);
        lemma_row_in_bounds(dims, rank);
        let expected = rows(dims, elems).update(rank, ys);
        assert forall|k: int| 0 <= k < dims.len() implies #[trigger] rows(dims, elems2)[k]
            == expected[k] by {
            lemma_row_in_bounds(dims, k);
            if k < rank {
                lemma_offset_step(dims, k);
                lemma_offset_monotone(dims, k + 1, rank);
                assert(row(dims, elems2, k) =~= row(dims, elems, k));
            } else if k == rank {
                assert(row(dims, elems2, k) =~= ys);
            } else {
                lemma_offset_step(dims, rank);
                lemma_offset_monotone(dims, rank + 1, k);
                assert(row(dims, elems2, k) =~= row(dims, elems, k));
            }
        }
        assert(rows(dims, elems2) =~= expected);
    }
}

/// Splicing `xs` into row `rank` at position `index` of that row, and adding
/// its length to the row's entry in the table, changes that row alone.
pub proof fn lemma_rows_after_row_splice<T>(
    dims: Seq<usize>,
    elems: Seq<T>,
    rank: int,
    index: int,
    xs: Seq<T>,
)
    requires
        consistent(dims, elems),
        0 <= rank < dims.len(),
        0 <= index <= dims[rank],
        dims[rank] + xs.len() <= usize::MAX,
    ensures
        consistent(
            dims.update(rank, (dims[rank] + xs.len()) as usize),
            spliced(elems, offset(dims, rank) + index, xs),
        ),
        rows(
            dims.update(rank, (dims[rank] + xs.len()) as usize),
            spliced(elems, offset(dims, rank) + index, xs),
        ) == rows(dims, elems).update(rank, spliced(row(dims, elems, rank), index, xs)),
{
    let n = (dims[rank] + xs.len()) as usize;
    let at = offset(dims, rank) + index;
    let dims2 = dims.update(rank, n);
    let elems2 = spliced(elems, at, xs);
    lemma_row_in_bounds(dims, rank);
    lemma_offset_ends(dims);
    lemma_offset_ends(dims2);
    lemma_offset_after_update(dims, rank, n, dims.len() as int);
    let expected = rows(dims, elems).update(rank, spliced(row(dims, elems, rank), index, xs));
    assert forall|k: int| 0 <= k < dims2.len() implies #[trigger] rows(dims2, elems2)[k]
        == expected[k] by {
        lemma_offset_after_update(dims, rank, n, k);
        if k < rank {
            lemma_offset_step(dims, k);
            lemma_offset_monotone(dims, k + 1, rank);
            assert(row(dims2, elems2, k) =~= row(dims, elems, k));
        } else if k == rank {
            assert(row(dims2, elems2, k) =~= spliced(row(dims, elems, rank), index, xs));
        } else {
            lemma_offset_step(dims, rank);
            lemma_offset_monotone(dims, rank + 1, k);
            lemma_row_in_bounds(dims, k);
            assert(row(dims2, elems2, k) =~= row(dims, elems, k));
        }
    }
    assert(rows(dims2, elems2) =~= expected);
}

/// Taking `n` elements out of row `rank` from position `index` of that row
/// on, and `n` off the row's entry in the table, changes that row alone.
pub proof fn lemma_rows_after_row_excise<T>(
    dims: Seq<usize>,
    elems: Seq<T>,
    rank: int,
    index: int,
    n: int,
)
    requires
        consistent(dims, elems),
        0 <= rank < dims.len(),
        0 <= index,
        0 <= n,
        index + n <= dims[rank],
    ensures
        consistent(
            dims.update(rank, (dims[rank] - n) as usize),
            excised(elems, offset(dims, rank) + index, n),
        ),
        rows(
            dims.update(rank, (dims[rank] - n) as usize),
            excised(elems, offset(dims, rank) + index, n),
        ) == rows(dims, elems).update(rank, excised(row(dims, elems, rank), index, n)),
{
    let m = (dims[rank] - n) as usize;
    let at = offset(dims, rank) + index;
    let dims2 = dims.update(rank, m);
    let elems2 = excised(elems, at, n);
    lemma_row_in_bounds(dims, rank);
    lemma_offset_ends(dims);
    lemma_offset_ends(dims2);
    lemma_offset_after_update(dims, rank, m, dims.len() as int);
    let expected = rows(dims, elems).update(rank, excised(row(dims, elems, rank), index, n));
    assert forall|k: int| 0 <= k < dims2.len() implies #[trigger] rows(dims2, elems2)[k]
        == expected[k] by {
        lemma_offset_after_update(dims, rank, m, k);
        if k < rank {
            lemma_offset_step(dims, k);
            lemma_offset_monotone(dims, k + 1, rank);
            assert(row(dims2, elems2, k) =~= row(dims, elems, k));
        } else if k == rank {
            assert(row(dims2, elems2, k) =~= excised(row(dims, elems, rank), index, n));
        } else {
            lemma_offset_step(dims, rank);
            lemma_offset_monotone(dims, rank + 1, k);
            lemma_row_in_bounds(dims, k);
            assert(row(dims2, elems2, k) =~= row(dims, elems, k));
        }
    }
    assert(rows(dims2, elems2) =~= expected);
}

} // verus!
