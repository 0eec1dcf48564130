//! What holds of the array whatever it contains: laws that relate the
//! operations to each other, stated over the length table, the flat buffer
//! and the rows that the two stand for.

use crate::layout::{
    consistent, entries, excised, lemma_offset_after_insert, lemma_offset_ends,
    lemma_offset_monotone, lemma_offset_step, lemma_rank_at, lemma_rank_at_in_bounds,
    lemma_row_in_bounds, lemma_rows_after_insert, lemma_rows_after_remove,
    lemma_rows_after_row_excise, lemma_rows_after_row_splice, offset, row, rows, spliced, total,
};
use vstd::prelude::*;

verus! {

/// The rows are as many as the length table has entries, each row is as long
/// as its entry says, and the rows end where the buffer ends: walking the
/// rows in order uses up every element exactly once.
pub proof fn lemma_rows_match_lengths<T>(dims: Seq<usize>, elems: Seq<T>)
    requires
        consistent(dims, elems),
    ensures
        rows(dims, elems).len() == dims.len(),
        forall|rank: int|
            0 <= rank < dims.len() ==> (#[trigger] rows(dims, elems)[rank]).len() == dims[rank],
        offset(dims, 0) == 0,
        offset(dims, dims.len() as int) == elems.len(),
        forall|rank: int|
            0 <= rank < dims.len() ==> #[trigger] offset(dims, rank + 1) == offset(dims, rank)
                + dims[rank],
{
    lemma_offset_ends(dims);
    assert forall|rank: int| 0 <= rank < dims.len() implies (#[trigger] rows(
        dims,
        elems,
    )[rank]).len() == dims[rank] by {
        lemma_row_in_bounds(dims, rank);
    }
    assert forall|rank: int| 0 <= rank < dims.len() implies #[trigger] offset(dims, rank + 1)
        == offset(dims, rank) + dims[rank] by {
        lemma_offset_step(dims, rank);
    }
}

/// What is left of the buffer from the start of row `rank` on begins with
/// that row, and what follows the row is what is left from the start of
/// the next row on: cutting the rows off the front of the buffer one after
/// the other hands out each row once, and no two of them overlap.
pub proof fn lemma_rest_starts_with_row<T>(dims: Seq<usize>, elems: Seq<T>, rank: int)
    requires
        consistent(dims, elems),
        0 <= rank < dims.len(),
    ensures
        elems.skip(offset(dims, rank) as int).take(dims[rank] as int) == rows(dims, elems)[rank],
        elems.skip(offset(dims, rank) as int).skip(dims[rank] as int) == elems.skip(
            offset(dims, rank + 1) as int,
        ),
        offset(dims, rank) + dims[rank] == offset(dims, rank + 1) <= elems.len(),
{
    lemma_row_in_bounds(dims, rank);
    lemma_offset_step(dims, rank);
    let rest = elems.skip(offset(dims, rank) as int);
    assert(rest.take(dims[rank] as int) =~= row(dims, elems, rank));
    assert(rest.skip(dims[rank] as int) =~= elems.skip(offset(dims, rank + 1) as int));
}

/// Building an array from a length table and a buffer and then reading its
/// rows gives back the buffer: each row is the stretch of the buffer that
/// the table assigns to it, and the rows laid end to end are the buffer.
pub proof fn lemma_round_trip<T>(dims: Seq<usize>, elems: Seq<T>)
    requires
        consistent(dims, elems),
    ensures
        forall|rank: int|
            0 <= rank < dims.len() ==> #[trigger] rows(dims, elems)[rank] == elems.subrange(
                offset(dims, rank) as int,
                offset(dims, rank) + dims[rank],
            ),
        rows(dims, elems).flatten() == elems,
    decreases dims.len(),
{
    let all = rows(dims, elems);
    if dims.len() == 0 {
        assert(all.flatten() =~= elems);
    } else {
        let last = dims.len() - 1;
        let shorter = dims.drop_last();
        let front = elems.take(total(shorter) as int);
        lemma_offset_ends(dims);
        assert(dims.take(last) =~= shorter);
        lemma_offset_step(dims, last);
        lemma_round_trip(shorter, front);
        assert forall|k: int| 0 <= k < last implies #[trigger] all.drop_last()[k] == rows(
            shorter,
            front,
        )[k] by {
            assert(shorter.take(k) =~= dims.take(k));
            lemma_offset_step(dims, k);
            lemma_offset_monotone(dims, k + 1, last);
            assert(row(dims, elems, k) =~= row(shorter, front, k));
        }
        assert(all.drop_last() =~= rows(shorter, front));
        all.lemma_flatten_and_flatten_alt_are_equivalent();
        rows(shorter, front).lemma_flatten_and_flatten_alt_are_equivalent();
        assert(all.flatten_alt() =~= elems);
    }
}

/// The rows say everything: two well-formed pairs of a length table and a
/// buffer that stand for the same rows are the same pair.
pub proof fn lemma_rows_determine_parts<T>(
    dims1: Seq<usize>,
    elems1: Seq<T>,
    dims2: Seq<usize>,
    elems2: Seq<T>,
)
    requires
        consistent(dims1, elems1),
        consistent(dims2, elems2),
        rows(dims1, elems1) == rows(dims2, elems2),
    ensures
        dims1 == dims2,
        elems1 == elems2,
{
    lemma_rows_match_lengths(dims1, elems1);
    lemma_rows_match_lengths(dims2, elems2);
    assert forall|rank: int| 0 <= rank < dims1.len() implies dims1[rank] == dims2[rank] by {
        assert(rows(dims1, elems1)[rank].len() == dims1[rank]);
        assert(rows(dims2, elems2)[rank].len() == dims2[rank]);
    }
    assert(dims1 =~= dims2);
    lemma_round_trip(dims1, elems1);
    lemma_round_trip(dims2, elems2);
}

/// Inserting a row at `rank` and then removing row `rank` returns the row
/// that was inserted and leaves the array as it was before; the insertion
/// itself moves the other rows and changes none of them.
pub proof fn lemma_insert_then_remove<T>(dims: Seq<usize>, elems: Seq<T>, rank: int, xs: Seq<T>)
    requires
        consistent(dims, elems),
        0 <= rank <= dims.len(),
        xs.len() <= usize::MAX,
    ensures
        ({
            let dims1 = dims.insert(rank, xs.len() as usize);
            let elems1 = spliced(elems, offset(dims, rank) as int, xs);
            &&& consistent(dims1, elems1)
            &&& rows(dims1, elems1)[rank] == xs
            &&& dims1.remove(rank) == dims
            &&& excised(elems1, offset(dims1, rank) as int, dims1[rank] as int) == elems
            &&& rows(dims1, elems1).remove(rank) == rows(dims, elems)
            &&& forall|k: int|
                0 <= k < rank ==> #[trigger] rows(dims1, elems1)[k] == rows(dims, elems)[k]
            &&& forall|k: int|
                rank <= k < dims.len() ==> #[trigger] rows(dims1, elems1)[k + 1] == rows(
                    dims,
                    elems,
                )[k]
        }),
{
    let dims1 = dims.insert(rank, xs.len() as usize);
    let at = offset(dims, rank) as int;
    let elems1 = spliced(elems, at, xs);
    lemma_rows_after_insert(dims, elems, rank, xs);
    lemma_offset_after_insert(dims, rank, xs.len() as usize, rank);
    lemma_offset_monotone(dims, rank, dims.len() as int);
    lemma_offset_ends(dims);
    assert(dims1.remove(rank) =~= dims);
    assert(excised(elems1, at, xs.len() as int) =~= elems);
    assert(rows(dims, elems).insert(rank, xs).remove(rank) =~= rows(dims, elems));
}

/// Removing row `rank` and then inserting what was removed at `rank` leaves
/// the array as it was before.
pub proof fn lemma_remove_then_insert<T>(dims: Seq<usize>, elems: Seq<T>, rank: int)
    requires
        consistent(dims, elems),
        0 <= rank < dims.len(),
    ensures
        ({
            let removed = rows(dims, elems)[rank];
            let dims1 = dims.remove(rank);
            let elems1 = excised(elems, offset(dims, rank) as int, dims[rank] as int);
            &&& consistent(dims1, elems1)
            &&& dims1.insert(rank, removed.len() as usize) == dims
            &&& spliced(elems1, offset(dims1, rank) as int, removed) == elems
            &&& rows(dims1, elems1).insert(rank, removed) == rows(dims, elems)
        }),
{
    let removed = rows(dims, elems)[rank];
    let at = offset(dims, rank) as int;
    let dims1 = dims.remove(rank);
    let elems1 = excised(elems, at, dims[rank] as int);
    lemma_rows_after_remove(dims, elems, rank);
    lemma_row_in_bounds(dims, rank);
    assert(dims1.take(rank) =~= dims.take(rank));
    assert(dims1.insert(rank, removed.len() as usize) =~= dims);
    assert(spliced(elems1, at, removed) =~= elems);
    assert(rows(dims, elems).remove(rank).insert(rank, removed) =~= rows(dims, elems));
}

/// Appending a row and then taking the last row off returns the row that
/// was appended and leaves the array as it was before.
pub proof fn lemma_push_then_pop<T>(dims: Seq<usize>, elems: Seq<T>, xs: Seq<T>)
    requires
        consistent(dims, elems),
        xs.len() <= usize::MAX,
    ensures
        ({
            let dims1 = dims.push(xs.len() as usize);
            let elems1 = elems + xs;
            &&& consistent(dims1, elems1)
            &&& rows(dims1, elems1).len() > 0
            &&& rows(dims1, elems1).last() == xs
            &&& dims1.drop_last() == dims
            &&& elems1.take(elems1.len() - dims1.last()) == elems
            &&& rows(dims1, elems1).drop_last() == rows(dims, elems)
        }),
{
    let dims1 = dims.push(xs.len() as usize);
    let elems1 = elems + xs;
    let end = dims.len() as int;
    lemma_offset_ends(dims);
    lemma_rows_after_insert(dims, elems, end, xs);
    assert(dims.insert(end, xs.len() as usize) =~= dims1);
    assert(spliced(elems, elems.len() as int, xs) =~= elems1);
    assert(dims1.drop_last() =~= dims);
    assert(elems1.take(elems1.len() - dims1.last()) =~= elems);
    assert(rows(dims, elems).insert(end, xs).drop_last() =~= rows(dims, elems));
}

/// Inserting one element into row `rank` makes that row one longer and
/// leaves the length and the contents of every other row as they were.
pub proof fn lemma_row_insert_is_local<T>(
    dims: Seq<usize>,
    elems: Seq<T>,
    rank: int,
    index: int,
    value: T,
)
    requires
        consistent(dims, elems),
        0 <= rank < dims.len(),
        0 <= index <= dims[rank],
        dims[rank] < usize::MAX,
    ensures
        ({
            let dims1 = dims.update(rank, (dims[rank] + 1) as usize);
            let elems1 = elems.insert(offset(dims, rank) + index, value);
            &&& consistent(dims1, elems1)
            &&& dims1.len() == dims.len()
            &&& dims1[rank] == dims[rank] + 1
            &&& rows(dims1, elems1)[rank] == rows(dims, elems)[rank].insert(index, value)
            &&& forall|k: int|
                0 <= k < dims.len() && k != rank ==> #[trigger] dims1[k] == dims[k]
            &&& forall|k: int|
                0 <= k < dims.len() && k != rank ==> #[trigger] rows(dims1, elems1)[k] == rows(
                    dims,
                    elems,
                )[k]
        }),
{
    let at = offset(dims, rank) + index;
    lemma_row_in_bounds(dims, rank);
    lemma_rows_after_row_splice(dims, elems, rank, index, seq![value]);
    assert(spliced(elems, at, seq![value]) =~= elems.insert(at, value));
    assert(spliced(row(dims, elems, rank), index, seq![value]) =~= row(dims, elems, rank).insert(
        index,
        value,
    ));
}

/// Removing one element from row `rank` makes that row one shorter and
/// leaves the length and the contents of every other row as they were.
pub proof fn lemma_row_remove_is_local<T>(dims: Seq<usize>, elems: Seq<T>, rank: int, index: int)
    requires
        consistent(dims, elems),
        0 <= rank < dims.len(),
        0 <= index < dims[rank],
    ensures
        ({
            let dims1 = dims.update(rank, (dims[rank] - 1) as usize);
            let elems1 = elems.remove(offset(dims, rank) + index);
            &&& consistent(dims1, elems1)
            &&& dims1.len() == dims.len()
            &&& dims1[rank] == dims[rank] - 1
            &&& rows(dims1, elems1)[rank] == rows(dims, elems)[rank].remove(index)
            &&& forall|k: int|
                0 <= k < dims.len() && k != rank ==> #[trigger] dims1[k] == dims[k]
            &&& forall|k: int|
                0 <= k < dims.len() && k != rank ==> #[trigger] rows(dims1, elems1)[k] == rows(
                    dims,
                    elems,
                )[k]
        }),
{
    let at = offset(dims, rank) + index;
    lemma_row_in_bounds(dims, rank);
    lemma_rows_after_row_excise(dims, elems, rank, index, 1);
    assert(excised(elems, at, 1) =~= elems.remove(at));
    assert(excised(row(dims, elems, rank), index, 1) =~= row(dims, elems, rank).remove(index));
}

/// Taking an array apart hands out every element of the buffer exactly
/// once, in the order of the buffer; each comes with a rank that the array
/// has and a file that lies inside that row, and the element at file `file`
/// of row `rank` is the one that comes with that pair.
pub proof fn lemma_entries_cover<T>(dims: Seq<usize>, elems: Seq<T>)
    requires
        consistent(dims, elems),
    ensures
        entries(dims, elems).len() == elems.len(),
        entries(dims, elems).len() == total(dims),
        forall|at: int|
            0 <= at < elems.len() ==> {
                let entry = #[trigger] entries(dims, elems)[at];
                &&& 0 <= entry.0 < dims.len()
                &&& 0 <= entry.1 < dims[entry.0]
                &&& offset(dims, entry.0) + entry.1 == at
                &&& entry.2 == elems[at]
            },
        forall|rank: int, file: int|
            0 <= rank < dims.len() && 0 <= file < dims[rank] ==> #[trigger] rows(
                dims,
                elems,
            )[rank][file] == entries(dims, elems)[offset(dims, rank) + file].2 && entries(
                dims,
                elems,
            )[offset(dims, rank) + file].0 == rank && entries(dims, elems)[offset(dims, rank)
                + file].1 == file,
{
    assert forall|at: int| 0 <= at < elems.len() implies {
        let entry = #[trigger] entries(dims, elems)[at];
        &&& 0 <= entry.0 < dims.len()
        &&& 0 <= entry.1 < dims[entry.0]
        &&& offset(dims, entry.0) + entry.1 == at
        &&& entry.2 == elems[at]
    } by {
        lemma_rank_at_in_bounds(dims, at);
    }
    assert forall|rank: int, file: int|
        0 <= rank < dims.len() && 0 <= file < dims[rank] implies #[trigger] rows(
        dims,
        elems,
    )[rank][file] == entries(dims, elems)[offset(dims, rank) + file].2 && entries(
        dims,
        elems,
    )[offset(dims, rank) + file].0 == rank && entries(dims, elems)[offset(dims, rank) + file].1
        == file by {
        lemma_row_in_bounds(dims, rank);
        lemma_rank_at(dims, rank, file);
    }
}

} // verus!
