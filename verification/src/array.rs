//! The array itself: construction, index arithmetic, access, and the
//! operations on whole rows.

use crate::layout::{
    consistent, excised, lemma_offset_ends, lemma_offset_monotone, lemma_offset_step,
    lemma_row_in_bounds, lemma_rows_after_insert, lemma_rows_after_remove,
    lemma_rows_after_row_overwrite, lemma_rows_after_set, offset, overwritten, row, rows, spliced,
    total,
};
use vstd::prelude::*;

verus! {

/// A dynamically sized jagged array.
///
/// An `Array` is read either by a `[rank, file]` pair, which names one
/// element, or by a `rank` alone, which names a whole row.
#[derive(Debug, Eq)]
pub struct Array<T> {
    /// The length of each row, in order.
    pub(crate) dimensions: Vec<usize>,
    /// The elements of all rows, one row after the other.
    pub(crate) elements: Vec<T>,
}

impl<T> View for Array<T> {
    type V = Seq<Seq<T>>;

    /// The array as the sequence of its rows.
    open spec fn view(&self) -> Seq<Seq<T>> {
        rows(self.lengths(), self.buffer())
    }
}

/// Calls `Vec::capacity`: the number of elements the vector has room for
/// without allocating again, which is never less than its length.
#[verifier::external_body]
fn vec_capacity<T>(vec: &Vec<T>) -> (capacity: usize)
    ensures
        capacity >= vec@.len(),
{
    vec.capacity()
}

/// Adds up a table of row lengths, or reports that the sum does not fit.
pub fn checked_total(dimensions: &Vec<usize>) -> (sum: Option<usize>)
    ensures
        match sum {
            Some(n) => n == total(dimensions@),
            None => total(dimensions@) > usize::MAX,
        },
{
    let mut sum: usize = 0;
    let mut i: usize = 0;
    proof {
        lemma_offset_ends(dimensions@);
    }
    while i < dimensions.len()
        invariant
            i <= dimensions@.len(),
            sum == offset(dimensions@, i as int),
        decreases dimensions@.len() - i,
    {
        proof {
            lemma_offset_step(dimensions@, i as int);
            lemma_offset_monotone(dimensions@, i + 1, dimensions@.len() as int);
            lemma_offset_ends(dimensions@);
        }
        match sum.checked_add(dimensions[i]) {
            Some(next) => {
                sum = next;
            },
            None => {
                return None;
            },
        }
        i += 1;
    }
    proof {
        lemma_offset_ends(dimensions@);
    }
    Some(sum)
}

/// Builds an array from a table of row lengths and the elements of all rows
/// in row-major order. The lengths must add up to the number of elements.
pub fn from_parts<T>(dimensions: Vec<usize>, elements: Vec<T>) -> (array: Array<T>)
    requires
        total(dimensions@) == elements@.len(),
    ensures
        array.wf(),
        array.lengths() == dimensions@,
        array.buffer() == elements@,
{
    Array { dimensions, elements }
}

/// Builds an array from a table of row lengths and the elements of all rows
/// in row-major order, or returns `None` where the lengths do not add up to
/// the number of elements.
pub fn try_from_parts<T>(dimensions: Vec<usize>, elements: Vec<T>) -> (array: Option<Array<T>>)
    ensures
        array is Some <==> total(dimensions@) == elements@.len(),
        array matches Some(a) ==> a.wf() && a.lengths() == dimensions@ && a.buffer()
            == elements@,
{
    assert(elements@.len() == elements.len());
    match checked_total(&dimensions) {
        Some(expected) => {
            if expected == elements.len() {
                Some(from_parts(dimensions, elements))
            } else {
                None
            }
        },
        None => None,
    }
}

/// Builds an array with rows of the given lengths where every position holds
/// its own clone of `element`.
pub fn from_elem<T: Clone>(element: T, dimensions: Vec<usize>) -> (array: Array<T>)
    requires
        total(dimensions@) <= usize::MAX,
    ensures
        array.wf(),
        array.lengths() == dimensions@,
        array.buffer().len() == total(dimensions@),
        forall|i: int| 0 <= i < array.buffer().len() ==> cloned(element, #[trigger] array.buffer()[i]),
{
    let len: usize = checked_total(&dimensions).unwrap();
    let elements: Vec<T> = vec![element; len];
    from_parts(dimensions, elements)
}

impl<T> Array<T> {
    /// The table of row lengths.
    pub open(crate) spec fn lengths(&self) -> Seq<usize> {
        self.dimensions@
    }

    /// The flat buffer: all rows, one after the other.
    pub open(crate) spec fn buffer(&self) -> Seq<T> {
        self.elements@
    }

    /// The invariant of the type: the row lengths add up to the number of
    /// elements in the buffer.
    pub open spec fn wf(&self) -> bool {
        consistent(self.lengths(), self.buffer())
    }

    /// Tells whether the invariant of the type holds of this array. It does
    /// for every array that the functions of this library have made from
    /// well-formed ones.
    pub fn is_well_formed(&self) -> (ok: bool)
        ensures
            ok == self.wf(),
    {
        assert(self.elements@.len() == self.elements.len());
        match checked_total(&self.dimensions) {
            Some(expected) => expected == self.elements.len(),
            None => false,
        }
    }

    /// Creates a new empty `Array` with no rows and no elements.
    pub fn new() -> (array: Self)
        ensures
            array.wf(),
            array.lengths() == Seq::<usize>::empty(),
            array.buffer() == Seq::<T>::empty(),
    {
        Array { dimensions: Vec::new(), elements: Vec::new() }
    }

    /// Creates a new empty `Array` with no rows and space for at least
    /// `capacity` elements.
    pub fn with_capacity(capacity: usize) -> (array: Self)
        ensures
            array.wf(),
            array.lengths() == Seq::<usize>::empty(),
            array.buffer() == Seq::<T>::empty(),
    {
        Array { dimensions: Vec::new(), elements: Vec::with_capacity(capacity) }
    }

    /// Returns the number of elements in the `Array`, over all rows.
    pub fn len(&self) -> (n: usize)
        ensures
            n == self.buffer().len(),
            self.wf() ==> n == total(self.lengths()),
    {
        self.elements.len()
    }

    /// Returns the number of elements there is space for, which is never
    /// less than the number of elements held.
    pub fn capacity(&self) -> (n: usize)
        ensures
            n >= self.buffer().len(),
    {
        vec_capacity(&self.elements)
    }

    /// Returns the number of ranks (rows) making up the `Array`.
    pub fn ranks(&self) -> (n: usize)
        ensures
            n == self@.len(),
            n == self.lengths().len(),
    {
        self.dimensions.len()
    }

    /// Reserves space for at least `additional` more elements.
    pub fn reserve(&mut self, additional: usize)
        ensures
            final(self).lengths() == old(self).lengths(),
            final(self).buffer() == old(self).buffer(),
            old(self).wf() ==> final(self).wf(),
    {
        self.elements.reserve(additional)
    }

    /// Reserves space for `additional` more elements.
    pub fn reserve_exact(&mut self, additional: usize)
        ensures
            final(self).lengths() == old(self).lengths(),
            final(self).buffer() == old(self).buffer(),
            old(self).wf() ==> final(self).wf(),
    {
        self.elements.reserve(additional)
    }

    /// Returns the number of files (columns) within the given `rank`, and
    /// `0` for a rank that does not exist.
    pub fn files(&self, rank: usize) -> (n: usize)
        ensures
            n == if rank < self.lengths().len() {
                self.lengths()[rank as int]
            } else {
                0
            },
            self.wf() && rank < self@.len() ==> n == self@[rank as int].len(),
    {
        proof {
            if self.wf() && rank < self.dimensions@.len() {
                lemma_row_in_bounds(self.dimensions@, rank as int);
            }
        }
        if rank < self.dimensions.len() {
            self.dimensions[rank]
        } else {
            0
        }
    }

    /// Returns the flat position of the element at `index`, a pair of rank
    /// and file, without looking at the length of the row.
    pub(crate) fn get_element_index_unchecked(&self, index: [usize; 2]) -> (at: usize)
        requires
            self.wf(),
            index[0] <= self.lengths().len(),
            offset(self.lengths(), index[0] as int) + index[1] <= usize::MAX,
        ensures
            at == offset(self.lengths(), index[0] as int) + index[1],
    {
        let rank: usize = index[0];
        let mut start: usize = 0;
        let mut i: usize = 0;
        proof {
            lemma_offset_ends(self.dimensions@);
        }
        assert(self.elements@.len() == self.elements.len());
        while i < rank
            invariant
                i <= rank <= self.dimensions@.len(),
                start == offset(self.dimensions@, i as int),
                total(self.dimensions@) == self.elements@.len(),
                self.elements@.len() <= usize::MAX,
            decreases rank - i,
        {
            proof {
                lemma_offset_step(self.dimensions@, i as int);
                lemma_row_in_bounds(self.dimensions@, i as int);
            }
            start = start + self.dimensions[i];
            i += 1;
        }
        start + index[1]
    }

    /// Returns the flat position of the element at `index`, a pair of rank
    /// and file, or `None` where there is no such element.
    pub(crate) fn get_element_index(&self, index: [usize; 2]) -> (at: Option<usize>)
        requires
            self.wf(),
        ensures
            at is Some <==> index[0] < self.lengths().len() && index[1] < self.lengths()[index[0] as int],
            at matches Some(i) ==> i == offset(self.lengths(), index[0] as int) + index[1] && i
                < self.buffer().len(),
    {
        if self.dimensions.len() <= index[0] || self.dimensions[index[0]] <= index[1] {
            return None;
        }
        proof {
            lemma_row_in_bounds(self.dimensions@, index[0] as int);
        }
        assert(self.elements@.len() == self.elements.len());
        Some(self.get_element_index_unchecked(index))
    }

    /// A panic free way to read an element of an `Array`: the element at
    /// the given rank and file, or `None` where there is none.
    pub fn get(&self, index: [usize; 2]) -> (element: Option<&T>)
        requires
            self.wf(),
        ensures
            element is Some <==> index[0] < self@.len() && index[1] < self@[index[0] as int].len(),
            element matches Some(x) ==> *x == self@[index[0] as int][index[1] as int],
    {
        proof {
            if index[0] < self.dimensions@.len() {
                lemma_row_in_bounds(self.dimensions@, index[0] as int);
            }
        }
        match self.get_element_index(index) {
            Some(at) => Some(&self.elements[at]),
            None => None,
        }
    }

    /// A panic free way to reach an element of an `Array` for writing: the
    /// element at the given rank and file, or `None` where there is none.
    /// What is written through the reference changes that one element.
    pub fn get_mut(&mut self, index: [usize; 2]) -> (element: Option<&mut T>)
        requires
            old(self).wf(),
        ensures
            element is Some <==> index[0] < old(self)@.len() && index[1] < old(self)@[index[0] as int].len(),
            final(self).wf(),
            final(self).lengths() == old(self).lengths(),
            match element {
                Some(x) => {
                    &&& *x == old(self)@[index[0] as int][index[1] as int]
                    &&& final(self).buffer() == old(self).buffer().update(
                        offset(old(self).lengths(), index[0] as int) + index[1],
                        *final(x),
                    )
                    &&& final(self)@ == old(self)@.update(
                        index[0] as int,
                        old(self)@[index[0] as int].update(index[1] as int, *final(x)),
                    )
                },
                None => final(self).buffer() == old(self).buffer(),
            },
    {
        proof {
            if index[0] < self.dimensions@.len() {
                lemma_row_in_bounds(self.dimensions@, index[0] as int);
            }
        }
        match self.get_element_index(index) {
            Some(at) => {
                let x = &mut self.elements[at];
                proof {
                    lemma_rows_after_set(
                        old(self).dimensions@,
                        old(self).elements@,
                        index[0] as int,
                        index[1] as int,
                        *final(x),
                    );
                }
                Some(x)
            },
            None => None,
        }
    }

    /// Returns row `rank`, which starts at flat position `start`, as a
    /// mutable slice. What is written through the slice changes the
    /// elements of that row and nothing else.
    pub(crate) fn rank_slice_mut(&mut self, rank: usize, start: usize) -> (slice: &mut [T])
        requires
            old(self).wf(),
            rank < old(self).lengths().len(),
            start == offset(old(self).lengths(), rank as int),
        ensures
            slice@ == old(self)@[rank as int],
            final(self).lengths() == old(self).lengths(),
            final(self).buffer() == overwritten(
                old(self).buffer(),
                start as int,
                old(self)@[rank as int].len() as int,
                final(slice)@,
            ),
            final(slice)@.len() == slice@.len() ==> final(self).wf() && final(self)@ == old(
                self,
            )@.update(rank as int, final(slice)@),
    {
        let files: usize = self.dimensions[rank];
        proof {
            lemma_row_in_bounds(self.dimensions@, rank as int);
        }
        assert(self.elements@.len() == self.elements.len());
        let whole: &mut [T] = self.elements.as_mut_slice();
        let (head, rest) = whole.split_at_mut(start);
        let (slice, tail) = rest.split_at_mut(files);
        assert(final(head)@ + (final(slice)@ + final(tail)@) =~= overwritten(
            old(self).elements@,
            start as int,
            files as int,
            final(slice)@,
        ));
        proof {
            lemma_rows_after_row_overwrite(
                old(self).dimensions@,
                old(self).elements@,
                rank as int,
                final(slice)@,
            );
        }
        slice
    }

    /// A panic free way to read a rank of an `Array`: the row as a slice, or
    /// `None` where there is no such row.
    pub fn rank(&self, rank: usize) -> (slice: Option<&[T]>)
        requires
            self.wf(),
        ensures
            slice is Some <==> rank < self@.len(),
            slice matches Some(s) ==> s@ == self@[rank as int],
    {
        if rank >= self.ranks() {
            return None;
        }
        proof {
            lemma_row_in_bounds(self.dimensions@, rank as int);
        }
        assert(self.elements@.len() == self.elements.len());
        let start: usize = self.get_element_index_unchecked([rank, 0]);
        let end: usize = start + self.dimensions[rank];
        Some(vstd::slice::slice_subrange(self.elements.as_slice(), start, end))
    }

    /// Inserts a row at position `rank`, so that it becomes row `rank` and
    /// the rows from there on move one place up. `rank` may be the number
    /// of rows, which appends.
    pub fn insert(&mut self, rank: usize, elements: Vec<T>)
        requires
            old(self).wf(),
            rank <= old(self)@.len(),
        ensures
            final(self).wf(),
            final(self)@ == old(self)@.insert(rank as int, elements@),
            final(self).lengths() == old(self).lengths().insert(rank as int, elements@.len() as usize),
            final(self).buffer() == spliced(
                old(self).buffer(),
                offset(old(self).lengths(), rank as int) as int,
                elements@,
            ),
    {
        let ghost row = elements@;
        let mut elements = elements;
        assert(elements@.len() == elements.len());
        proof {
            lemma_offset_monotone(self.dimensions@, rank as int, self.dimensions@.len() as int);
            lemma_offset_ends(self.dimensions@);
            lemma_rows_after_insert(self.dimensions@, self.elements@, rank as int, elements@);
        }
        assert(self.elements@.len() == self.elements.len());
        let start: usize = self.get_element_index_unchecked([rank, 0]);
        self.dimensions.insert(rank, elements.len());
        let mut tail: Vec<T> = self.elements.split_off(start);
        self.elements.append(&mut elements);
        self.elements.append(&mut tail);
        assert(self.elements@ =~= spliced(old(self).elements@, start as int, row));
    }

    /// Removes row `rank` and returns its elements in their order; the rows
    /// after it move one place down.
    pub fn remove(&mut self, rank: usize) -> (removed: Vec<T>)
        requires
            old(self).wf(),
            rank < old(self)@.len(),
        ensures
            final(self).wf(),
            removed@ == old(self)@[rank as int],
            final(self)@ == old(self)@.remove(rank as int),
            final(self).lengths() == old(self).lengths().remove(rank as int),
            final(self).buffer() == excised(
                old(self).buffer(),
                offset(old(self).lengths(), rank as int) as int,
                old(self).lengths()[rank as int] as int,
            ),
    {
        proof {
            lemma_row_in_bounds(self.dimensions@, rank as int);
            lemma_rows_after_remove(self.dimensions@, self.elements@, rank as int);
        }
        assert(self.elements@.len() == self.elements.len());
        let start: usize = self.get_element_index_unchecked([rank, 0]);
        let files: usize = self.dimensions.remove(rank);
        let mut removed: Vec<T> = self.elements.split_off(start);
        let mut tail: Vec<T> = removed.split_off(files);
        self.elements.append(&mut tail);
        assert(self.elements@ =~= excised(old(self).elements@, start as int, files as int));
        assert(removed@ =~= row(old(self).dimensions@, old(self).elements@, rank as int));
        removed
    }

    /// Appends a row after the last one.
    pub fn push(&mut self, rank: Vec<T>)
        requires
            old(self).wf(),
        ensures
            final(self).wf(),
            final(self)@ == old(self)@.push(rank@),
            final(self).lengths() == old(self).lengths().push(rank@.len() as usize),
            final(self).buffer() == old(self).buffer() + rank@,
    {
        let mut rank = rank;
        assert(rank@.len() == rank.len());
        proof {
            let dims = self.dimensions@;
            let elems = self.elements@;
            lemma_offset_ends(dims);
            lemma_rows_after_insert(dims, elems, dims.len() as int, rank@);
            assert(dims.insert(dims.len() as int, rank@.len() as usize) =~= dims.push(
                rank@.len() as usize,
            ));
            assert(spliced(elems, elems.len() as int, rank@) =~= elems + rank@);
            assert(rows(dims, elems).insert(dims.len() as int, rank@) =~= rows(dims, elems).push(
                rank@,
            ));
        }
        self.dimensions.push(rank.len());
        self.elements.append(&mut rank);
    }

    /// Removes the last row and returns its elements in their order, or
    /// returns `None` and changes nothing where the array has no rows.
    pub fn pop(&mut self) -> (popped: Option<Vec<T>>)
        requires
            old(self).wf(),
        ensures
            final(self).wf(),
            popped is Some <==> old(self)@.len() > 0,
            match popped {
                Some(last) => {
                    &&& last@ == old(self)@.last()
                    &&& final(self)@ == old(self)@.drop_last()
                    &&& final(self).lengths() == old(self).lengths().drop_last()
                    &&& final(self).buffer() == old(self).buffer().take(
                        old(self).buffer().len() - old(self).lengths().last(),
                    )
                },
                None => {
                    &&& final(self).lengths() == old(self).lengths()
                    &&& final(self).buffer() == old(self).buffer()
                },
            },
    {
        proof {
            let dims = self.dimensions@;
            let elems = self.elements@;
            if dims.len() > 0 {
                let last = dims.len() - 1;
                lemma_offset_step(dims, last);
                lemma_offset_ends(dims);
                lemma_rows_after_remove(dims, elems, last);
                assert(dims.remove(last) =~= dims.drop_last());
                assert(excised(elems, offset(dims, last) as int, dims[last] as int) =~= elems.take(
                    elems.len() - dims[last],
                ));
                assert(rows(dims, elems).remove(last) =~= rows(dims, elems).drop_last());
            }
        }
        match self.dimensions.pop() {
            Some(files) => {
                let start: usize = self.elements.len() - files;
                let popped: Vec<T> = self.elements.split_off(start);
                assert(self.dimensions@ =~= old(self).dimensions@.drop_last());
                assert(self.elements@ =~= old(self).elements@.take(start as int));
                assert(popped@ =~= old(self)@.last());
                Some(popped)
            },
            None => None,
        }
    }

    /// Appends a copy of the given row after the last one.
    fn push_slice(&mut self, rank: &[T]) where T: Copy
        requires
            old(self).wf(),
        ensures
            final(self).wf(),
            final(self)@ == old(self)@.push(rank@),
            final(self).lengths() == old(self).lengths().push(rank@.len() as usize),
            final(self).buffer() == old(self).buffer() + rank@,
    {
        let mut copied: Vec<T> = Vec::new();
        let mut i: usize = 0;
        while i < rank.len()
            invariant
                i <= rank@.len(),
                copied@ == rank@.take(i as int),
            decreases rank@.len() - i,
        {
            copied.push(rank[i]);
            assert(copied@ =~= rank@.take(i + 1));
            i += 1;
        }
        assert(copied@ =~= rank@);
        self.push(copied);
    }

    /// Appends a copy of each of the given rows, in their order, after the
    /// last row.
    pub fn extend_from_slices(&mut self, ranks: &[&[T]]) where T: Copy
        requires
            old(self).wf(),
        ensures
            final(self).wf(),
            final(self)@ == old(self)@ + ranks@.map_values(|rank: &[T]| rank@),
    {
        let ghost given = ranks@.map_values(|rank: &[T]| rank@);
        let mut i: usize = 0;
        assert(self@ =~= old(self)@ + given.take(0));
        while i < ranks.len()
            invariant
                self.wf(),
                i <= ranks@.len(),
                given == ranks@.map_values(|rank: &[T]| rank@),
                self@ == old(self)@ + given.take(i as int),
            decreases ranks@.len() - i,
        {
            assert(given.take(i + 1) =~= given.take(i as int).push(ranks@[i as int]@));
            self.push_slice(ranks[i]);
            i += 1;
        }
        assert(given.take(given.len() as int) =~= given);
    }

    /// Builds an array that holds the given rows, in their order.
    pub fn from_iter(ranks: Vec<Vec<T>>) -> (array: Self)
        ensures
            array.wf(),
            array@ == ranks@.map_values(|rank: Vec<T>| rank@),
    {
        let mut array: Array<T> = Array::with_capacity(ranks.len());
        array.extend(ranks);
        assert(array@ =~= ranks@.map_values(|rank: Vec<T>| rank@));
        array
    }

    /// Appends each of the given rows, in their order, after the last row.
    pub fn extend(&mut self, ranks: Vec<Vec<T>>)
        requires
            old(self).wf(),
        ensures
            final(self).wf(),
            final(self)@ == old(self)@ + ranks@.map_values(|rank: Vec<T>| rank@),
    {
        let ghost given = ranks@.map_values(|rank: Vec<T>| rank@);
        assert(self@ =~= old(self)@ + given.take(0));
        for rank in it: ranks
            invariant
                self.wf(),
                it.seq() == ranks@,
                given == ranks@.map_values(|rank: Vec<T>| rank@),
                self@ == old(self)@ + given.take(it.index() as int),
        {
            assert(given.take(it.index() + 1) =~= given.take(it.index() as int).push(rank@));
            self.push(rank);
        }
        assert(given.take(given.len() as int) =~= given);
    }
}

} // verus!
