//! Comparing arrays and rows, and copying whole arrays.

use crate::array::Array;
use crate::layout::lemma_row_in_bounds;
use crate::rank::Rank;
use vstd::prelude::*;
use vstd::std_specs::cmp::{PartialEqSpec, PartialEqSpecImpl};

verus! {

impl<T: PartialEq<U>, U> PartialEq<Array<U>> for Array<T> {
    /// Two arrays are equal where their length tables are the same and
    /// their buffers hold equal elements in the same order.
    fn eq(&self, rhs: &Array<U>) -> (equal: bool) {
        let same_lengths: bool = self.dimensions == rhs.dimensions;
        assert(same_lengths == (self.dimensions@ =~= rhs.dimensions@));
        same_lengths && self.elements == rhs.elements
    }
}

impl<T: PartialEq<U>, U> PartialEqSpecImpl<Array<U>> for Array<T> {
    open spec fn obeys_eq_spec() -> bool {
        <T as PartialEqSpec<U>>::obeys_eq_spec()
    }

    open spec fn eq_spec(&self, other: &Array<U>) -> bool {
        &&& self.lengths() == other.lengths()
        &&& self.buffer().len() == other.buffer().len()
        &&& forall|i: int|
            0 <= i < self.buffer().len() ==> #[trigger] self.buffer()[i].eq_spec(
                &other.buffer()[i],
            )
    }
}

/// Compares two slices element by element.
fn slices_equal<T: PartialEq<U>, U>(left: &[T], right: &[U]) -> (equal: bool)
    ensures
        <T as PartialEqSpec<U>>::obeys_eq_spec() ==> equal == seqs_equal(left@, right@),
{
    if left.len() != right.len() {
        return false;
    }
    let mut i: usize = 0;
    while i < left.len()
        invariant
            i <= left@.len(),
            left@.len() == right@.len(),
            <T as PartialEqSpec<U>>::obeys_eq_spec() ==> forall|j: int|
                0 <= j < i ==> #[trigger] left@[j].eq_spec(&right@[j]),
        decreases left@.len() - i,
    {
        if !(left[i] == right[i]) {
            return false;
        }
        i += 1;
    }
    true
}

/// Two sequences are as long and hold equal elements in the same order.
pub open spec fn seqs_equal<T: PartialEq<U>, U>(left: Seq<T>, right: Seq<U>) -> bool {
    &&& left.len() == right.len()
    &&& forall|j: int| 0 <= j < left.len() ==> #[trigger] left[j].eq_spec(&right[j])
}

impl<'a, T> Rank<'a, T> {
    /// The row's entry in the length table, or `0` where the handle names no
    /// row of its array.
    pub open spec fn files(&self) -> nat {
        if self.rank < self.array.lengths().len() {
            self.array.lengths()[self.rank as int] as nat
        } else {
            0
        }
    }

    /// The stretch of the buffer that the handle points at lies inside the
    /// buffer. A well-formed handle always does.
    pub open spec fn in_bounds(&self) -> bool {
        self.start_pos + self.files() <= self.array.buffer().len()
    }

    /// The stretch of the buffer that the handle points at. For a
    /// well-formed handle this is the row.
    pub open spec fn stretch(&self) -> Seq<T> {
        self.array.buffer().subrange(self.start_pos as int, self.start_pos + self.files())
    }

    /// Returns the row as a slice, or `None` where the handle does not point
    /// inside the buffer.
    fn checked_slice(&self) -> (slice: Option<&[T]>)
        ensures
            slice is Some <==> self.in_bounds(),
            slice matches Some(s) ==> s@ == self.stretch(),
    {
        assert(self.array.elements@.len() == self.array.elements.len());
        let files: usize = self.array.files(self.rank);
        match self.start_pos.checked_add(files) {
            Some(end) => {
                if end <= self.array.elements.len() {
                    Some(
                        vstd::slice::slice_subrange(
                            self.array.elements.as_slice(),
                            self.start_pos,
                            end,
                        ),
                    )
                } else {
                    None
                }
            },
            None => None,
        }
    }
}

impl<'a, T: PartialEq<U>, U> PartialEq<[U]> for Rank<'a, T> {
    /// A row is equal to a slice where both are as long and hold equal
    /// elements in the same order.
    fn eq(&self, rhs: &[U]) -> (equal: bool) {
        match self.checked_slice() {
            Some(slice) => slices_equal(slice, rhs),
            None => false,
        }
    }
}

impl<'a, T: PartialEq<U>, U> PartialEqSpecImpl<[U]> for Rank<'a, T> {
    open spec fn obeys_eq_spec() -> bool {
        <T as PartialEqSpec<U>>::obeys_eq_spec()
    }

    open spec fn eq_spec(&self, other: &[U]) -> bool {
        self.in_bounds() && seqs_equal(self.stretch(), other@)
    }
}

impl<'a, 'b, T: PartialEq<U>, U> PartialEq<Rank<'b, U>> for Rank<'a, T> {
    /// Two rows are equal where both are as long and hold equal elements in
    /// the same order.
    fn eq(&self, rhs: &Rank<'b, U>) -> (equal: bool) {
        match self.checked_slice() {
            Some(left) => match rhs.checked_slice() {
                Some(right) => slices_equal(left, right),
                None => false,
            },
            None => false,
        }
    }
}

impl<'a, 'b, T: PartialEq<U>, U> PartialEqSpecImpl<Rank<'b, U>> for Rank<'a, T> {
    open spec fn obeys_eq_spec() -> bool {
        <T as PartialEqSpec<U>>::obeys_eq_spec()
    }

    open spec fn eq_spec(&self, other: &Rank<'b, U>) -> bool {
        self.in_bounds() && other.in_bounds() && seqs_equal(self.stretch(), other.stretch())
    }
}

/// A well-formed handle points inside the buffer, at its row.
pub proof fn lemma_stretch_is_row<'a, T>(rank: &Rank<'a, T>)
    requires
        rank.wf(),
    ensures
        rank.in_bounds(),
        rank.stretch() == rank@,
{
    lemma_row_in_bounds(rank.array.lengths(), rank.rank as int);
}

impl<T> Default for Array<T> {
    /// The empty array: no rows and no elements.
    fn default() -> (array: Self)
        ensures
            array.wf(),
            array.lengths() == Seq::<usize>::empty(),
            array.buffer() == Seq::<T>::empty(),
    {
        Array::new()
    }
}

impl<T: Clone> Clone for Array<T> {
    /// An array with the same length table whose buffer holds a clone of
    /// each element.
    fn clone(&self) -> (copy: Self)
        ensures
            copy.lengths() == self.lengths(),
            copy.buffer().len() == self.buffer().len(),
            forall|i: int|
                0 <= i < self.buffer().len() ==> cloned(self.buffer()[i], #[trigger] copy.buffer()[i]),
            self.wf() ==> copy.wf(),
    {
        let dimensions: Vec<usize> = self.dimensions.clone();
        assert(dimensions@ =~= self.dimensions@);
        let elements: Vec<T> = self.elements.clone();
        Array { dimensions, elements }
    }
}

} // verus!
