//! Reading and writing an array with `[ ]`: by a rank for a whole row, by a
//! pair of rank and file for one element. Both ask for an index that exists.

use crate::array::Array;
use crate::layout::{offset, overwritten};
use vstd::prelude::*;

verus! {

impl<T> vstd::std_specs::core::IndexSpecImpl<usize> for Array<T> {
    /// The array is well-formed and has a row `index`.
    open spec fn index_req(&self, index: &usize) -> bool {
        self.wf() && *index < self@.len()
    }
}

impl<T> std::ops::Index<usize> for Array<T> {
    type Output = [T];

    /// The row `index` as a slice.
    fn index(&self, index: usize) -> (rank: &[T])
        ensures
            rank@ == self@[index as int],
    {
        self.rank(index).unwrap()
    }
}

impl<T> vstd::std_specs::core::IndexSpecImpl<[usize; 2]> for Array<T> {
    /// The array is well-formed and has an element at rank `index[0]` and
    /// file `index[1]`.
    open spec fn index_req(&self, index: &[usize; 2]) -> bool {
        self.wf() && index[0] < self@.len() && index[1] < self@[index[0] as int].len()
    }
}

impl<T> std::ops::Index<[usize; 2]> for Array<T> {
    type Output = T;

    /// The element at rank `index[0]` and file `index[1]`.
    fn index(&self, index: [usize; 2]) -> (element: &T)
        ensures
            *element == self@[index[0] as int][index[1] as int],
    {
        self.get(index).unwrap()
    }
}

impl<T> std::ops::IndexMut<usize> for Array<T> {
    /// The row `index` as a mutable slice. What is written through the slice
    /// changes the elements of that row and nothing else.
    fn index_mut(&mut self, index: usize) -> (rank: &mut [T])
        requires
            old(self).wf(),
            index < old(self)@.len(),
        ensures
            rank@ == old(self)@[index as int],
            final(self).lengths() == old(self).lengths(),
            final(self).buffer() == overwritten(
                old(self).buffer(),
                offset(old(self).lengths(), index as int) as int,
                old(self)@[index as int].len() as int,
                final(rank)@,
            ),
            final(rank)@.len() == rank@.len() ==> final(self).wf() && final(self)@ == old(
                self,
            )@.update(index as int, final(rank)@),
    {
        self.rank_mut(index).unwrap().into_mut_slice()
    }
}

impl<T> std::ops::IndexMut<[usize; 2]> for Array<T> {
    /// The element at rank `index[0]` and file `index[1]`, for writing. What
    /// is written through the reference changes that one element.
    fn index_mut(&mut self, index: [usize; 2]) -> (element: &mut T)
        requires
            old(self).wf(),
            index[0] < old(self)@.len(),
            index[1] < old(self)@[index[0] as int].len(),
        ensures
            *element == old(self)@[index[0] as int][index[1] as int],
            final(self).wf(),
            final(self).lengths() == old(self).lengths(),
            final(self).buffer() == old(self).buffer().update(
                offset(old(self).lengths(), index[0] as int) + index[1],
                *final(element),
            ),
            final(self)@ == old(self)@.update(
                index[0] as int,
                old(self)@[index[0] as int].update(index[1] as int, *final(element)),
            ),
    {
        self.get_mut(index).unwrap()
    }
}

} // verus!
