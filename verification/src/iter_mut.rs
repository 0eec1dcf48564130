//! Walking an array row by row with the right to write to each row.

use crate::array::Array;
use crate::layout::{lemma_offset_ends, lemma_offset_step, lemma_row_in_bounds, offset, total};
use vstd::prelude::*;

verus! {

/// An iterator over the ranks (rows) of an [`Array`], each as a mutable
/// slice. The slices handed out are cut from the buffer one after the other
/// and never overlap. The fields are public so that contracts can speak of
/// the buffer behind the iterator, as it is now and as it will be once the
/// slices are gone.
#[derive(Debug)]
pub struct IterMut<'a, T> {
    /// The position within the array's buffer where the next row starts.
    pub start_pos: usize,
    /// The index of the next row.
    pub next_rank: usize,
    /// The length of each row.
    pub dimensions: &'a [usize],
    /// The part of the buffer that has not been handed out: the rows still
    /// to come.
    pub elements: &'a mut [T],
}

impl<'a, T> IterMut<'a, T> {
    /// The iterator stands at the start of a row, or past the last row, and
    /// holds exactly the elements of the rows still to come.
    pub open spec fn wf(&self) -> bool {
        &&& self.next_rank <= self.dimensions@.len()
        &&& self.start_pos == offset(self.dimensions@, self.next_rank as int)
        &&& self.start_pos + self.elements@.len() == total(self.dimensions@)
        &&& total(self.dimensions@) <= usize::MAX
    }

    /// Returns the number of rows still to come, as a lower and an upper
    /// bound, which are the same.
    pub fn size_hint(&self) -> (hint: (usize, Option<usize>))
        requires
            self.wf(),
        ensures
            hint.0 == self.dimensions@.len() - self.next_rank,
            hint.1 == Some(hint.0),
    {
        let left: usize = self.dimensions.len() - self.next_rank;
        (left, Some(left))
    }

    /// Hands out the next row for writing and steps past it, or returns
    /// `None` once all rows have been handed out.
    pub fn next(&mut self) -> (rank: Option<&'a mut [T]>)
        requires
            old(self).wf(),
        ensures
            final(self).wf(),
            final(self).dimensions == old(self).dimensions,
            rank is Some <==> old(self).next_rank < old(self).dimensions@.len(),
            match rank {
                Some(slice) => {
                    &&& slice@.len() == old(self).dimensions@[old(self).next_rank as int]
                    &&& slice@ == old(self).elements@.take(
                        old(self).dimensions@[old(self).next_rank as int] as int,
                    )
                    &&& final(self).elements@ == old(self).elements@.skip(
                        old(self).dimensions@[old(self).next_rank as int] as int,
                    )
                    &&& final(self).next_rank == old(self).next_rank + 1
                    &&& final(self).start_pos == old(self).start_pos + slice@.len()
                    &&& final(old(self).elements)@ == final(slice)@ + final(final(self).elements)@
                },
                None => {
                    &&& final(self).next_rank == old(self).next_rank
                    &&& final(self).start_pos == old(self).start_pos
                    &&& final(self).elements@ == old(self).elements@
                    &&& final(final(self).elements)@ == final(old(self).elements)@
                    &&& old(self).elements@.len() == 0
                    &&& old(self).start_pos == total(old(self).dimensions@)
                },
            },
    {
        proof {
            lemma_offset_ends(self.dimensions@);
        }
        if self.next_rank >= self.dimensions.len() {
            return None;
        }
        proof {
            lemma_row_in_bounds(self.dimensions@, self.next_rank as int);
            lemma_offset_step(self.dimensions@, self.next_rank as int);
        }
        let files: usize = self.dimensions[self.next_rank];
        let mut rest: &'a mut [T] = &mut [];
        core::mem::swap(&mut self.elements, &mut rest);
        let (slice, tail) = rest.split_at_mut(files);
        self.elements = tail;
        self.start_pos = self.start_pos + files;
        self.next_rank = self.next_rank + 1;
        Some(slice)
    }
}

impl<T> Array<T> {
    /// Returns a mutable iterator over all of the ranks (rows) of this
    /// `Array`. What is written to the rows it hands out is what the array
    /// holds once they are gone; the length table stays as it is.
    pub fn iter_mut<'a>(&'a mut self) -> (iter: IterMut<'a, T>)
        requires
            old(self).wf(),
        ensures
            iter.wf(),
            iter.next_rank == 0,
            iter.start_pos == 0,
            iter.dimensions@ == old(self).lengths(),
            iter.elements@ == old(self).buffer(),
            final(self).lengths() == old(self).lengths(),
            final(self).buffer() == final(iter.elements)@,
    {
        proof {
            lemma_offset_ends(self.dimensions@);
        }
        assert(self.elements@.len() == self.elements.len());
        IterMut {
            start_pos: 0,
            next_rank: 0,
            dimensions: self.dimensions.as_slice(),
            elements: self.elements.as_mut_slice(),
        }
    }
}

} // verus!
