//! Reading an array row by row.

use crate::array::Array;
use crate::layout::{consistent, lemma_offset_ends, lemma_offset_step, lemma_row_in_bounds, offset, rows};
use vstd::prelude::*;

verus! {

/// An iterator over the ranks (rows) of an [`Array`], each as a slice.
#[derive(Debug)]
pub struct Iter<'a, T> {
    /// The position within `elements` where the next row starts.
    start_pos: usize,
    /// The index of the next row.
    next_rank: usize,
    /// The length of each row.
    dimensions: &'a [usize],
    /// The elements being referenced.
    elements: &'a [T],
}

impl<'a, T> View for Iter<'a, T> {
    type V = Seq<Seq<T>>;

    /// The rows that are still to come, in order.
    open spec fn view(&self) -> Seq<Seq<T>> {
        rows(self.lengths(), self.buffer()).skip(self.position() as int)
    }
}

impl<'a, T> Iter<'a, T> {
    /// The length table of the array that is walked.
    pub closed spec fn lengths(&self) -> Seq<usize> {
        self.dimensions@
    }

    /// The flat buffer of the array that is walked.
    pub closed spec fn buffer(&self) -> Seq<T> {
        self.elements@
    }

    /// How many rows have been handed out.
    pub closed spec fn position(&self) -> nat {
        self.next_rank as nat
    }

    /// How many elements the rows handed out so far hold together.
    pub closed spec fn consumed(&self) -> nat {
        self.start_pos as nat
    }

    /// The iterator stands at the start of a row of a well-formed array, or
    /// past the last row.
    pub open spec fn wf(&self) -> bool {
        &&& consistent(self.lengths(), self.buffer())
        &&& self.position() <= self.lengths().len()
        &&& self.consumed() == offset(self.lengths(), self.position() as int)
    }

    /// Returns the number of rows still to come, as a lower and an upper
    /// bound, which are the same.
    pub fn size_hint(&self) -> (hint: (usize, Option<usize>))
        requires
            self.wf(),
        ensures
            hint.0 == self@.len(),
            hint.1 == Some(hint.0),
    {
        let left: usize = self.dimensions.len() - self.next_rank;
        (left, Some(left))
    }

    /// Hands out the next row and steps past it, or returns `None` once all
    /// rows have been handed out.
    pub fn next(&mut self) -> (rank: Option<&'a [T]>)
        requires
            old(self).wf(),
        ensures
            final(self).wf(),
            final(self).lengths() == old(self).lengths(),
            final(self).buffer() == old(self).buffer(),
            rank is Some <==> old(self)@.len() > 0,
            match rank {
                Some(slice) => {
                    &&& slice@ == old(self)@[0]
                    &&& slice@.len() == old(self).lengths()[old(self).position() as int]
                    &&& final(self)@ == old(self)@.drop_first()
                    &&& final(self).position() == old(self).position() + 1
                    &&& final(self).consumed() == old(self).consumed() + slice@.len()
                },
                None => {
                    &&& final(self).position() == old(self).position()
                    &&& final(self).consumed() == old(self).consumed()
                    &&& final(self).consumed() == final(self).buffer().len()
                },
            },
    {
        proof {
            lemma_offset_ends(self.dimensions@);
        }
        if self.next_rank >= self.dimensions.len() {
            return None;
        }
        proof {
            lemma_row_in_bounds(self.dimensions@, self.next_rank as int);
            lemma_offset_step(self.dimensions@, self.next_rank as int);
        }
        assert(self.elements@.len() == self.elements.len());
        let end: usize = self.start_pos + self.dimensions[self.next_rank];
        let rank: &'a [T] = vstd::slice::slice_subrange(self.elements, self.start_pos, end);
        self.start_pos = end;
        self.next_rank = self.next_rank + 1;
        assert(self@ =~= old(self)@.drop_first());
        Some(rank)
    }
}

impl<'a, T> Clone for Iter<'a, T> {
    /// A second iterator at the same place of the same array.
    fn clone(&self) -> (copy: Self)
        ensures
            copy == *self,
    {
        Iter {
            start_pos: self.start_pos,
            next_rank: self.next_rank,
            dimensions: self.dimensions,
            elements: self.elements,
        }
    }
}

impl<T> Array<T> {
    /// Returns an iterator over all of the ranks (rows) of this `Array`.
    pub fn iter<'a>(&'a self) -> (iter: Iter<'a, T>)
        requires
            self.wf(),
        ensures
            iter.wf(),
            iter.lengths() == self.lengths(),
            iter.buffer() == self.buffer(),
            iter.position() == 0,
            iter.consumed() == 0,
            iter@ == self@,
    {
        proof {
            lemma_offset_ends(self.dimensions@);
        }
        let iter = Iter {
            start_pos: 0,
            next_rank: 0,
            dimensions: self.dimensions.as_slice(),
            elements: self.elements.as_slice(),
        };
        assert(iter@ =~= self@);
        iter
    }
}

} // verus!
