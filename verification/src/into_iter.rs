//! Taking an array apart element by element.

use crate::array::Array;
use crate::layout::{
    entries, entries_from, lemma_offset_ends, lemma_offset_step, lemma_rank_at,
    lemma_row_in_bounds, offset, total,
};
use vstd::prelude::*;

verus! {

/// An iterator over the elements of an [`Array`] in row-major order, each
/// with its rank and its file.
#[derive(Debug)]
pub struct IntoIter<T> {
    /// The rank of the next element.
    rank: usize,
    /// The file of the next element, or the length of row `rank` where that
    /// row has been used up.
    file: usize,
    /// The length of each row.
    dimensions: Vec<usize>,
    /// The elements still to come, the next one last.
    elements: Vec<T>,
}

impl<T> View for IntoIter<T> {
    type V = Seq<(int, int, T)>;

    /// The elements still to come, in order, each as rank, file and value.
    open spec fn view(&self) -> Seq<(int, int, T)> {
        entries_from(self.lengths(), self.yielded() as int, self.rest())
    }
}

impl<T> IntoIter<T> {
    /// The length table of the array that was taken apart.
    pub closed spec fn lengths(&self) -> Seq<usize> {
        self.dimensions@
    }

    /// How many elements have been handed out.
    pub closed spec fn yielded(&self) -> nat {
        offset(self.dimensions@, self.rank as int) + self.file as nat
    }

    /// The values still to come, in order.
    pub closed spec fn rest(&self) -> Seq<T> {
        self.elements@.reverse()
    }

    /// The iterator stands inside a row, or past the last row, and the
    /// elements handed out and those still to come are as many as the
    /// length table says.
    pub closed spec fn wf(&self) -> bool {
        &&& self.rank <= self.dimensions@.len()
        &&& self.rank < self.dimensions@.len() ==> self.file <= self.dimensions@[self.rank as int]
        &&& self.rank == self.dimensions@.len() ==> self.file == 0
        &&& self.yielded() + self.elements@.len() == total(self.dimensions@)
    }

    /// Returns the number of elements still to come, as a lower and an
    /// upper bound, which are the same.
    pub fn size_hint(&self) -> (hint: (usize, Option<usize>))
        ensures
            hint.0 == self@.len(),
            hint.1 == Some(hint.0),
    {
        let left: usize = self.elements.len();
        (left, Some(left))
    }

    /// Hands out the next element with its rank and file, or returns `None`
    /// once all elements have been handed out.
    pub fn next(&mut self) -> (item: Option<([usize; 2], T)>)
        requires
            old(self).wf(),
        ensures
            final(self).wf(),
            final(self).lengths() == old(self).lengths(),
            item is Some <==> old(self)@.len() > 0,
            match item {
                Some((index, value)) => {
                    &&& (index[0] as int, index[1] as int, value) == old(self)@[0]
                    &&& index[0] < old(self).lengths().len()
                    &&& index[1] < old(self).lengths()[index[0] as int]
                    &&& final(self)@ == old(self)@.drop_first()
                    &&& final(self).yielded() == old(self).yielded() + 1
                },
                None => {
                    &&& final(self)@ == old(self)@
                    &&& final(self).yielded() == old(self).yielded()
                    &&& final(self).yielded() == total(final(self).lengths())
                },
            },
    {
        while self.rank < self.dimensions.len() && self.file >= self.dimensions[self.rank]
            invariant
                self.wf(),
                self.dimensions == old(self).dimensions,
                self.elements == old(self).elements,
                self.yielded() == old(self).yielded(),
            decreases self.dimensions@.len() - self.rank,
        {
            proof {
                lemma_offset_step(self.dimensions@, self.rank as int);
            }
            self.rank = self.rank + 1;
            self.file = 0;
        }
        proof {
            lemma_offset_ends(self.dimensions@);
        }
        if self.rank >= self.dimensions.len() {
            return None;
        }
        proof {
            lemma_row_in_bounds(self.dimensions@, self.rank as int);
            lemma_rank_at(self.dimensions@, self.rank as int, self.file as int);
        }
        match self.elements.pop() {
            Some(value) => {
                let index: [usize; 2] = [self.rank, self.file];
                self.file = self.file + 1;
                assert(self@ =~= old(self)@.drop_first());
                Some((index, value))
            },
            None => None,
        }
    }
}

impl<T> Array<T> {
    /// Takes the array apart: returns an iterator over its elements in
    /// row-major order, each with its rank and its file.
    pub fn into_iter(self) -> (iter: IntoIter<T>)
        requires
            self.wf(),
        ensures
            iter.wf(),
            iter.lengths() == self.lengths(),
            iter.yielded() == 0,
            iter@ == entries(self.lengths(), self.buffer()),
    {
        let ghost buffer = self.elements@;
        let mut elements: Vec<T> = self.elements;
        let mut reversed: Vec<T> = Vec::new();
        while elements.len() > 0
            invariant
                elements@.len() <= buffer.len(),
                elements@ == buffer.take(elements@.len() as int),
                reversed@ == buffer.skip(elements@.len() as int).reverse(),
            decreases elements@.len(),
        {
            let ghost before = elements@.len() as int;
            match elements.pop() {
                Some(value) => {
                    reversed.push(value);
                    assert(elements@ =~= buffer.take(before - 1));
                    assert(reversed@ =~= buffer.skip(before - 1).reverse());
                },
                None => {},
            }
        }
        proof {
            lemma_offset_ends(self.dimensions@);
            assert(buffer.skip(0) =~= buffer);
            assert(buffer.reverse().reverse() =~= buffer);
        }
        IntoIter { rank: 0, file: 0, dimensions: self.dimensions, elements: reversed }
    }
}

} // verus!
