//! A handle on one row of an array, through which single elements of that
//! row are inserted and removed.

use crate::array::Array;
use crate::layout::{
    excised, lemma_offset_after_update, lemma_row_in_bounds, lemma_rows_after_row_excise,
    lemma_rows_after_row_splice, offset, overwritten, row, spliced,
};
use vstd::prelude::*;

verus! {

/// A mutable reference to a rank (row) in an [`Array`].
///
/// While the handle lives it holds the whole array; nothing else can read
/// or change the array until the handle is gone. The fields are public so
/// that contracts can speak of the array behind the handle, as it is now
/// and as it will be once the handle is gone.
#[derive(Debug)]
pub struct Rank<'a, T> {
    /// The index of the row.
    pub rank: usize,
    /// Where the row starts in the flat buffer.
    pub start_pos: usize,
    /// The array that the row belongs to.
    pub array: &'a mut Array<T>,
}

impl<'a, T> View for Rank<'a, T> {
    type V = Seq<T>;

    /// The elements of the row.
    open spec fn view(&self) -> Seq<T> {
        self.array@[self.rank as int]
    }
}

impl<'a, T> Rank<'a, T> {
    /// The handle names a row of a well-formed array and knows where that
    /// row starts.
    pub open spec fn wf(&self) -> bool {
        &&& self.array.wf()
        &&& self.rank < self.array.lengths().len()
        &&& self.start_pos == offset(self.array.lengths(), self.rank as int)
    }

    /// Returns the row as a slice.
    pub fn as_slice(&self) -> (slice: &[T])
        requires
            self.wf(),
        ensures
            slice@ == self@,
    {
        proof {
            lemma_row_in_bounds(self.array.dimensions@, self.rank as int);
        }
        assert(self.array.elements@.len() == self.array.elements.len());
        let end: usize = self.start_pos + self.array.files(self.rank);
        vstd::slice::slice_subrange(self.array.elements.as_slice(), self.start_pos, end)
    }

    /// Returns the row as a mutable slice. What is written through the
    /// slice changes the elements of this row and nothing else.
    pub fn as_mut_slice(&mut self) -> (slice: &mut [T])
        requires
            old(self).wf(),
        ensures
            slice@ == old(self)@,
            final(self).rank == old(self).rank,
            final(self).start_pos == old(self).start_pos,
            *final(final(self).array) == *final(old(self).array),
            final(self).array.lengths() == old(self).array.lengths(),
            final(self).array.buffer() == overwritten(
                old(self).array.buffer(),
                old(self).start_pos as int,
                old(self)@.len() as int,
                final(slice)@,
            ),
            final(slice)@.len() == slice@.len() ==> final(self).wf() && final(self).array@ == old(
                self,
            ).array@.update(old(self).rank as int, final(slice)@),
    {
        self.array.rank_slice_mut(self.rank, self.start_pos)
    }

    /// Gives up the handle for the row as a mutable slice that lives as long
    /// as the borrow of the array. What is written through the slice changes
    /// the elements of this row and nothing else.
    pub fn into_mut_slice(self) -> (slice: &'a mut [T])
        requires
            self.wf(),
        ensures
            slice@ == self@,
            final(self.array).lengths() == old(self.array).lengths(),
            final(self.array).buffer() == overwritten(
                old(self.array).buffer(),
                self.start_pos as int,
                self@.len() as int,
                final(slice)@,
            ),
            final(slice)@.len() == slice@.len() ==> final(self.array).wf() && final(self.array)@
                == old(self.array)@.update(self.rank as int, final(slice)@),
    {
        let Rank { rank, start_pos, array } = self;
        array.rank_slice_mut(rank, start_pos)
    }

    /// Inserts `value` into the row at position `index` of the row, so that
    /// it becomes element `index` and the elements from there on move one
    /// place up. `index` may be the length of the row, which appends.
    pub fn insert(&mut self, index: usize, value: T)
        requires
            old(self).wf(),
            index <= old(self)@.len(),
        ensures
            final(self).wf(),
            final(self).rank == old(self).rank,
            final(self).start_pos == old(self).start_pos,
            *final(final(self).array) == *final(old(self).array),
            final(self)@ == old(self)@.insert(index as int, value),
            final(self).array@ == old(self).array@.update(
                old(self).rank as int,
                old(self)@.insert(index as int, value),
            ),
            final(self).array.lengths() == old(self).array.lengths().update(
                old(self).rank as int,
                (old(self)@.len() + 1) as usize,
            ),
            final(self).array.buffer() == old(self).array.buffer().insert(
                old(self).start_pos + index,
                value,
            ),
    {
        let files: usize = self.array.dimensions[self.rank];
        proof {
            let dims = self.array.dimensions@;
            let elems = self.array.elements@;
            lemma_row_in_bounds(dims, self.rank as int);
        }
        assert(self.array.elements@.len() == self.array.elements.len());
        self.array.elements.insert(self.start_pos + index, value);
        assert(self.array.elements@.len() == self.array.elements.len());
        self.array.dimensions[self.rank] = files + 1;
        proof {
            let dims = old(self).array.dimensions@;
            let elems = old(self).array.elements@;
            lemma_rows_after_row_splice(dims, elems, self.rank as int, index as int, seq![value]);
            lemma_offset_after_update(dims, self.rank as int, (files + 1) as usize, self.rank as int);
            assert(spliced(elems, self.start_pos + index, seq![value]) =~= elems.insert(
                self.start_pos + index,
                value,
            ));
            assert(spliced(row(dims, elems, self.rank as int), index as int, seq![value])
                =~= row(dims, elems, self.rank as int).insert(index as int, value));
        }
    }

    /// Removes the element at position `index` of the row and returns it;
    /// the elements after it move one place down.
    pub fn remove(&mut self, index: usize) -> (removed: T)
        requires
            old(self).wf(),
            index < old(self)@.len(),
        ensures
            final(self).wf(),
            final(self).rank == old(self).rank,
            final(self).start_pos == old(self).start_pos,
            *final(final(self).array) == *final(old(self).array),
            removed == old(self)@[index as int],
            final(self)@ == old(self)@.remove(index as int),
            final(self).array@ == old(self).array@.update(
                old(self).rank as int,
                old(self)@.remove(index as int),
            ),
            final(self).array.lengths() == old(self).array.lengths().update(
                old(self).rank as int,
                (old(self)@.len() - 1) as usize,
            ),
            final(self).array.buffer() == old(self).array.buffer().remove(
                old(self).start_pos + index,
            ),
    {
        let files: usize = self.array.dimensions[self.rank];
        proof {
            let dims = self.array.dimensions@;
            let elems = self.array.elements@;
            lemma_row_in_bounds(dims, self.rank as int);
            lemma_rows_after_row_excise(dims, elems, self.rank as int, index as int, 1);
            lemma_offset_after_update(dims, self.rank as int, (files - 1) as usize, self.rank as int);
            assert(excised(elems, self.start_pos + index, 1) =~= elems.remove(
                self.start_pos + index,
            ));
            assert(excised(row(dims, elems, self.rank as int), index as int, 1) =~= row(
                dims,
                elems,
                self.rank as int,
            ).remove(index as int));
        }
        assert(self.array.elements@.len() == self.array.elements.len());
        self.array.dimensions[self.rank] = files - 1;
        self.array.elements.remove(self.start_pos + index)
    }

    /// Appends `value` to the row.
    pub fn push(&mut self, value: T)
        requires
            old(self).wf(),
        ensures
            final(self).wf(),
            final(self).rank == old(self).rank,
            final(self).start_pos == old(self).start_pos,
            *final(final(self).array) == *final(old(self).array),
            final(self)@ == old(self)@.push(value),
            final(self).array@ == old(self).array@.update(
                old(self).rank as int,
                old(self)@.push(value),
            ),
            final(self).array.lengths() == old(self).array.lengths().update(
                old(self).rank as int,
                (old(self)@.len() + 1) as usize,
            ),
            final(self).array.buffer() == old(self).array.buffer().insert(
                old(self).start_pos + old(self)@.len(),
                value,
            ),
    {
        proof {
            lemma_row_in_bounds(self.array.dimensions@, self.rank as int);
            assert(self@.insert(self@.len() as int, value) =~= self@.push(value));
        }
        let files: usize = self.array.dimensions[self.rank];
        self.insert(files, value);
    }

    /// Removes the last element of the row and returns it, or returns `None`
    /// and changes nothing where the row is empty.
    pub fn pop(&mut self) -> (popped: Option<T>)
        requires
            old(self).wf(),
        ensures
            final(self).wf(),
            final(self).rank == old(self).rank,
            final(self).start_pos == old(self).start_pos,
            *final(final(self).array) == *final(old(self).array),
            popped is Some <==> old(self)@.len() > 0,
            match popped {
                Some(last) => {
                    &&& last == old(self)@.last()
                    &&& final(self)@ == old(self)@.drop_last()
                    &&& final(self).array@ == old(self).array@.update(
                        old(self).rank as int,
                        old(self)@.drop_last(),
                    )
                    &&& final(self).array.lengths() == old(self).array.lengths().update(
                        old(self).rank as int,
                        (old(self)@.len() - 1) as usize,
                    )
                    &&& final(self).array.buffer() == old(self).array.buffer().remove(
                        old(self).start_pos + old(self)@.len() - 1,
                    )
                },
                None => {
                    &&& final(self).array.lengths() == old(self).array.lengths()
                    &&& final(self).array.buffer() == old(self).array.buffer()
                },
            },
    {
        proof {
            lemma_row_in_bounds(self.array.dimensions@, self.rank as int);
            if self@.len() > 0 {
                assert(self@.remove(self@.len() - 1) =~= self@.drop_last());
            }
        }
        let files: usize = self.array.dimensions[self.rank];
        if files == 0 {
            None
        } else {
            Some(self.remove(files - 1))
        }
    }

    /// Appends all of `items`, in their order, to the row. The row's length
    /// grows by the number of items that were given.
    pub fn extend(&mut self, items: Vec<T>)
        requires
            old(self).wf(),
        ensures
            final(self).wf(),
            final(self).rank == old(self).rank,
            final(self).start_pos == old(self).start_pos,
            *final(final(self).array) == *final(old(self).array),
            final(self)@ == old(self)@ + items@,
            final(self).array@ == old(self).array@.update(
                old(self).rank as int,
                old(self)@ + items@,
            ),
            final(self).array.lengths() == old(self).array.lengths().update(
                old(self).rank as int,
                (old(self)@.len() + items@.len()) as usize,
            ),
            final(self).array.buffer() == spliced(
                old(self).array.buffer(),
                old(self).start_pos + old(self)@.len(),
                items@,
            ),
    {
        let ghost given = items@;
        let mut items = items;
        let files: usize = self.array.dimensions[self.rank];
        let added: usize = items.len();
        proof {
            lemma_row_in_bounds(self.array.dimensions@, self.rank as int);
        }
        assert(self.array.elements@.len() == self.array.elements.len());
        let end: usize = self.start_pos + files;
        let mut tail: Vec<T> = self.array.elements.split_off(end);
        self.array.elements.append(&mut items);
        self.array.elements.append(&mut tail);
        assert(self.array.elements@.len() == self.array.elements.len());
        self.array.dimensions[self.rank] = files + added;
        proof {
            let dims = old(self).array.dimensions@;
            let elems = old(self).array.elements@;
            lemma_rows_after_row_splice(dims, elems, self.rank as int, files as int, given);
            lemma_offset_after_update(
                dims,
                self.rank as int,
                (files + added) as usize,
                self.rank as int,
            );
            assert(self.array.elements@ =~= spliced(elems, end as int, given));
            assert(spliced(row(dims, elems, self.rank as int), files as int, given) =~= row(
                dims,
                elems,
                self.rank as int,
            ) + given);
        }
    }
}

impl<T> Array<T> {
    /// A panic free way to reach a rank of an `Array` for writing: a handle
    /// on the row, or `None` where there is no such row. Whatever is done
    /// through the handle is what the array holds once the handle is gone.
    pub fn rank_mut<'a>(&'a mut self, rank: usize) -> (handle: Option<Rank<'a, T>>)
        requires
            old(self).wf(),
        ensures
            handle is Some <==> rank < old(self)@.len(),
            match handle {
                Some(r) => {
                    &&& r.wf()
                    &&& r.rank == rank
                    &&& *r.array == *old(self)
                    &&& *final(r.array) == *final(self)
                },
                None => *final(self) == *old(self),
            },
    {
        if rank >= self.ranks() {
            return None;
        }
        assert(self.elements@.len() == self.elements.len());
        proof {
            lemma_row_in_bounds(self.dimensions@, rank as int);
        }
        let start_pos: usize = self.get_element_index_unchecked([rank, 0]);
        Some(Rank { rank, start_pos, array: self })
    }
}

} // verus!
