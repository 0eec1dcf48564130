//! A jagged array stored flat: a sequence of rows ("ranks") of differing
//! lengths, kept as one buffer of elements plus a table of row lengths.
//! It behaves like a `Vec<Vec<T>>` without an allocation per row.

pub mod array;
pub mod equality;
pub mod index;
pub mod into_iter;
pub mod iter;
pub mod iter_mut;
pub mod laws;
pub mod layout;
pub mod rank;

pub use crate::array::{checked_total, from_elem, from_parts, try_from_parts, Array};
pub use crate::into_iter::IntoIter;
pub use crate::iter::Iter;
pub use crate::iter_mut::IterMut;
pub use crate::rank::Rank;
