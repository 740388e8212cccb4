//! A static index over overlapping numeric ranges ("bins"), answering which
//! ranges contain a given normalized identifier prefix.
//!
//! Values of one to six digits are brought to a six-digit scale; an interval's
//! upper bound is widened to the last value that shares its prefix. The index
//! cuts the number line at every bound, and each cell keeps the bins that cover
//! it up to the next cut. A query for a value equal to a bin's upper bound lands
//! in the cell that starts there, which that bin does not cover: a bin answers
//! for the values `from <= v < to`.

pub mod index;
pub mod normalize;
pub mod text;

pub use index::BinTable;
pub use normalize::{standardize, Bin, BinError, Bound};
