//! A vector that keeps each stretch of equal neighbouring values as one run:
//! the value once, together with the position of the stretch's last element.
//!
//! Looking an element up costs a binary search over the runs; in exchange the
//! memory used grows with the number of runs, not with the number of elements.
//! Appending is constant time; replacing, inserting or removing an element
//! may move every run behind it.
//!
//! [`RleVec`] is the vector, [`Iter`] and [`Runs`] are the cursors over its
//! elements and over its runs, and [`laws`] states what holds across the
//! operations.

pub mod append;
mod cases;
pub mod convert;
pub mod edit;
pub mod extremes;
pub mod iter;
pub mod laws;
mod model;
mod steps;
pub mod table;

pub use iter::Iter;
pub use iter::Runs;
pub use table::RleVec;
pub use table::Run;
