//! The structural algorithms on arrays and values.

pub mod reverse;
pub mod transpose;
pub mod naturals;
pub mod wher;
pub mod range;
pub mod bits;
pub mod parallel;
pub mod sort;
pub mod classify;
pub mod rows;
pub mod extremum;
pub mod reshape;
pub mod depth;
pub mod deep;
pub mod strings;
