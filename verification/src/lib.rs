//! The array engine of an array language: shapes, typed arrays and the
//! structural algorithms on them, and the value type that dispatches over
//! the element kinds.

pub mod storage;
pub mod shape;
pub mod order;
pub mod num;
pub mod error;
pub mod element;
pub mod array;
pub mod value;
pub mod index;
pub mod text;
pub mod algorithm;
pub mod command;
