//! The intermediate representation of a small non-strict language, a builder
//! that assembles one module of it, and a linker that merges modules into one
//! program.

pub mod err;
pub mod func;
pub mod gen;
pub mod high;
pub mod module;
