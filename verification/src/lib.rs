//! Runtime support for programs that bring their own memory: an allocator
//! over an explicit heap, an owning pointer, a reference-counted shared
//! pointer, fixed-capacity arrays and a fixed-size formatting buffer.

pub mod allocator;
pub mod container;
pub mod heap;
pub mod io;
pub mod prelude;
