//! The names most programs want in scope.

pub use crate::allocator::Box;
pub use crate::container::{Array, FixedArray, Rc};
pub use crate::heap::Heap;
pub use crate::io::StringWriter;
