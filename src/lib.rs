//! A fixed-arena, first-fit free-list allocator whose metadata lives in the
//! arena itself, and a growable container, a string and a box that take
//! their storage from it.
pub mod layout;
pub mod heap;
pub mod manager;
pub mod my_vec;
pub mod my_string;
pub mod boxed;

pub use manager::{AllocError, FreeReport, Manager, debug_free, my_alloc, my_free};
pub use my_vec::{MyDrain, MyVec, MyVecIntoIter, MyVecIter, MyVecIterMut};
pub use my_string::MyString;
pub use boxed::MyBox;
