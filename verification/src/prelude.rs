//! The names that most uses of the library need.

pub use crate::boxed::BitBox;
pub use crate::cursor::{BigEndian, Cursor, LittleEndian, Local};
pub use crate::slice::BitSlice;
pub use crate::store::{BitStore, Word};
pub use crate::vec::BitVec;
