//! The reading side of the library under its second name: the same error
//! type and the same file name check as in `functions`.
pub use crate::functions::{CakeReadError, check_cake_extension, bubblepattern_fields, bubblecake_fields};
