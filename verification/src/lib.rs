//! Fluorescence correction of azimuthally integrated diffraction images ("cakes").
//!
//! The verified part of the library holds the logic that does not depend on
//! floating-point arithmetic: the layout of a cake in memory, the tokenizer of
//! the header fields of a cake file, the selection of cells, and the decisions
//! of the command line program.
pub mod text;
pub mod functions;
pub mod cakeio;
pub mod grid;
pub mod program;
