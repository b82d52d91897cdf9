//! Integer and structural core of a Lenia (continuous cellular automaton)
//! simulator: parameter modes, grid geometry for convolution, brushes and
//! food blobs, the archived species cell format, and the discrete rules of
//! the interactive front end.

pub mod grid;
pub mod lenia;
pub mod species;
pub mod text;
pub mod frontend;
