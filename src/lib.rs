//! Enumeration of Feynman diagrams from a Lagrangian given as a list of
//! interaction terms.
pub mod field;
pub mod lagrangian;
pub mod graph;
pub mod diagram;
pub mod render;
pub mod notation;
