//! A solver for the "Lights Out with holes" puzzle: a rectangular grid of
//! on/off cells with immutable blocked cells. Activating a non-hole cell
//! toggles it and propagates toggles along the four orthogonal rays until a
//! hole or the grid boundary stops them. The solver searches for an ordered
//! sequence of distinct activations that switches every non-hole cell on.

pub mod grid;
pub mod solver;
