//! A perfect-maze game core: a randomized spanning-tree generator over a
//! rectangular grid that labels every cell with its distance to the exit,
//! a play session with manual movement, an undo-aware breadcrumb trail and
//! label-guided automatic movement, and a label-blind depth-first solver
//! that yields its moves for animation.
//!
//! Rendering, key handling and the command line live outside the crate and
//! consume its state read-only.

pub mod game;
pub mod maze;
pub mod paths;
pub mod rng;
pub mod solver;
