//! Exact cover with optional items, solved by dancing links.
//!
//! An exact cover problem has items and options. Each option covers some of
//! the items. A solution is a choice of options that covers every primary
//! item exactly once and every other item at most once. The [`Solver`] finds
//! the solutions one after the other, in a fixed order, and can stop after
//! each of them.
//!
//! The module [`search`] says, over the problem alone, which solutions there
//! are to find and in which order; [`laws`] proves that they are the exact
//! covers, each found once. The modules [`mesh`], [`layout`], [`trail`] and
//! [`course`] describe the link mesh that the solver works on.
//!
//! [`Queens`], [`Sudoku`] and [`Aztec`] state well known puzzles as exact
//! cover problems.

pub mod aztec;
pub mod course;
pub mod frames;
pub mod label;
pub mod laws;
pub mod layout;
pub mod link;
pub mod mesh;
pub mod problem;
pub mod queens;
pub mod search;
pub mod show;
pub mod solver;
pub mod sudoku;
pub mod trail;

pub use crate::aztec::Aztec;
pub use crate::queens::Queens;
pub use crate::solver::Solver;
pub use crate::sudoku::Sudoku;
