//! A deductive solver for hexagonal blue/black cell puzzles.
//!
//! The library reasons over *multiverses*: the set of all colourings of a
//! handful of cells that agree with one clue. Clues are narrowed against what
//! is already known, merged with each other, and searched for cells that take
//! the same colour in every remaining colouring.
//!
//! - [`misc`]: hexagon coordinates and the binomial coefficient.
//! - [`coord_set`], [`coord_map`]: ordered sets and maps of coordinates.
//! - [`defn`]: the cells of a puzzle; [`level`]: the text form of a puzzle.
//! - [`worlds`]: the mathematical model of a multiverse and its laws;
//!   [`multiverse`]: the multiverse itself.
//! - [`constraint`]: the multiverse of each kind of clue.
//! - [`progress`]: the cells that are known; [`registry`]: the constraints,
//!   hidden, visible and exhausted; [`compound`]: deductions from groups of
//!   constraints.
//! - [`rounds`]: the course of a solve as a mathematical function of the
//!   puzzle; [`solver`]: the solver and its results; [`env`]: its deadline.
//! - [`seqs`]: facts about sequences; [`tsp_solver`]: an order of cells.

pub mod compound;
pub mod constraint;
pub mod coord_map;
pub mod coord_set;
pub mod defn;
pub mod env;
pub mod level;
pub mod misc;
pub mod multiverse;
pub mod progress;
pub mod registry;
pub mod rounds;
pub mod seqs;
pub mod solver;
pub mod tsp_solver;
pub mod worlds;
