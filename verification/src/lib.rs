//! Steppable maze generation over a rectangular grid.
//!
//! The grid, the maze's gate model, four carving algorithms written as
//! resumable state machines, the cooperative executor that drives them,
//! and the breadth-first distance map computed over the carved maze.
//! Every step is one atomic action, so a driver can advance a maze one
//! tick at a time, run a task to completion, or drain a whole queue.

pub mod binary_tree;
pub mod carving;
pub mod depth;
pub mod freewalk;
pub mod grid;
pub mod highmap;
pub mod location;
pub mod maze;
pub mod pathwalk;
pub mod seeding;
pub mod spanning;
mod rng;
pub mod task;
pub mod walker;
