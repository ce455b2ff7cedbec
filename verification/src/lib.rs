//! A sparse Game of Life engine on the unbounded integer plane.
//!
//! The live set is a strictly ordered collection of cell coordinates; one
//! generation step tallies live neighbours of every affected coordinate and
//! applies the standard survival/birth rule, producing a fresh live set in a
//! deterministic order.

pub mod cell_system;
pub mod engine;
pub mod params;
pub mod rule;
pub mod seeding;
