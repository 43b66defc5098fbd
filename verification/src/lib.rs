//! Facility placement on a square lattice: a grid model that tracks which
//! towers cover which cities and which towers penalize each other, the
//! radius-based coverage index both rely on, the solvers that search the
//! placement space, and the text formats the instances and solutions are
//! exchanged in.

pub mod cache;
pub mod cli;
pub mod grid;
pub mod ilp;
pub mod parse;
pub mod point;
pub(crate) mod rng;
pub mod solvers;
pub mod text;
