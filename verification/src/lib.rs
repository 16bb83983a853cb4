//! Molecular-dynamics configuration snapshots in the GROMOS87 fixed-width
//! text format: an interned residue/atom data model, a residue-grouping
//! iterator that reconstructs residue boundaries from a flat atom list, and
//! a fixed-width codec that parses and re-emits atom records.
//!
//! Coordinates are fixed-point numbers held in integer units of 1e-5, which
//! is exactly the finest precision the format itself carries (box sizes are
//! written with five decimals, velocities with four, positions with three).

pub mod conf;
pub mod error;
pub mod fixed;
pub mod gromos87;
pub mod rvec;
pub mod text;

pub use conf::{get_or_insert_atom_and_residue, Atom, Conf, NameRef, Residue, ResidueIter};
pub use rvec::RVec;
