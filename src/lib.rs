//! A two-dimensional particle simulation core with simplified covalent
//! bonding: an element table, a particle and bond model, a uniform spatial
//! grid for neighbour discovery, and the per-step bond reconciliation engine.

pub mod element;
pub mod geometry;
pub mod particle;
pub mod bonding;
pub mod particle_grid;
pub mod laws;
