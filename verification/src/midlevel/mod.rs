//! The middle-levels Gray code: bitstring vertices, their plane trees and the
//! Hamiltonian cycle walk.
pub mod vertex;
pub mod tree;
pub mod hamcycle;
