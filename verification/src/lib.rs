//! A simulator kernel for quantum circuits: the amplitude vector of a register
//! with its primitive gates, the classical memory, and the histogram of the
//! outcomes of repeated shots.

pub mod amplitude;
pub mod bits;
pub mod error;
pub mod interpreter;
pub mod statevector;
