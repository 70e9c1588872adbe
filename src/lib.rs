//! Dense simulation of small real-amplitude quantum circuits.
//!
//! Amplitudes and operator entries are held exactly: an integer together with
//! a shared exponent `k` stands for `value / sqrt(2)^k`. Every gate of the
//! library (X, Z, Hadamard, CNOT) keeps values of that form, so the simulation
//! carries no rounding error.
pub mod builder;
pub mod circuit;
pub mod laws;
pub mod operator;
pub mod state;

pub use builder::Gate;
pub use circuit::{CircuitError, QCircuit};
pub use operator::{Block, Operator, OperatorModel};
pub use state::{StateModel, StateVector};
