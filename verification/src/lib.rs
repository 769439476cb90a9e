//! A verified quantum register simulator.
//!
//! The register keeps a sparse store of basis states with exact
//! Gaussian-integer amplitudes, so gate application, collapse and sampling
//! are free of floating-point drift: the probability of a basis state is
//! its squared amplitude magnitude divided by the store's total mass, and
//! that ratio is exact at every point between operations.
//!
//! Gates that rotate by an arbitrary angle take the angle as a [`qureg::Phasor`],
//! an exact rational point on the unit circle; such points approximate any
//! angle arbitrarily well while keeping the arithmetic exact.

pub mod gauss;
pub mod store;
pub mod qureg;
pub mod laws;

pub use qureg::QuReg;
pub use qureg::Phasor;
pub use qureg::QuantumError;
