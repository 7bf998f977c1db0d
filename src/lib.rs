//! Execution layer of a circuit simulator backend.
//!
//! The library sizes quantum and classical registers from a circuit, decides how
//! repeated measurements are executed, interprets the classical side of each
//! operation and aggregates per-shot registers into output registers. The
//! state-vector arithmetic itself is done by an engine outside this crate.

pub mod error;
pub mod registers;
pub mod circuit;
pub mod preprocessing;
pub mod planning;
pub mod backend;
pub mod measurement;
pub mod dispatch;
pub mod seed;
pub mod qureg;

pub use backend::{Backend, ExecutionPlan};
pub use circuit::{find_pragma_op, GateArity, InvolvedQubits, Operation, OperationKind, RegisterKind};
pub use error::BackendError;
pub use planning::MeasurementMode;
pub use preprocessing::get_number_used_qubits_and_registers;
pub use qureg::{ComplexMatrixN, Qureg};
pub use registers::RegisterMap;
