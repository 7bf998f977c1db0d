use vstd::prelude::*;

verus! {

/// Errors reported while preparing or running a circuit.
#[derive(Debug, Clone, PartialEq, Eq)]
pub enum BackendError {
    /// An operation names a classical register that was never declared as output.
    RegisterNotFound { name: String },
    /// A readout index is not below the length of its register.
    IndexOutOfRange { index: usize, length: usize },
    /// More than one repeated-measurement pragma in one circuit.
    DuplicateRepeatedMeasurement,
    /// No measurement writes to the readout of the repeated-measurement pragma.
    UnmatchedSetNumberOfMeasurements { readout: String },
    /// The circuit needs more qubits than the backend provides.
    InsufficientQubits { available: usize, used: usize },
    /// An operation acts on a qubit the quantum register does not have.
    QubitOutOfRange { qubit: usize, number_qubits: usize },
    /// A qubit index is too large for the number of qubits to be represented.
    QubitIndexOverflow { qubit: usize },
    /// The number of circuit repetitions does not fit in a machine word.
    RepetitionsOverflow { measurements: usize, repetitions: usize },
    /// A state to be set has a dimension other than `2^number_qubits`.
    StateDimensionMismatch { dimension: usize, number_qubits: u32 },
    /// State-vector access on a density-matrix register or the reverse.
    StateVectorDensityMismatch,
    /// The operation has no dispatch rule and is not a known no-op.
    OperationNotSupported { name: String },
    /// The device reports the operation unavailable on the given qubits.
    DeviceUnavailable { name: String },
    /// A sampling distribution holds a probability below the tolerance.
    NegativeProbability,
}

} // verus!
