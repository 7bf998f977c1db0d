use vstd::prelude::*;

verus! {

/// The qubits an operation acts on.
#[derive(Debug, Clone, PartialEq, Eq)]
pub enum InvolvedQubits {
    /// The operation acts on every qubit of the register.
    All,
    /// The operation acts on no qubit.
    Empty,
    /// The operation acts on exactly these qubits.
    Qubits(Vec<usize>),
}

/// Number of qubits a unitary gate acts on, as far as the dispatcher distinguishes.
#[derive(Debug, Clone, Copy, PartialEq, Eq, Structural)]
pub enum GateArity {
    Single,
    Two,
    Three,
    Multi,
}

/// The kind of an operation with the plain values that execution reads.
///
/// Floating-point parameters (angles, rates, matrices) are not held here: the
/// engine that applies an operation reads them from the operation it was made
/// from.
#[derive(Debug)]
pub enum OperationKind {
    DefinitionBit { name: String, length: usize, is_output: bool },
    DefinitionFloat { name: String, length: usize, is_output: bool },
    DefinitionComplex { name: String, length: usize, is_output: bool },
    InputBit { name: String, index: usize, value: bool },
    MeasureQubit { qubit: usize, readout: String, readout_index: usize },
    PragmaRepeatedMeasurement {
        readout: String,
        number_measurements: usize,
        qubit_mapping: Option<Vec<(usize, usize)>>,
    },
    PragmaSetNumberOfMeasurements { readout: String, number_measurements: usize },
    PragmaGetStateVector { readout: String, circuit: Option<Vec<Operation>> },
    PragmaGetDensityMatrix { readout: String, circuit: Option<Vec<Operation>> },
    PragmaGetOccupationProbability { readout: String, circuit: Option<Vec<Operation>> },
    PragmaGetPauliProduct { qubits: Vec<usize>, readout: String, circuit: Vec<Operation> },
    PragmaConditional { condition_register: String, condition_index: usize, circuit: Vec<Operation> },
    /// A loop whose repetition count is already rounded down and clamped at zero.
    PragmaLoop { repetitions: usize, circuit: Vec<Operation> },
    /// A unitary gate, by its name.
    Gate { name: String, arity: GateArity },
    /// Damping, dephasing or depolarising noise: needs a density matrix.
    NoiseChannel { name: String },
    /// General noise given by its own rates: needs a density matrix and is never
    /// applied to a state vector.
    PragmaGeneralNoise,
    PragmaSetStateVector,
    PragmaSetDensityMatrix,
    PragmaRandomNoise,
    PragmaOverrotation,
    PragmaActiveReset { qubit: usize },
    PragmaChangeDevice,
    PragmaStopParallelBlock,
    /// Any other operation, by its name.
    Other { name: String },
}

/// One operation of a circuit and the qubits it acts on.
#[derive(Debug)]
pub struct Operation {
    pub kind: OperationKind,
    pub involved: InvolvedQubits,
}

/// Whether executing `op` needs a density-matrix register: a noise channel or
/// a density-matrix setter, directly or in a sub-circuit that is searched.
pub open spec fn needs_density(op: Operation) -> bool
    decreases op, 1nat,
{
    match op.kind {
        OperationKind::PragmaConditional { circuit, .. } => any_needs_density(circuit@),
        OperationKind::PragmaLoop { circuit, .. } => any_needs_density(circuit@),
        OperationKind::PragmaGetPauliProduct { circuit, .. } => any_needs_density(circuit@),
        OperationKind::PragmaGetOccupationProbability { circuit, .. } => match circuit {
            Some(c) => any_needs_density(c@),
            None => false,
        },
        OperationKind::PragmaGetDensityMatrix { circuit, .. } => match circuit {
            Some(c) => any_needs_density(c@),
            None => false,
        },
        OperationKind::NoiseChannel { .. } => true,
        OperationKind::PragmaGeneralNoise => true,
        OperationKind::PragmaSetDensityMatrix => true,
        _ => false,
    }
}

/// Whether some operation of `ops` needs a density-matrix register.
pub open spec fn any_needs_density(ops: Seq<Operation>) -> bool
    decreases ops, 0nat,
{
    if ops.len() == 0 {
        false
    } else {
        any_needs_density(ops.drop_last()) || needs_density(ops.last())
    }
}

} // verus!

verus! {

/// Kind of a classical register.
#[derive(Debug, Clone, Copy, PartialEq, Eq, Structural)]
pub enum RegisterKind {
    Bit,
    Float,
    Complex,
}

/// The register an operation declares as output, with its kind and length.
pub open spec fn output_definition(op: Operation) -> Option<(RegisterKind, String, usize)> {
    match op.kind {
        OperationKind::DefinitionBit { name, length, is_output } => if is_output {
            Some((RegisterKind::Bit, name, length))
        } else {
            None
        },
        OperationKind::DefinitionFloat { name, length, is_output } => if is_output {
            Some((RegisterKind::Float, name, length))
        } else {
            None
        },
        OperationKind::DefinitionComplex { name, length, is_output } => if is_output {
            Some((RegisterKind::Complex, name, length))
        } else {
            None
        },
        _ => None,
    }
}

/// Whether executing `op` needs a density-matrix register.
pub fn find_pragma_op(op: &Operation) -> (r: bool)
    ensures
        r == needs_density(*op),
    decreases op, 1nat,
{
    match &op.kind {
        OperationKind::PragmaConditional { circuit, .. } => any_op_needs_density(circuit),
        OperationKind::PragmaLoop { circuit, .. } => any_op_needs_density(circuit),
        OperationKind::PragmaGetPauliProduct { circuit, .. } => any_op_needs_density(circuit),
        OperationKind::PragmaGetOccupationProbability { circuit, .. } => match circuit {
            Some(c) => any_op_needs_density(c),
            None => false,
        },
        OperationKind::PragmaGetDensityMatrix { circuit, .. } => match circuit {
            Some(c) => any_op_needs_density(c),
            None => false,
        },
        OperationKind::NoiseChannel { .. } => true,
        OperationKind::PragmaGeneralNoise => true,
        OperationKind::PragmaSetDensityMatrix => true,
        _ => false,
    }
}

/// Whether some operation of `ops` needs a density-matrix register.
pub fn any_op_needs_density(ops: &Vec<Operation>) -> (r: bool)
    ensures
        r == any_needs_density(ops@),
    decreases ops, 0nat,
{
    let mut i: usize = 0;
    while i < ops.len()
        invariant
            i <= ops@.len(),
            !any_needs_density(ops@.subrange(0, i as int)),
        decreases ops@.len() - i,
    {
        assert(ops@.subrange(0, i + 1).drop_last() == ops@.subrange(0, i as int));
        assert(decreases_to!(ops => ops@[i as int]));
        if find_pragma_op(&ops[i]) {
            proof {
                lemma_any_needs_density_prefix(ops@, i + 1);
            }
            return true;
        }
        i = i + 1;
    }
    assert(ops@.subrange(0, ops@.len() as int) == ops@);
    false
}

proof fn lemma_any_needs_density_prefix(ops: Seq<Operation>, i: int)
    requires
        0 <= i <= ops.len(),
        any_needs_density(ops.subrange(0, i)),
    ensures
        any_needs_density(ops),
    decreases ops.len() - i,
{
    if i < ops.len() {
        assert(ops.subrange(0, i + 1).drop_last() == ops.subrange(0, i));
        lemma_any_needs_density_prefix(ops, i + 1);
    } else {
        assert(ops.subrange(0, i) == ops);
    }
}

} // verus!
