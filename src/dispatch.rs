use vstd::prelude::*;
use crate::circuit::{GateArity, InvolvedQubits, Operation, OperationKind};
use crate::error::BackendError;
use crate::registers::RegisterMap;

verus! {

/// What executing one operation asks of the quantum register and of the
/// classical registers.
#[derive(Debug)]
pub enum Dispatch {
    /// Nothing to do.
    Skip,
    /// Allocate the zero-filled internal register of an output definition.
    Define,
    /// Write the given bit into a bit register.
    InputBit,
    /// Apply the operation's unitary; `arity` selects the primitive.
    ApplyGate { arity: GateArity },
    /// Apply the operation's noise channel.
    ApplyNoise,
    /// Collapse-measure a qubit and write the outcome to the readout register.
    Measure,
    /// Sample a repeated measurement from the register's probabilities.
    RepeatedMeasurement,
    /// Overwrite the state with the operation's state vector or density matrix.
    SetState,
    /// Read amplitudes, a density matrix, an expectation value or occupation
    /// probabilities into a classical register.
    ReadState,
    /// Measure a qubit and flip it back to zero if it was one.
    ActiveReset,
    /// Draw a random Pauli error.
    RandomNoise,
    /// Execute the sub-circuit `times` times.
    RunSubCircuit { times: usize },
    /// Hand the operation to the device, if there is one.
    ChangeDevice,
}

/// Operations that execution accepts and ignores.
pub open spec fn is_allowed_noop(name: Seq<char>) -> bool {
    ||| name == "PragmaSetNumberOfMeasurements"@
    ||| name == "PragmaBoostNoise"@
    ||| name == "PragmaStopParallelBlock"@
    ||| name == "PragmaGlobalPhase"@
    ||| name == "DefinitionUsize"@
    ||| name == "InputSymbolic"@
    ||| name == "PragmaRepeatGate"@
    ||| name == "PragmaStartDecompositionBlock"@
    ||| name == "PragmaStopDecompositionBlock"@
    ||| name == "PragmaOverrotation"@
    ||| name == "PragmaSleep"@
}

/// The first qubit of `v` that is not below `nq`.
pub open spec fn first_outside(v: Seq<usize>, nq: usize) -> Option<usize>
    decreases v.len(),
{
    if v.len() == 0 {
        None
    } else {
        match first_outside(v.drop_last(), nq) {
            Some(q) => Some(q),
            None => if v.last() >= nq { Some(v.last()) } else { None },
        }
    }
}

/// The qubit of an operation that a register of `nq` qubits lacks, if any.
pub open spec fn outside_qubit(inv: InvolvedQubits, nq: usize) -> Option<usize> {
    match inv {
        InvolvedQubits::Qubits(v) => first_outside(v@, nq),
        _ => None,
    }
}

/// The dispatch of `op` on a register of `nq` qubits (a density matrix iff
/// `density`), where `device_allows` is the device's verdict on a gate (`None`
/// without a device) and `bits` holds the internal bit registers.
pub open spec fn dispatch_of(
    op: Operation,
    nq: usize,
    density: bool,
    device_allows: Option<bool>,
    bits: Map<Seq<char>, Vec<bool>>,
) -> Result<Dispatch, BackendError> {
    let outside = outside_qubit(op.involved, nq);
    match op.kind {
        OperationKind::PragmaStopParallelBlock => Ok(Dispatch::Skip),
        OperationKind::DefinitionBit { is_output, .. } => Ok(
            if is_output { Dispatch::Define } else { Dispatch::Skip },
        ),
        OperationKind::DefinitionFloat { is_output, .. } => Ok(
            if is_output { Dispatch::Define } else { Dispatch::Skip },
        ),
        OperationKind::DefinitionComplex { is_output, .. } => Ok(
            if is_output { Dispatch::Define } else { Dispatch::Skip },
        ),
        OperationKind::PragmaRepeatedMeasurement { .. } => Ok(Dispatch::RepeatedMeasurement),
        OperationKind::MeasureQubit { qubit, readout, .. } => match outside {
            Some(q) => Err(BackendError::QubitOutOfRange { qubit: q, number_qubits: nq }),
            None => if qubit >= nq {
                Err(BackendError::QubitOutOfRange { qubit, number_qubits: nq })
            } else if bits.contains_key(readout@) {
                Ok(Dispatch::Measure)
            } else {
                Err(BackendError::RegisterNotFound { name: readout })
            },
        },
        OperationKind::PragmaSetStateVector => Ok(Dispatch::SetState),
        OperationKind::PragmaSetDensityMatrix => if density {
            Ok(Dispatch::SetState)
        } else {
            Err(BackendError::StateVectorDensityMismatch)
        },
        OperationKind::PragmaGetStateVector { .. } => if density {
            Err(BackendError::StateVectorDensityMismatch)
        } else {
            Ok(Dispatch::ReadState)
        },
        OperationKind::PragmaGetDensityMatrix { .. } => Ok(Dispatch::ReadState),
        OperationKind::PragmaGetPauliProduct { .. } => Ok(Dispatch::ReadState),
        OperationKind::PragmaGetOccupationProbability { .. } => Ok(Dispatch::ReadState),
        OperationKind::PragmaActiveReset { qubit } => if qubit >= nq {
            Err(BackendError::QubitOutOfRange { qubit, number_qubits: nq })
        } else {
            Ok(Dispatch::ActiveReset)
        },
        OperationKind::PragmaConditional { condition_register, condition_index, .. } => if !bits.contains_key(
            condition_register@,
        ) {
            Err(BackendError::RegisterNotFound { name: condition_register })
        } else if condition_index >= bits[condition_register@]@.len() {
            Err(
                BackendError::IndexOutOfRange {
                    index: condition_index,
                    length: bits[condition_register@]@.len() as usize,
                },
            )
        } else if bits[condition_register@]@[condition_index as int] {
            Ok(Dispatch::RunSubCircuit { times: 1 })
        } else {
            Ok(Dispatch::Skip)
        },
        OperationKind::PragmaLoop { repetitions, .. } => Ok(
            Dispatch::RunSubCircuit { times: repetitions },
        ),
        OperationKind::Gate { name, arity } => match outside {
            Some(q) => Err(BackendError::QubitOutOfRange { qubit: q, number_qubits: nq }),
            None => if device_allows == Some(false) {
                Err(BackendError::DeviceUnavailable { name })
            } else {
                Ok(Dispatch::ApplyGate { arity })
            },
        },
        OperationKind::NoiseChannel { .. } => Ok(
            if outside is Some { Dispatch::Skip } else { Dispatch::ApplyNoise },
        ),
        OperationKind::PragmaGeneralNoise => if outside is Some {
            Ok(Dispatch::Skip)
        } else if !density {
            Err(BackendError::StateVectorDensityMismatch)
        } else {
            Ok(Dispatch::ApplyNoise)
        },
        OperationKind::PragmaChangeDevice => Ok(Dispatch::ChangeDevice),
        OperationKind::InputBit { .. } => Ok(Dispatch::InputBit),
        OperationKind::PragmaRandomNoise => Ok(Dispatch::RandomNoise),
        OperationKind::PragmaOverrotation => Ok(Dispatch::Skip),
        OperationKind::PragmaSetNumberOfMeasurements { .. } => Ok(Dispatch::Skip),
        OperationKind::Other { name } => if is_allowed_noop(name@) {
            Ok(Dispatch::Skip)
        } else {
            Err(BackendError::OperationNotSupported { name })
        },
    }
}

fn allowed_noop(name: &String) -> (r: bool)
    ensures
        r == is_allowed_noop(name@),
{
    *name == String::from_str("PragmaSetNumberOfMeasurements")
        || *name == String::from_str("PragmaBoostNoise")
        || *name == String::from_str("PragmaStopParallelBlock")
        || *name == String::from_str("PragmaGlobalPhase")
        || *name == String::from_str("DefinitionUsize")
        || *name == String::from_str("InputSymbolic")
        || *name == String::from_str("PragmaRepeatGate")
        || *name == String::from_str("PragmaStartDecompositionBlock")
        || *name == String::from_str("PragmaStopDecompositionBlock")
        || *name == String::from_str("PragmaOverrotation")
        || *name == String::from_str("PragmaSleep")
}

/// The first qubit the operation acts on that a register of
/// `number_qubits` qubits does not have.
pub fn qubit_outside(involved: &InvolvedQubits, number_qubits: usize) -> (r: Option<usize>)
    ensures
        r == outside_qubit(*involved, number_qubits),
{
    match involved {
        InvolvedQubits::Qubits(v) => {
            let mut i: usize = 0;
            while i < v.len()
                invariant
                    i <= v@.len(),
                    outside_qubit(*involved, number_qubits) == first_outside(v@, number_qubits),
                    first_outside(v@.subrange(0, i as int), number_qubits) is None,
                decreases v@.len() - i,
            {
                assert(v@.subrange(0, i + 1).drop_last() == v@.subrange(0, i as int));
                if v[i] >= number_qubits {
                    proof {
                        assert(v@.subrange(0, i + 1).last() == v@[i as int]);
                        lemma_first_outside_prefix(v@, i + 1, number_qubits);
                    }
                    return Some(v[i]);
                }
                i = i + 1;
            }
            assert(v@.subrange(0, v@.len() as int) == v@);
            None
        },
        _ => None,
    }
}

proof fn lemma_first_outside_prefix(v: Seq<usize>, i: int, nq: usize)
    requires
        0 <= i <= v.len(),
        first_outside(v.subrange(0, i), nq) is Some,
    ensures
        first_outside(v, nq) == first_outside(v.subrange(0, i), nq),
    decreases v.len() - i,
{
    if i < v.len() {
        assert(v.subrange(0, i + 1).drop_last() == v.subrange(0, i));
        lemma_first_outside_prefix(v, i + 1, nq);
    } else {
        assert(v.subrange(0, i) == v);
    }
}

/// Decides what executing `op` asks for, or why it fails: qubits beyond
/// the register (those the operation lists as involved, and the qubit a
/// measurement or active reset names itself) are an error for gates,
/// measurements and resets and make noise a
/// no-op; a device that refuses a gate, a missing register and a state access
/// of the wrong register kind are errors; unknown operations are errors unless
/// they are bookkeeping that execution ignores.
pub fn dispatch_operation(
    op: &Operation,
    number_qubits: usize,
    is_density_matrix: bool,
    device_allows: Option<bool>,
    bits: &RegisterMap<Vec<bool>>,
) -> (r: Result<Dispatch, BackendError>)
    requires
        bits.wf(),
    ensures
        r == dispatch_of(*op, number_qubits, is_density_matrix, device_allows, bits@),
{
    let outside = qubit_outside(&op.involved, number_qubits);
    match &op.kind {
        OperationKind::PragmaStopParallelBlock => Ok(Dispatch::Skip),
        OperationKind::DefinitionBit { is_output, .. } => Ok(
            if *is_output { Dispatch::Define } else { Dispatch::Skip },
        ),
        OperationKind::DefinitionFloat { is_output, .. } => Ok(
            if *is_output { Dispatch::Define } else { Dispatch::Skip },
        ),
        OperationKind::DefinitionComplex { is_output, .. } => Ok(
            if *is_output { Dispatch::Define } else { Dispatch::Skip },
        ),
        OperationKind::PragmaRepeatedMeasurement { .. } => Ok(Dispatch::RepeatedMeasurement),
        OperationKind::MeasureQubit { qubit, readout, .. } => match outside {
            Some(q) => Err(BackendError::QubitOutOfRange { qubit: q, number_qubits }),
            None => if *qubit >= number_qubits {
                Err(BackendError::QubitOutOfRange { qubit: *qubit, number_qubits })
            } else if bits.contains(readout) {
                Ok(Dispatch::Measure)
            } else {
                Err(BackendError::RegisterNotFound { name: readout.clone() })
            },
        },
        OperationKind::PragmaSetStateVector => Ok(Dispatch::SetState),
        OperationKind::PragmaSetDensityMatrix => if is_density_matrix {
            Ok(Dispatch::SetState)
        } else {
            Err(BackendError::StateVectorDensityMismatch)
        },
        OperationKind::PragmaGetStateVector { .. } => if is_density_matrix {
            Err(BackendError::StateVectorDensityMismatch)
        } else {
            Ok(Dispatch::ReadState)
        },
        OperationKind::PragmaGetDensityMatrix { .. } => Ok(Dispatch::ReadState),
        OperationKind::PragmaGetPauliProduct { .. } => Ok(Dispatch::ReadState),
        OperationKind::PragmaGetOccupationProbability { .. } => Ok(Dispatch::ReadState),
        OperationKind::PragmaActiveReset { qubit } => if *qubit >= number_qubits {
            Err(BackendError::QubitOutOfRange { qubit: *qubit, number_qubits })
        } else {
            Ok(Dispatch::ActiveReset)
        },
        OperationKind::PragmaConditional { condition_register, condition_index, .. } => {
            match bits.get(condition_register) {
                None => Err(BackendError::RegisterNotFound { name: condition_register.clone() }),
                Some(reg) => {
                    if *condition_index >= reg.len() {
                        Err(
                            BackendError::IndexOutOfRange {
                                index: *condition_index,
                                length: reg.len(),
                            },
                        )
                    } else if reg[*condition_index] {
                        Ok(Dispatch::RunSubCircuit { times: 1 })
                    } else {
                        Ok(Dispatch::Skip)
                    }
                },
            }
        },
        OperationKind::PragmaLoop { repetitions, .. } => Ok(
            Dispatch::RunSubCircuit { times: *repetitions },
        ),
        OperationKind::Gate { name, arity } => match outside {
            Some(q) => Err(BackendError::QubitOutOfRange { qubit: q, number_qubits }),
            None => if device_allows == Some(false) {
                Err(BackendError::DeviceUnavailable { name: name.clone() })
            } else {
                Ok(Dispatch::ApplyGate { arity: *arity })
            },
        },
        OperationKind::NoiseChannel { .. } => Ok(
            if outside.is_some() { Dispatch::Skip } else { Dispatch::ApplyNoise },
        ),
        OperationKind::PragmaGeneralNoise => if outside.is_some() {
            Ok(Dispatch::Skip)
        } else if !is_density_matrix {
            Err(BackendError::StateVectorDensityMismatch)
        } else {
            Ok(Dispatch::ApplyNoise)
        },
        OperationKind::PragmaChangeDevice => Ok(Dispatch::ChangeDevice),
        OperationKind::InputBit { .. } => Ok(Dispatch::InputBit),
        OperationKind::PragmaRandomNoise => Ok(Dispatch::RandomNoise),
        OperationKind::PragmaOverrotation => Ok(Dispatch::Skip),
        OperationKind::PragmaSetNumberOfMeasurements { .. } => Ok(Dispatch::Skip),
        OperationKind::Other { name } => if allowed_noop(name) {
            Ok(Dispatch::Skip)
        } else {
            Err(BackendError::OperationNotSupported { name: name.clone() })
        },
    }
}

} // verus!
