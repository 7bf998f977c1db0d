use vstd::prelude::*;
use crate::circuit::{any_needs_density, any_op_needs_density, InvolvedQubits, Operation};
use crate::error::BackendError;
use crate::planning::{
    decide_mode, handle_repeated_measurements, mode_matches, pending_measurement,
    plan_measurements, run_count, MeasurementMode,
};
use crate::preprocessing::{
    get_number_used_qubits_and_registers, involved_bound, lemma_scan_needed_bounded, max_nat, preprocess_result,
    qubits_bound, required_qubits, scan, scan_step, ScanState,
};
use crate::registers::RegisterMap;

verus! {

/// Simulator backend configuration.
#[derive(Debug, Clone)]
pub struct Backend {
    /// Number of qubits the backend supports.
    pub number_qubits: usize,
    /// Number of repetitions of a stochastic simulation.
    pub repetitions: usize,
    /// Seed words of the random number generator, if fixed.
    pub random_seed: Option<Vec<u64>>,
}

/// Everything a run of a circuit needs to know before the first shot.
#[derive(Debug)]
pub struct ExecutionPlan {
    /// Qubits of the quantum register the run creates.
    pub number_qubits: usize,
    /// Whether the register holds a density matrix.
    pub is_density_matrix: bool,
    /// How often the whole circuit runs.
    pub repetitions: usize,
    /// How repeated measurements are executed.
    pub mode: MeasurementMode,
    /// Declared lengths of the bit output registers.
    pub bit_register_lengths: RegisterMap<usize>,
}

/// Views of a seed: the words, if any.
pub open spec fn seed_view(s: Option<Vec<u64>>) -> Option<Seq<u64>> {
    match s {
        Some(v) => Some(v@),
        None => None,
    }
}

/// The result of validating a circuit against a backend of `available` qubits.
pub open spec fn validation_result(available: usize, ops: Seq<Operation>) -> Result<nat, BackendError> {
    match preprocess_result(ops) {
        Err(e) => Err(e),
        Ok((n, _)) => if n > available {
            Err(BackendError::InsufficientQubits { available, used: n as usize })
        } else {
            Ok(n)
        },
    }
}

/// Whether `r` is what preparing a run of `ops` on a backend of `available`
/// qubits and `repetitions` stochastic repetitions owes.
pub open spec fn prepared(
    available: usize,
    repetitions: usize,
    ops: Seq<Operation>,
    r: Result<ExecutionPlan, BackendError>,
) -> bool {
    match validation_result(available, ops) {
        Err(e) => r == Err::<ExecutionPlan, BackendError>(e),
        Ok(_) => match preprocess_result(ops) {
            Err(e) => r == Err::<ExecutionPlan, BackendError>(e),
            Ok((n, bits)) => match pending_measurement(ops) {
                Err(e) => r == Err::<ExecutionPlan, BackendError>(e),
                Ok(p) => match decide_mode(ops, p, repetitions, bits) {
                    Err(e) => r == Err::<ExecutionPlan, BackendError>(e),
                    Ok(st) => r matches Ok(plan) && plan.number_qubits == n
                        && plan.is_density_matrix == any_needs_density(ops) && plan.repetitions
                        == run_count(st) && mode_matches(plan.mode, ops, st, p)
                        && plan.bit_register_lengths.wf() && plan.bit_register_lengths@ == bits,
                },
            },
        },
    }
}

impl Backend {
    /// A backend of `number_qubits` qubits, one repetition and the given seed.
    pub fn new(number_qubits: usize, random_seed: Option<Vec<u64>>) -> (r: Self)
        ensures
            r.number_qubits == number_qubits,
            r.repetitions == 1,
            r.random_seed == random_seed,
    {
        Backend { number_qubits, repetitions: 1, random_seed }
    }

    /// Fixes the seed words of the random number generator.
    pub fn set_random_seed(&mut self, random_seed: Vec<u64>)
        ensures
            final(self).random_seed == Some(random_seed),
            final(self).number_qubits == old(self).number_qubits,
            final(self).repetitions == old(self).repetitions,
    {
        self.random_seed = Some(random_seed);
    }

    /// The seed words, if fixed.
    pub fn get_random_seed(&self) -> (r: Option<Vec<u64>>)
        ensures
            seed_view(r) == seed_view(self.random_seed),
    {
        match &self.random_seed {
            Some(v) => {
                let mut out: Vec<u64> = Vec::new();
                let mut i: usize = 0;
                while i < v.len()
                    invariant
                        i <= v@.len(),
                        out@ == v@.subrange(0, i as int),
                    decreases v@.len() - i,
                {
                    out.push(v[i]);
                    i = i + 1;
                }
                assert(out@ == v@);
                Some(out)
            },
            None => None,
        }
    }

    /// Sets the number of repetitions of a stochastic simulation.
    pub fn set_repetitions(self, repetitions: usize) -> (r: Self)
        ensures
            r.repetitions == repetitions,
            r.number_qubits == self.number_qubits,
            r.random_seed == self.random_seed,
    {
        Backend { repetitions, ..self }
    }

    /// Checks that the circuit is well formed and fits into the backend's
    /// qubits; returns the number of qubits it needs.
    pub fn validate_circuit(&self, circuit: &Vec<Operation>) -> (r: Result<usize, BackendError>)
        ensures
            match validation_result(self.number_qubits, circuit@) {
                Ok(n) => r == Ok::<usize, BackendError>(n as usize),
                Err(e) => r == Err::<usize, BackendError>(e),
            },
    {
        let (n, _) = get_number_used_qubits_and_registers(circuit)?;
        if n > self.number_qubits {
            return Err(BackendError::InsufficientQubits { available: self.number_qubits, used: n });
        }
        Ok(n)
    }

    /// Prepares a run of the circuit: validates it, sizes the quantum
    /// register, chooses density-matrix mode and decides how its repeated
    /// measurement is executed.
    pub fn prepare_run(&self, circuit: &Vec<Operation>) -> (r: Result<ExecutionPlan, BackendError>)
        ensures
            prepared(self.number_qubits, self.repetitions, circuit@, r),
    {
        self.validate_circuit(circuit)?;
        let (number_qubits, bits) = get_number_used_qubits_and_registers(circuit)?;
        let is_density_matrix = any_op_needs_density(circuit);
        let pending = handle_repeated_measurements(circuit)?;
        let (repetitions, mode) = plan_measurements(circuit, pending, self.repetitions, &bits)?;
        Ok(ExecutionPlan {
            number_qubits,
            is_density_matrix,
            repetitions,
            mode,
            bit_register_lengths: bits,
        })
    }
}

/// The largest qubit of a list is below its bound.
proof fn lemma_qubits_bound_covers(v: Seq<usize>, j: int)
    requires
        0 <= j < v.len(),
    ensures
        v[j] < qubits_bound(v),
    decreases v.len(),
{
    if j < v.len() - 1 {
        lemma_qubits_bound_covers(v.drop_last(), j);
        assert(v.drop_last()[j] == v[j]);
    }
}

/// After a successful scan, every qubit that an operation names is below the
/// qubit count found.
proof fn lemma_scan_covers(ops: Seq<Operation>, i: int, j: int)
    requires
        0 <= i < ops.len(),
        ops[i].involved matches InvolvedQubits::Qubits(v) && 0 <= j < v@.len(),
        scan(ops) is Ok,
    ensures
        ops[i].involved matches InvolvedQubits::Qubits(v) && v@[j] < scan(ops)->Ok_0.needed,
    decreases ops.len(),
{
    let p = ops.drop_last();
    let st = scan(p)->Ok_0;
    if i < ops.len() - 1 {
        assert(p[i] == ops[i]);
        lemma_scan_covers(p, i, j);
    } else {
        if let InvolvedQubits::Qubits(v) = ops[i].involved {
            lemma_qubits_bound_covers(v@, j);
        }
    }
    lemma_scan_step_grows(st, ops.last());
}

proof fn lemma_scan_step_grows(st: ScanState, op: Operation)
    requires
        scan_step(st, op) is Ok,
    ensures
        scan_step(st, op)->Ok_0.needed >= max_nat(st.needed, involved_bound(op.involved)),
{
}

/// A backend never runs a circuit that names a qubit beyond its own: when a
/// circuit is otherwise well formed and one of its operations acts on qubit
/// `q >= number_qubits`, validating it returns `InsufficientQubits`.
pub proof fn lemma_insufficient_qubits(number_qubits: usize, ops: Seq<Operation>, i: int, j: int)
    requires
        0 <= i < ops.len(),
        ops[i].involved matches InvolvedQubits::Qubits(v) && 0 <= j < v@.len() && v@[j]
            >= number_qubits,
        scan(ops) is Ok,
    ensures
        validation_result(number_qubits, ops) matches Err(
            BackendError::InsufficientQubits { available, used },
        ) && available == number_qubits && used as nat == required_qubits(scan(ops)->Ok_0),
{
    lemma_scan_covers(ops, i, j);
    lemma_scan_needed_bounded(ops);
}

} // verus!
