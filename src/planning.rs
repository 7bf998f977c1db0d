use vstd::prelude::*;
use crate::circuit::{InvolvedQubits, Operation, OperationKind};
use crate::error::BackendError;
use crate::measurement::{mapping_view, repeated_measurement_targets, replay_targets};
use crate::registers::RegisterMap;

verus! {

/// The readout and count of a repeated-measurement or set-number-of-measurements
/// pragma.
pub open spec fn repeated_pragma(op: Operation) -> Option<(String, usize)> {
    match op.kind {
        OperationKind::PragmaRepeatedMeasurement { readout, number_measurements, .. } => Some(
            (readout, number_measurements),
        ),
        OperationKind::PragmaSetNumberOfMeasurements { readout, number_measurements } => Some(
            (readout, number_measurements),
        ),
        _ => None,
    }
}

/// The single repeated-measurement pragma of a circuit, if any; a second one
/// is an error.
pub open spec fn find_repeated(ops: Seq<Operation>) -> Result<Option<(String, usize)>, BackendError>
    decreases ops.len(),
{
    if ops.len() == 0 {
        Ok(None)
    } else {
        match find_repeated(ops.drop_last()) {
            Err(e) => Err(e),
            Ok(found) => match repeated_pragma(ops.last()) {
                None => Ok(found),
                Some(p) => if found is Some {
                    Err(BackendError::DuplicateRepeatedMeasurement)
                } else {
                    Ok(Some(p))
                },
            },
        }
    }
}

/// Whether `op` measures into the register named `readout`.
pub open spec fn writes_to(op: Operation, readout: Seq<char>) -> bool {
    match op.kind {
        OperationKind::MeasureQubit { readout: r, .. } => r@ == readout,
        OperationKind::PragmaRepeatedMeasurement { readout: r, .. } => r@ == readout,
        _ => false,
    }
}

/// The pending repeated measurement of a circuit: its readout and count, after
/// checking that there is at most one and that some measurement writes to it.
pub open spec fn pending_measurement(ops: Seq<Operation>) -> Result<Option<(String, usize)>, BackendError> {
    match find_repeated(ops) {
        Err(e) => Err(e),
        Ok(None) => Ok(None),
        Ok(Some((ro, nm))) => if exists|i: int| 0 <= i < ops.len() && writes_to(ops[i], ro@) {
            Ok(Some((ro, nm)))
        } else {
            Err(BackendError::UnmatchedSetNumberOfMeasurements { readout: ro })
        },
    }
}

/// State of the scan that decides between sampling and full replay.
pub struct ModeState {
    /// The sampling shortcut is still possible.
    pub active: bool,
    /// Qubits measured into the pending readout.
    pub group: Seq<usize>,
    /// Smallest qubit measured so far.
    pub measured_min: Option<usize>,
    /// The qubit whose measurement stands for the sampled group.
    pub replace: Option<usize>,
    /// How often the whole circuit is run.
    pub repetitions: usize,
}

/// The state after the shortcut was given up: the circuit is replayed
/// `nm * base` times.
pub open spec fn give_up(st: ModeState, nm: usize, base: usize) -> Result<ModeState, BackendError> {
    if nm * base > usize::MAX {
        Err(BackendError::RepetitionsOverflow { measurements: nm, repetitions: base })
    } else {
        Ok(ModeState { active: false, replace: None, repetitions: (nm * base) as usize, ..st })
    }
}

pub open spec fn min_with(m: Option<usize>, q: usize) -> Option<usize> {
    match m {
        Some(x) => if x <= q { Some(x) } else { Some(q) },
        None => Some(q),
    }
}

/// Whether some qubit of `v` is in `group`.
pub open spec fn meets_group(v: Seq<usize>, group: Seq<usize>) -> bool {
    exists|i: int| 0 <= i < v.len() && group.contains(v[i])
}

/// One step of the mode scan for pending readout `ro` with `nm` measurements,
/// base repetitions `base` and bit register lengths `bits`.
pub open spec fn mode_step(
    st: ModeState,
    op: Operation,
    ro: Seq<char>,
    nm: usize,
    base: usize,
    bits: Map<Seq<char>, usize>,
) -> Result<ModeState, BackendError> {
    if !st.active {
        Ok(st)
    } else {
        match op.kind {
            OperationKind::MeasureQubit { qubit, readout, .. } => if readout@ != ro
                || st.group.contains(qubit) {
                give_up(st, nm, base)
            } else {
                Ok(
                    ModeState {
                        group: st.group.push(qubit),
                        measured_min: min_with(st.measured_min, qubit),
                        replace: Some(qubit),
                        ..st
                    },
                )
            },
            OperationKind::PragmaRepeatedMeasurement { readout, .. } => if !bits.contains_key(
                readout@,
            ) {
                Err(BackendError::RegisterNotFound { name: readout })
            } else {
                let len = bits[readout@];
                if st.measured_min matches Some(m) && m < len {
                    give_up(st, nm, base)
                } else if len >= 1 {
                    Ok(ModeState { measured_min: Some(0), ..st })
                } else {
                    Ok(st)
                }
            },
            OperationKind::PragmaStopParallelBlock => Ok(st),
            _ => match op.involved {
                InvolvedQubits::All => if st.group.len() > 0 {
                    give_up(st, nm, base)
                } else {
                    Ok(st)
                },
                InvolvedQubits::Empty => Ok(st),
                InvolvedQubits::Qubits(v) => if meets_group(v@, st.group) {
                    give_up(st, nm, base)
                } else {
                    Ok(st)
                },
            },
        }
    }
}

/// The mode scan over a whole circuit.
pub open spec fn mode_scan(
    ops: Seq<Operation>,
    init: ModeState,
    ro: Seq<char>,
    nm: usize,
    base: usize,
    bits: Map<Seq<char>, usize>,
) -> Result<ModeState, BackendError>
    decreases ops.len(),
{
    if ops.len() == 0 {
        Ok(init)
    } else {
        match mode_scan(ops.drop_last(), init, ro, nm, base, bits) {
            Ok(st) => mode_step(st, ops.last(), ro, nm, base, bits),
            Err(e) => Err(e),
        }
    }
}

/// Whether `op` makes the simulation stochastic, so that repetitions count.
pub open spec fn is_stochastic(op: Operation) -> bool {
    match op.kind {
        OperationKind::PragmaRandomNoise => true,
        OperationKind::PragmaOverrotation => true,
        _ => false,
    }
}

/// Repetitions of a stochastic simulation: the configured count where the
/// circuit holds a stochastic pragma, else one.
pub open spec fn base_repetitions(ops: Seq<Operation>, repetitions: usize) -> usize {
    if exists|i: int| 0 <= i < ops.len() && is_stochastic(ops[i]) {
        repetitions
    } else {
        1
    }
}

/// How repeated measurements are executed.
#[derive(Debug)]
pub enum MeasurementMode {
    /// Every run of the circuit measures by collapsing the state.
    FullReplay,
    /// The circuit runs once; when the measurement of `qubit_marker` is reached,
    /// `number_measurements` rows are sampled into `readout`, each qubit `k`
    /// written to the index that `mapping` gives it.
    SampledReplace {
        qubit_marker: usize,
        readout: String,
        number_measurements: usize,
        mapping: Vec<(usize, usize)>,
    },
}

/// Last index given to qubit `k` in a list of (qubit, index) pairs.
pub open spec fn mapped_index(m: Seq<(usize, usize)>, k: usize) -> Option<usize>
    decreases m.len(),
{
    if m.len() == 0 {
        None
    } else if m.last().0 == k {
        Some(m.last().1)
    } else {
        mapped_index(m.drop_last(), k)
    }
}

/// The (qubit, readout index) pairs of all single-qubit measurements, in circuit order.
pub open spec fn measure_pairs(ops: Seq<Operation>) -> Seq<(usize, usize)>
    decreases ops.len(),
{
    if ops.len() == 0 {
        Seq::empty()
    } else {
        match ops.last().kind {
            OperationKind::MeasureQubit { qubit, readout_index, .. } => measure_pairs(
                ops.drop_last(),
            ).push((qubit, readout_index)),
            _ => measure_pairs(ops.drop_last()),
        }
    }
}

/// Whether `qubit_marker` etc. in `mode` are what the mode scan owes.
pub open spec fn mode_matches(
    mode: MeasurementMode,
    ops: Seq<Operation>,
    st: ModeState,
    pending: Option<(String, usize)>,
) -> bool {
    match st.replace {
        None => mode is FullReplay,
        Some(q) => match mode {
            MeasurementMode::SampledReplace { qubit_marker, readout, number_measurements, mapping } =>
                pending matches Some((ro, nm)) && qubit_marker == q && readout == ro
                && number_measurements == nm && mapping@ == measure_pairs(ops),
            MeasurementMode::FullReplay => false,
        },
    }
}

/// The initial mode-scan state for a circuit with `pending` repeated measurement.
pub open spec fn initial_mode(pending: Option<(String, usize)>, repetitions: usize) -> ModeState {
    ModeState {
        active: pending is Some,
        group: Seq::empty(),
        measured_min: None,
        replace: if pending is Some { Some(0) } else { None },
        repetitions,
    }
}

/// Result of the mode decision: the scan's end state, or its error. The
/// scan starts from the base repetitions of the circuit.
pub open spec fn decide_mode(
    ops: Seq<Operation>,
    pending: Option<(String, usize)>,
    repetitions: usize,
    bits: Map<Seq<char>, usize>,
) -> Result<ModeState, BackendError> {
    let base = base_repetitions(ops, repetitions);
    let init = initial_mode(pending, base);
    match pending {
        None => Ok(init),
        Some((ro, nm)) => mode_scan(ops, init, ro@, nm, base, bits),
    }
}

/// How often the whole circuit runs after the scan: once under the sampling
/// shortcut, else the scan's repetitions (the base repetitions without a
/// repeated measurement, the measurement count times them when replayed).
pub open spec fn run_count(st: ModeState) -> usize {
    if st.replace is Some {
        1
    } else {
        st.repetitions
    }
}

// ---------------------------------------------------------------------------
// Executable side.

fn is_repeated_pragma(op: &Operation) -> (r: Option<(String, usize)>)
    ensures
        r == repeated_pragma(*op),
{
    match &op.kind {
        OperationKind::PragmaRepeatedMeasurement { readout, number_measurements, .. } => Some(
            (readout.clone(), *number_measurements),
        ),
        OperationKind::PragmaSetNumberOfMeasurements { readout, number_measurements } => Some(
            (readout.clone(), *number_measurements),
        ),
        _ => None,
    }
}

fn op_writes_to(op: &Operation, readout: &String) -> (r: bool)
    ensures
        r == writes_to(*op, readout@),
{
    match &op.kind {
        OperationKind::MeasureQubit { readout: r, .. } => *r == *readout,
        OperationKind::PragmaRepeatedMeasurement { readout: r, .. } => *r == *readout,
        _ => false,
    }
}

proof fn lemma_find_repeated_error_persists(ops: Seq<Operation>, i: int)
    requires
        0 <= i <= ops.len(),
        find_repeated(ops.subrange(0, i)) is Err,
    ensures
        find_repeated(ops) == find_repeated(ops.subrange(0, i)),
    decreases ops.len() - i,
{
    if i < ops.len() {
        assert(ops.subrange(0, i + 1).drop_last() == ops.subrange(0, i));
        lemma_find_repeated_error_persists(ops, i + 1);
    } else {
        assert(ops.subrange(0, i) == ops);
    }
}

/// Finds the single repeated-measurement pragma of a circuit: its readout and
/// number of measurements. More than one such pragma is an error, and so is one
/// whose readout no measurement writes to.
pub fn handle_repeated_measurements(circuit: &Vec<Operation>) -> (r: Result<
    Option<(String, usize)>,
    BackendError,
>)
    ensures
        r == pending_measurement(circuit@),
{
    let mut found: Option<(String, usize)> = None;
    let mut i: usize = 0;
    while i < circuit.len()
        invariant
            i <= circuit@.len(),
            find_repeated(circuit@.subrange(0, i as int)) == Ok::<
                Option<(String, usize)>,
                BackendError,
            >(found),
        decreases circuit@.len() - i,
    {
        assert(circuit@.subrange(0, i + 1).drop_last() == circuit@.subrange(0, i as int));
        match is_repeated_pragma(&circuit[i]) {
            None => {},
            Some(p) => {
                if found.is_some() {
                    proof {
                        lemma_find_repeated_error_persists(circuit@, i + 1);
                    }
                    return Err(BackendError::DuplicateRepeatedMeasurement);
                }
                found = Some(p);
            },
        }
        i = i + 1;
    }
    assert(circuit@.subrange(0, circuit@.len() as int) == circuit@);
    match found {
        None => Ok(None),
        Some((ro, nm)) => {
            let mut j: usize = 0;
            while j < circuit.len()
                invariant
                    j <= circuit@.len(),
                    find_repeated(circuit@) == Ok::<Option<(String, usize)>, BackendError>(
                        Some((ro, nm)),
                    ),
                    forall|k: int| 0 <= k < j ==> !writes_to(circuit@[k], ro@),
                decreases circuit@.len() - j,
            {
                if op_writes_to(&circuit[j], &ro) {
                    assert(writes_to(circuit@[j as int], ro@));
                    return Ok(Some((ro, nm)));
                }
                j = j + 1;
            }
            Err(BackendError::UnmatchedSetNumberOfMeasurements { readout: ro })
        },
    }
}

fn vec_contains(v: &Vec<usize>, x: usize) -> (r: bool)
    ensures
        r == v@.contains(x),
{
    let mut i: usize = 0;
    while i < v.len()
        invariant
            i <= v@.len(),
            forall|k: int| 0 <= k < i ==> v@[k] != x,
        decreases v@.len() - i,
    {
        if v[i] == x {
            return true;
        }
        i = i + 1;
    }
    false
}

fn any_in_group(v: &Vec<usize>, group: &Vec<usize>) -> (r: bool)
    ensures
        r == meets_group(v@, group@),
{
    let mut i: usize = 0;
    while i < v.len()
        invariant
            i <= v@.len(),
            forall|k: int| 0 <= k < i ==> !group@.contains(v@[k]),
        decreases v@.len() - i,
    {
        if vec_contains(group, v[i]) {
            return true;
        }
        i = i + 1;
    }
    false
}

/// Exec form of the mode-scan state.
struct ModeScan {
    active: bool,
    group: Vec<usize>,
    measured_min: Option<usize>,
    replace: Option<usize>,
    repetitions: usize,
}

impl ModeScan {
    spec fn state(&self) -> ModeState {
        ModeState {
            active: self.active,
            group: self.group@,
            measured_min: self.measured_min,
            replace: self.replace,
            repetitions: self.repetitions,
        }
    }
}

fn give_up_exec(st: &mut ModeScan, nm: usize, base: usize) -> (r: Result<(), BackendError>)
    ensures
        match give_up(old(st).state(), nm, base) {
            Ok(s) => r is Ok && final(st).state() == s,
            Err(e) => r == Err::<(), BackendError>(e),
        },
{
    match nm.checked_mul(base) {
        Some(t) => {
            st.active = false;
            st.replace = None;
            st.repetitions = t;
            Ok(())
        },
        None => Err(BackendError::RepetitionsOverflow { measurements: nm, repetitions: base }),
    }
}

fn mode_step_exec(
    st: &mut ModeScan,
    op: &Operation,
    ro: &String,
    nm: usize,
    base: usize,
    bits: &RegisterMap<usize>,
) -> (r: Result<(), BackendError>)
    requires
        bits.wf(),
    ensures
        match mode_step(old(st).state(), *op, ro@, nm, base, bits@) {
            Ok(s) => r is Ok && final(st).state() == s,
            Err(e) => r == Err::<(), BackendError>(e),
        },
{
    if !st.active {
        return Ok(());
    }
    match &op.kind {
        OperationKind::MeasureQubit { qubit, readout, .. } => {
            if *readout != *ro || vec_contains(&st.group, *qubit) {
                give_up_exec(st, nm, base)
            } else {
                st.group.push(*qubit);
                st.measured_min = match st.measured_min {
                    Some(x) => if x <= *qubit { Some(x) } else { Some(*qubit) },
                    None => Some(*qubit),
                };
                st.replace = Some(*qubit);
                Ok(())
            }
        },
        OperationKind::PragmaRepeatedMeasurement { readout, .. } => {
            match bits.get(readout) {
                None => Err(BackendError::RegisterNotFound { name: readout.clone() }),
                Some(len) => {
                    let len = *len;
                    let overlaps = match st.measured_min {
                        Some(m) => m < len,
                        None => false,
                    };
                    if overlaps {
                        give_up_exec(st, nm, base)
                    } else {
                        if len >= 1 {
                            st.measured_min = Some(0);
                        }
                        Ok(())
                    }
                },
            }
        },
        OperationKind::PragmaStopParallelBlock => Ok(()),
        _ => match &op.involved {
            InvolvedQubits::All => {
                if st.group.len() > 0 {
                    give_up_exec(st, nm, base)
                } else {
                    Ok(())
                }
            },
            InvolvedQubits::Empty => Ok(()),
            InvolvedQubits::Qubits(v) => {
                if any_in_group(v, &st.group) {
                    give_up_exec(st, nm, base)
                } else {
                    Ok(())
                }
            },
        },
    }
}

fn has_stochastic(circuit: &Vec<Operation>) -> (r: bool)
    ensures
        r == exists|i: int| 0 <= i < circuit@.len() && is_stochastic(circuit@[i]),
{
    let mut i: usize = 0;
    while i < circuit.len()
        invariant
            i <= circuit@.len(),
            forall|k: int| 0 <= k < i ==> !is_stochastic(circuit@[k]),
        decreases circuit@.len() - i,
    {
        let s = match &circuit[i].kind {
            OperationKind::PragmaRandomNoise => true,
            OperationKind::PragmaOverrotation => true,
            _ => false,
        };
        if s {
            return true;
        }
        i = i + 1;
    }
    false
}

proof fn lemma_mode_scan_error_persists(
    ops: Seq<Operation>,
    i: int,
    init: ModeState,
    ro: Seq<char>,
    nm: usize,
    base: usize,
    bits: Map<Seq<char>, usize>,
)
    requires
        0 <= i <= ops.len(),
        mode_scan(ops.subrange(0, i), init, ro, nm, base, bits) is Err,
    ensures
        mode_scan(ops, init, ro, nm, base, bits) == mode_scan(
            ops.subrange(0, i),
            init,
            ro,
            nm,
            base,
            bits,
        ),
    decreases ops.len() - i,
{
    if i < ops.len() {
        assert(ops.subrange(0, i + 1).drop_last() == ops.subrange(0, i));
        lemma_mode_scan_error_persists(ops, i + 1, init, ro, nm, base, bits);
    } else {
        assert(ops.subrange(0, i) == ops);
    }
}

/// The (qubit, readout index) pairs of the circuit's single-qubit measurements.
fn collect_measure_pairs(circuit: &Vec<Operation>) -> (r: Vec<(usize, usize)>)
    ensures
        r@ == measure_pairs(circuit@),
{
    let mut out: Vec<(usize, usize)> = Vec::new();
    let mut i: usize = 0;
    while i < circuit.len()
        invariant
            i <= circuit@.len(),
            out@ == measure_pairs(circuit@.subrange(0, i as int)),
        decreases circuit@.len() - i,
    {
        assert(circuit@.subrange(0, i + 1).drop_last() == circuit@.subrange(0, i as int));
        if let OperationKind::MeasureQubit { qubit, readout_index, .. } = &circuit[i].kind {
            out.push((*qubit, *readout_index));
        }
        i = i + 1;
    }
    assert(circuit@.subrange(0, circuit@.len() as int) == circuit@);
    out
}

/// Decides how a circuit's repeated measurement is executed, given its
/// pending repeated measurement, the configured repetitions and the lengths of
/// its bit output registers. Returns the number of full runs and the mode.
pub fn plan_measurements(
    circuit: &Vec<Operation>,
    pending: Option<(String, usize)>,
    repetitions: usize,
    bits: &RegisterMap<usize>,
) -> (r: Result<(usize, MeasurementMode), BackendError>)
    requires
        bits.wf(),
    ensures
        match decide_mode(circuit@, pending, repetitions, bits@) {
            Ok(st) => r matches Ok((n, mode)) && n == run_count(st) && mode_matches(
                mode,
                circuit@,
                st,
                pending,
            ),
            Err(e) => r == Err::<(usize, MeasurementMode), BackendError>(e),
        },
{
    let base = if has_stochastic(circuit) { repetitions } else { 1 };
    let ghost init = initial_mode(pending, base);
    let ghost requested = pending;
    match pending {
        None => Ok((base, MeasurementMode::FullReplay)),
        Some((ro, nm)) => {
            let mut st = ModeScan {
                active: true,
                group: Vec::new(),
                measured_min: None,
                replace: Some(0),
                repetitions: base,
            };
            assert(st.state() == init);
            let mut i: usize = 0;
            while i < circuit.len()
                invariant
                    i <= circuit@.len(),
                    bits.wf(),
                    requested == Some::<(String, usize)>((ro, nm)),
                    pending == requested,
                    init == initial_mode(requested, base),
                    base == base_repetitions(circuit@, repetitions),
                    mode_scan(circuit@.subrange(0, i as int), init, ro@, nm, base, bits@) == Ok::<
                        ModeState,
                        BackendError,
                    >(st.state()),
                decreases circuit@.len() - i,
            {
                assert(circuit@.subrange(0, i + 1).drop_last() == circuit@.subrange(0, i as int));
                assert(circuit@.subrange(0, i + 1).last() == circuit@[i as int]);
                let ghost before = st.state();
                let res = mode_step_exec(&mut st, &circuit[i], &ro, nm, base, bits);
                match res {
                    Ok(()) => {},
                    Err(e) => {
                        assert(mode_step(before, circuit@[i as int], ro@, nm, base, bits@) == Err::<
                            ModeState,
                            BackendError,
                        >(e));
                        assert(mode_scan(circuit@.subrange(0, i + 1), init, ro@, nm, base, bits@)
                            == Err::<ModeState, BackendError>(e));
                        proof {
                            lemma_mode_scan_error_persists(
                                circuit@,
                                i + 1,
                                init,
                                ro@,
                                nm,
                                base,
                                bits@,
                            );
                        }
                        return Err(e);
                    },
                }
                i = i + 1;
            }
            assert(circuit@.subrange(0, circuit@.len() as int) == circuit@);
            match st.replace {
                None => Ok((st.repetitions, MeasurementMode::FullReplay)),
                Some(q) => {
                    let mapping = collect_measure_pairs(circuit);
                    Ok(
                        (
                            1,
                            MeasurementMode::SampledReplace {
                                qubit_marker: q,
                                readout: ro,
                                number_measurements: nm,
                                mapping,
                            },
                        ),
                    )
                },
            }
        },
    }
}

/// How one operation of a shot is executed under a measurement mode.
#[derive(Debug)]
pub enum ShotStep {
    /// Dispatch the operation as usual.
    Dispatch,
    /// Measure each (qubit, readout index) pair by collapsing the state.
    MeasureEach { targets: Vec<(usize, usize)> },
    /// Sample the repeated measurement from the register's probabilities.
    SampleRepeated,
    /// Run the sampling shortcut in place of this measurement.
    SampleReplaced,
    /// The measurement is covered by the sampling shortcut.
    Skip,
}

/// The step owed for `op` under `mode` with bit output register lengths `bits`.
pub open spec fn shot_step_of(
    op: Operation,
    mode: MeasurementMode,
    bits: Map<Seq<char>, usize>,
    r: Result<ShotStep, BackendError>,
) -> bool {
    match op.kind {
        OperationKind::PragmaRepeatedMeasurement { readout, qubit_mapping, .. } => match mode {
            MeasurementMode::FullReplay => if bits.contains_key(readout@) {
                r matches Ok(ShotStep::MeasureEach { targets }) && targets@ == replay_targets(
                    bits[readout@],
                    match qubit_mapping {
                        Some(m) => Some(m@),
                        None => None,
                    },
                )
            } else {
                r == Err::<ShotStep, BackendError>(BackendError::RegisterNotFound { name: readout })
            },
            MeasurementMode::SampledReplace { .. } => r matches Ok(ShotStep::SampleRepeated),
        },
        OperationKind::MeasureQubit { qubit, .. } => match mode {
            MeasurementMode::FullReplay => r matches Ok(ShotStep::Dispatch),
            MeasurementMode::SampledReplace { qubit_marker, .. } => if qubit == qubit_marker {
                r matches Ok(ShotStep::SampleReplaced)
            } else {
                r matches Ok(ShotStep::Skip)
            },
        },
        _ => r matches Ok(ShotStep::Dispatch),
    }
}

/// Decides how an operation of a shot is executed: under full replay a
/// repeated measurement becomes single-qubit measurements of the register's
/// qubits; under the sampling shortcut the marked measurement triggers the
/// sampling and the other measurements are left out.
pub fn shot_step(op: &Operation, mode: &MeasurementMode, bits: &RegisterMap<usize>) -> (r: Result<
    ShotStep,
    BackendError,
>)
    requires
        bits.wf(),
    ensures
        shot_step_of(*op, *mode, bits@, r),
{
    match &op.kind {
        OperationKind::PragmaRepeatedMeasurement { readout, qubit_mapping, .. } => match mode {
            MeasurementMode::FullReplay => match bits.get(readout) {
                Some(length) => {
                    let m = match qubit_mapping {
                        Some(m) => Some(m),
                        None => None,
                    };
                    assert(mapping_view(m) == match qubit_mapping {
                        Some(m) => Some(m@),
                        None => None::<Seq<(usize, usize)>>,
                    });
                    Ok(ShotStep::MeasureEach { targets: repeated_measurement_targets(*length, m) })
                },
                None => Err(BackendError::RegisterNotFound { name: readout.clone() }),
            },
            MeasurementMode::SampledReplace { .. } => Ok(ShotStep::SampleRepeated),
        },
        OperationKind::MeasureQubit { qubit, .. } => match mode {
            MeasurementMode::FullReplay => Ok(ShotStep::Dispatch),
            MeasurementMode::SampledReplace { qubit_marker, .. } => if *qubit == *qubit_marker {
                Ok(ShotStep::SampleReplaced)
            } else {
                Ok(ShotStep::Skip)
            },
        },
        _ => Ok(ShotStep::Dispatch),
    }
}

/// The only error of the pragma search is a duplicate, and a search that
/// finds nothing saw no pragma.
proof fn lemma_find_repeated_shape(ops: Seq<Operation>)
    ensures
        find_repeated(ops) is Err ==> find_repeated(ops) == Err::<
            Option<(String, usize)>,
            BackendError,
        >(BackendError::DuplicateRepeatedMeasurement),
        find_repeated(ops) == Ok::<Option<(String, usize)>, BackendError>(None) ==> forall|i: int|
            0 <= i < ops.len() ==> #[trigger] repeated_pragma(ops[i]) is None,
    decreases ops.len(),
{
    if ops.len() > 0 {
        let p = ops.drop_last();
        lemma_find_repeated_shape(p);
        if find_repeated(ops) == Ok::<Option<(String, usize)>, BackendError>(None) {
            assert forall|i: int| 0 <= i < ops.len() implies #[trigger] repeated_pragma(ops[i]) is None by {
                if i < ops.len() - 1 {
                    assert(ops[i] == p[i]);
                }
            }
        }
    }
}

/// A circuit may hold only one repeated-measurement pragma: with two of
/// them (repeated measurement or set-number-of-measurements, in any
/// combination and order), finding the pending measurement fails with
/// `DuplicateRepeatedMeasurement`.
pub proof fn lemma_duplicate_measurement_rejected(ops: Seq<Operation>, i: int, j: int)
    requires
        0 <= i < j < ops.len(),
        repeated_pragma(ops[i]) is Some,
        repeated_pragma(ops[j]) is Some,
    ensures
        pending_measurement(ops) == Err::<Option<(String, usize)>, BackendError>(
            BackendError::DuplicateRepeatedMeasurement,
        ),
{
    let pre = ops.subrange(0, j);
    let upto = ops.subrange(0, j + 1);
    assert(upto.drop_last() == pre);
    assert(upto.last() == ops[j]);
    lemma_find_repeated_shape(pre);
    assert(pre[i] == ops[i]);
    assert(find_repeated(upto) is Err);
    lemma_find_repeated_shape(upto);
    lemma_find_repeated_error_persists(ops, j + 1);
}

} // verus!
