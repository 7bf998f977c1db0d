use vstd::prelude::*;
use crate::circuit::{InvolvedQubits, Operation, OperationKind};
use crate::error::BackendError;
use crate::registers::RegisterMap;

verus! {

/// What a scan of a circuit prefix has found: one more than the largest qubit
/// index used (0 if none), and the declared lengths of the output registers of
/// each kind.
pub struct ScanState {
    pub needed: nat,
    pub bits: Map<Seq<char>, usize>,
    pub floats: Map<Seq<char>, usize>,
    pub complexes: Map<Seq<char>, usize>,
}

/// One more than the largest qubit in `q`, or 0 for no qubit.
pub open spec fn qubits_bound(q: Seq<usize>) -> nat
    decreases q.len(),
{
    if q.len() == 0 {
        0
    } else {
        let b = qubits_bound(q.drop_last());
        let c = q.last() as nat + 1;
        if b >= c { b } else { c }
    }
}

/// One more than the largest key of a qubit mapping, or 0 if it is empty.
pub open spec fn keys_bound(m: Seq<(usize, usize)>) -> nat
    decreases m.len(),
{
    if m.len() == 0 {
        0
    } else {
        let b = keys_bound(m.drop_last());
        let c = m.last().0 as nat + 1;
        if b >= c { b } else { c }
    }
}

/// The first mapped index that is not below `length`.
pub open spec fn first_out_of_range(m: Seq<(usize, usize)>, length: usize) -> Option<usize>
    decreases m.len(),
{
    if m.len() == 0 {
        None
    } else {
        match first_out_of_range(m.drop_last(), length) {
            Some(x) => Some(x),
            None => if m.last().1 >= length { Some(m.last().1) } else { None },
        }
    }
}

/// The largest `k` with `base^k <= n`, and 0 for `n == 0`.
pub open spec fn floor_log(base: nat, n: nat) -> nat
    decreases n
    via floor_log_decreases
{
    if base < 2 || n < base {
        0
    } else {
        1 + floor_log(base, n / base)
    }
}

#[via_fn]
proof fn floor_log_decreases(base: nat, n: nat) {
    if !(base < 2 || n < base) {
        assert(n / base < n) by (nonlinear_arith)
            requires base >= 2, n >= base;
    }
}

pub open spec fn max_nat(a: nat, b: nat) -> nat {
    if a >= b { a } else { b }
}

/// The qubits named by the operation's involved-qubit set.
pub open spec fn involved_bound(inv: InvolvedQubits) -> nat {
    match inv {
        InvolvedQubits::Qubits(v) => qubits_bound(v@),
        _ => 0,
    }
}

/// Error for a qubit index that cannot be followed by a qubit count.
pub open spec fn overflow_error() -> BackendError {
    BackendError::QubitIndexOverflow { qubit: usize::MAX }
}

/// The scan of one operation after a prefix was scanned into `st`.
pub open spec fn scan_step(st: ScanState, op: Operation) -> Result<ScanState, BackendError> {
    let ib = involved_bound(op.involved);
    if ib > usize::MAX {
        Err(overflow_error())
    } else {
        let s = ScanState { needed: max_nat(st.needed, ib), ..st };
        match op.kind {
            OperationKind::DefinitionBit { name, length, is_output } => Ok(
                if is_output { ScanState { bits: s.bits.insert(name@, length), ..s } } else { s },
            ),
            OperationKind::DefinitionFloat { name, length, is_output } => Ok(
                if is_output { ScanState { floats: s.floats.insert(name@, length), ..s } } else { s },
            ),
            OperationKind::DefinitionComplex { name, length, is_output } => Ok(
                if is_output {
                    ScanState { complexes: s.complexes.insert(name@, length), ..s }
                } else {
                    s
                },
            ),
            OperationKind::PragmaGetDensityMatrix { readout, .. } => if s.complexes.contains_key(
                readout@,
            ) {
                Ok(
                    ScanState {
                        needed: max_nat(s.needed, floor_log(4, s.complexes[readout@] as nat)),
                        ..s
                    },
                )
            } else {
                Err(BackendError::RegisterNotFound { name: readout })
            },
            OperationKind::PragmaGetStateVector { readout, .. } => if s.complexes.contains_key(
                readout@,
            ) {
                Ok(
                    ScanState {
                        needed: max_nat(s.needed, floor_log(2, s.complexes[readout@] as nat)),
                        ..s
                    },
                )
            } else {
                Err(BackendError::RegisterNotFound { name: readout })
            },
            OperationKind::PragmaRepeatedMeasurement { readout, qubit_mapping, .. } => if s.bits.contains_key(
                readout@,
            ) {
                let length = s.bits[readout@];
                match qubit_mapping {
                    Some(m) => match first_out_of_range(m@, length) {
                        Some(x) => Err(BackendError::IndexOutOfRange { index: x, length }),
                        None => if keys_bound(m@) > usize::MAX {
                            Err(overflow_error())
                        } else {
                            Ok(ScanState { needed: max_nat(s.needed, keys_bound(m@)), ..s })
                        },
                    },
                    None => Ok(ScanState { needed: max_nat(s.needed, length as nat), ..s }),
                }
            } else {
                Err(BackendError::RegisterNotFound { name: readout })
            },
            OperationKind::PragmaGetOccupationProbability { readout, .. } => if s.floats.contains_key(
                readout@,
            ) {
                Ok(ScanState { needed: max_nat(s.needed, s.floats[readout@] as nat), ..s })
            } else {
                Err(BackendError::RegisterNotFound { name: readout })
            },
            OperationKind::PragmaGetPauliProduct { qubits, readout, .. } => if qubits_bound(qubits@)
                > usize::MAX {
                Err(overflow_error())
            } else if s.floats.contains_key(readout@) {
                Ok(ScanState { needed: max_nat(s.needed, qubits_bound(qubits@)), ..s })
            } else {
                Err(BackendError::RegisterNotFound { name: readout })
            },
            OperationKind::MeasureQubit { readout, readout_index, .. } => if s.bits.contains_key(
                readout@,
            ) {
                if readout_index >= s.bits[readout@] {
                    Err(
                        BackendError::IndexOutOfRange {
                            index: readout_index,
                            length: s.bits[readout@],
                        },
                    )
                } else {
                    Ok(s)
                }
            } else {
                Err(BackendError::RegisterNotFound { name: readout })
            },
            _ => Ok(s),
        }
    }
}

/// The scan of a whole circuit, stopping at the first error.
pub open spec fn scan(ops: Seq<Operation>) -> Result<ScanState, BackendError>
    decreases ops.len(),
{
    if ops.len() == 0 {
        Ok(
            ScanState {
                needed: 0,
                bits: Map::empty(),
                floats: Map::empty(),
                complexes: Map::empty(),
            },
        )
    } else {
        match scan(ops.drop_last()) {
            Ok(st) => scan_step(st, ops.last()),
            Err(e) => Err(e),
        }
    }
}

/// Number of qubits a scanned circuit needs: one more than its largest qubit,
/// and one when it uses none.
pub open spec fn required_qubits(st: ScanState) -> nat {
    if st.needed == 0 {
        1
    } else {
        st.needed
    }
}

/// The result that preprocessing a circuit owes: the number of qubits it needs
/// and the lengths of its bit output registers, or the first error.
pub open spec fn preprocess_result(ops: Seq<Operation>) -> Result<(nat, Map<Seq<char>, usize>), BackendError> {
    match scan(ops) {
        Ok(st) => Ok((required_qubits(st), st.bits)),
        Err(e) => Err(e),
    }
}

/// The qubit count a scan finds fits in a machine word.
pub(crate) proof fn lemma_scan_needed_bounded(ops: Seq<Operation>)
    ensures
        scan(ops) matches Ok(st) ==> st.needed <= usize::MAX,
    decreases ops.len(),
{
    if ops.len() > 0 {
        lemma_scan_needed_bounded(ops.drop_last());
        if let Ok(st) = scan(ops.drop_last()) {
            if let OperationKind::PragmaGetDensityMatrix { readout, .. } = ops.last().kind {
                if st.complexes.contains_key(readout@) {
                    lemma_floor_log_le(4, st.complexes[readout@] as nat);
                }
            }
            if let OperationKind::PragmaGetStateVector { readout, .. } = ops.last().kind {
                if st.complexes.contains_key(readout@) {
                    lemma_floor_log_le(2, st.complexes[readout@] as nat);
                }
            }
        }
    }
}

proof fn lemma_floor_log_le(base: nat, n: nat)
    ensures
        floor_log(base, n) <= n,
    decreases n,
{
    if base >= 2 && n >= base {
        assert(n / base < n) by (nonlinear_arith)
            requires base >= 2, n >= base;
        lemma_floor_log_le(base, n / base);
    }
}

/// An error of a prefix is the error of the whole circuit.
proof fn lemma_scan_error_persists(ops: Seq<Operation>, i: int)
    requires
        0 <= i <= ops.len(),
        scan(ops.subrange(0, i)) is Err,
    ensures
        scan(ops) == scan(ops.subrange(0, i)),
    decreases ops.len() - i,
{
    if i < ops.len() {
        let p = ops.subrange(0, i + 1);
        assert(p.drop_last() == ops.subrange(0, i));
        lemma_scan_error_persists(ops, i + 1);
    } else {
        assert(ops.subrange(0, i) == ops);
    }
}

/// `floor_log(base, n)`, computed by repeated division.
fn floor_log_exec(base: usize, n: usize) -> (r: usize)
    requires
        base >= 2,
    ensures
        r == floor_log(base as nat, n as nat),
{
    let mut k: usize = 0;
    let mut m: usize = n;
    while m >= base
        invariant
            base >= 2,
            k + floor_log(base as nat, m as nat) == floor_log(base as nat, n as nat),
            k <= n - m,
            m <= n,
        decreases m,
    {
        assert(m / base < m && m - m / base >= 1) by (nonlinear_arith)
            requires base >= 2, m >= base;
        m = m / base;
        k = k + 1;
    }
    k
}

/// `max(needed, qubits_bound(q))`, or `None` when a qubit has no successor.
fn extend_with_qubits(needed: usize, q: &Vec<usize>) -> (r: Option<usize>)
    ensures
        qubits_bound(q@) > usize::MAX <==> r is None,
        r matches Some(n) ==> n == max_nat(needed as nat, qubits_bound(q@)),
{
    let mut b: usize = needed;
    let mut i: usize = 0;
    while i < q.len()
        invariant
            i <= q@.len(),
            b == max_nat(needed as nat, qubits_bound(q@.subrange(0, i as int))),
            qubits_bound(q@.subrange(0, i as int)) <= usize::MAX,
        decreases q@.len() - i,
    {
        assert(q@.subrange(0, i + 1).drop_last() == q@.subrange(0, i as int));
        if q[i] == usize::MAX {
            proof {
                lemma_qubits_bound_monotone(q@, i + 1);
            }
            return None;
        }
        if q[i] + 1 > b {
            b = q[i] + 1;
        }
        i = i + 1;
    }
    assert(q@.subrange(0, q@.len() as int) == q@);
    Some(b)
}

proof fn lemma_qubits_bound_monotone(q: Seq<usize>, i: int)
    requires
        0 <= i <= q.len(),
    ensures
        qubits_bound(q.subrange(0, i)) <= qubits_bound(q),
    decreases q.len() - i,
{
    if i < q.len() {
        lemma_qubits_bound_monotone(q, i + 1);
        assert(q.subrange(0, i + 1).drop_last() == q.subrange(0, i));
    } else {
        assert(q.subrange(0, i) == q);
    }
}

proof fn lemma_keys_bound_monotone(m: Seq<(usize, usize)>, i: int)
    requires
        0 <= i <= m.len(),
    ensures
        keys_bound(m.subrange(0, i)) <= keys_bound(m),
    decreases m.len() - i,
{
    if i < m.len() {
        lemma_keys_bound_monotone(m, i + 1);
        assert(m.subrange(0, i + 1).drop_last() == m.subrange(0, i));
    } else {
        assert(m.subrange(0, i) == m);
    }
}

/// Checks a qubit mapping against a register length and extends `needed` by its keys.
fn extend_with_mapping(needed: usize, m: &Vec<(usize, usize)>, length: usize) -> (r: Result<usize, BackendError>)
    ensures
        match first_out_of_range(m@, length) {
            Some(x) => r == Err::<usize, BackendError>(BackendError::IndexOutOfRange { index: x, length }),
            None => if keys_bound(m@) > usize::MAX {
                r == Err::<usize, BackendError>(overflow_error())
            } else {
                r == Ok::<usize, BackendError>(max_nat(needed as nat, keys_bound(m@)) as usize)
            },
        },
{
    let mut i: usize = 0;
    while i < m.len()
        invariant
            i <= m@.len(),
            first_out_of_range(m@.subrange(0, i as int), length) is None,
        decreases m@.len() - i,
    {
        assert(m@.subrange(0, i + 1).drop_last() == m@.subrange(0, i as int));
        if m[i].1 >= length {
            proof {
                lemma_first_out_of_range_prefix(m@, i + 1, length);
            }
            return Err(BackendError::IndexOutOfRange { index: m[i].1, length });
        }
        i = i + 1;
    }
    assert(m@.subrange(0, m@.len() as int) == m@);
    let mut b: usize = needed;
    let mut j: usize = 0;
    while j < m.len()
        invariant
            j <= m@.len(),
            first_out_of_range(m@, length) is None,
            b == max_nat(needed as nat, keys_bound(m@.subrange(0, j as int))),
            keys_bound(m@.subrange(0, j as int)) <= usize::MAX,
        decreases m@.len() - j,
    {
        assert(m@.subrange(0, j + 1).drop_last() == m@.subrange(0, j as int));
        if m[j].0 == usize::MAX {
            proof {
                lemma_keys_bound_monotone(m@, j + 1);
            }
            return Err(BackendError::QubitIndexOverflow { qubit: usize::MAX });
        }
        if m[j].0 + 1 > b {
            b = m[j].0 + 1;
        }
        j = j + 1;
    }
    Ok(b)
}

proof fn lemma_first_out_of_range_prefix(m: Seq<(usize, usize)>, i: int, length: usize)
    requires
        0 <= i <= m.len(),
        first_out_of_range(m.subrange(0, i), length) is Some,
    ensures
        first_out_of_range(m, length) == first_out_of_range(m.subrange(0, i), length),
    decreases m.len() - i,
{
    if i < m.len() {
        assert(m.subrange(0, i + 1).drop_last() == m.subrange(0, i));
        lemma_first_out_of_range_prefix(m, i + 1, length);
    } else {
        assert(m.subrange(0, i) == m);
    }
}

/// Exec form of the scan state.
struct Scan {
    needed: usize,
    bits: RegisterMap<usize>,
    floats: RegisterMap<usize>,
    complexes: RegisterMap<usize>,
}

impl Scan {
    spec fn state(&self) -> ScanState {
        ScanState {
            needed: self.needed as nat,
            bits: self.bits@,
            floats: self.floats@,
            complexes: self.complexes@,
        }
    }

    spec fn wf(&self) -> bool {
        self.bits.wf() && self.floats.wf() && self.complexes.wf()
    }
}

/// Scans one operation.
fn scan_operation(st: &mut Scan, op: &Operation) -> (r: Result<(), BackendError>)
    requires
        old(st).wf(),
    ensures
        final(st).wf(),
        match scan_step(old(st).state(), *op) {
            Ok(s) => r is Ok && final(st).state() == s,
            Err(e) => r == Err::<(), BackendError>(e),
        },
{
    if let InvolvedQubits::Qubits(q) = &op.involved {
        match extend_with_qubits(st.needed, q) {
            Some(n) => {
                st.needed = n;
            },
            None => {
                return Err(BackendError::QubitIndexOverflow { qubit: usize::MAX });
            },
        }
    }
    match &op.kind {
        OperationKind::DefinitionBit { name, length, is_output } => {
            if *is_output {
                st.bits.insert(name.clone(), *length);
            }
            Ok(())
        },
        OperationKind::DefinitionFloat { name, length, is_output } => {
            if *is_output {
                st.floats.insert(name.clone(), *length);
            }
            Ok(())
        },
        OperationKind::DefinitionComplex { name, length, is_output } => {
            if *is_output {
                st.complexes.insert(name.clone(), *length);
            }
            Ok(())
        },
        OperationKind::PragmaGetDensityMatrix { readout, .. } => {
            match st.complexes.get(readout) {
                Some(length) => {
                    let k = floor_log_exec(4, *length);
                    if k > st.needed {
                        st.needed = k;
                    }
                    Ok(())
                },
                None => Err(BackendError::RegisterNotFound { name: readout.clone() }),
            }
        },
        OperationKind::PragmaGetStateVector { readout, .. } => {
            match st.complexes.get(readout) {
                Some(length) => {
                    let k = floor_log_exec(2, *length);
                    if k > st.needed {
                        st.needed = k;
                    }
                    Ok(())
                },
                None => Err(BackendError::RegisterNotFound { name: readout.clone() }),
            }
        },
        OperationKind::PragmaRepeatedMeasurement { readout, qubit_mapping, .. } => {
            match st.bits.get(readout) {
                Some(length) => {
                    let length = *length;
                    match qubit_mapping {
                        Some(m) => {
                            let n = extend_with_mapping(st.needed, m, length)?;
                            st.needed = n;
                            Ok(())
                        },
                        None => {
                            if length > st.needed {
                                st.needed = length;
                            }
                            Ok(())
                        },
                    }
                },
                None => Err(BackendError::RegisterNotFound { name: readout.clone() }),
            }
        },
        OperationKind::PragmaGetOccupationProbability { readout, .. } => {
            match st.floats.get(readout) {
                Some(length) => {
                    if *length > st.needed {
                        st.needed = *length;
                    }
                    Ok(())
                },
                None => Err(BackendError::RegisterNotFound { name: readout.clone() }),
            }
        },
        OperationKind::PragmaGetPauliProduct { qubits, readout, .. } => {
            match extend_with_qubits(st.needed, qubits) {
                Some(n) => {
                    if st.floats.contains(readout) {
                        st.needed = n;
                        Ok(())
                    } else {
                        Err(BackendError::RegisterNotFound { name: readout.clone() })
                    }
                },
                None => Err(BackendError::QubitIndexOverflow { qubit: usize::MAX }),
            }
        },
        OperationKind::MeasureQubit { readout, readout_index, .. } => {
            match st.bits.get(readout) {
                Some(length) => {
                    if *readout_index >= *length {
                        Err(BackendError::IndexOutOfRange { index: *readout_index, length: *length })
                    } else {
                        Ok(())
                    }
                },
                None => Err(BackendError::RegisterNotFound { name: readout.clone() }),
            }
        },
        _ => Ok(()),
    }
}

/// Scans a circuit once: the number of qubits it needs (one more than the
/// largest qubit index it uses, and one if it uses none) and the declared
/// lengths of its bit output registers, with the register references checked.
pub fn get_number_used_qubits_and_registers(circuit: &Vec<Operation>) -> (r: Result<
    (usize, RegisterMap<usize>),
    BackendError,
>)
    ensures
        preprocessed(circuit@, r),
{
    let mut st = Scan {
        needed: 0,
        bits: RegisterMap::new(),
        floats: RegisterMap::new(),
        complexes: RegisterMap::new(),
    };
    let mut i: usize = 0;
    while i < circuit.len()
        invariant
            i <= circuit@.len(),
            st.wf(),
            scan(circuit@.subrange(0, i as int)) == Ok::<ScanState, BackendError>(st.state()),
        decreases circuit@.len() - i,
    {
        let ghost before = st.state();
        let res = scan_operation(&mut st, &circuit[i]);
        assert(circuit@.subrange(0, i + 1).drop_last() == circuit@.subrange(0, i as int));
        assert(circuit@.subrange(0, i + 1).last() == circuit@[i as int]);
        match res {
            Ok(()) => {},
            Err(e) => {
                proof {
                    lemma_scan_error_persists(circuit@, i + 1);
                }
                return Err(e);
            },
        }
        i = i + 1;
    }
    assert(circuit@.subrange(0, circuit@.len() as int) == circuit@);
    let n = if st.needed == 0 { 1 } else { st.needed };
    Ok((n, st.bits))
}

/// Whether `r` is what preprocessing `ops` owes.
pub open spec fn preprocessed(ops: Seq<Operation>, r: Result<(usize, RegisterMap<usize>), BackendError>) -> bool {
    match preprocess_result(ops) {
        Ok((n, bits)) => r matches Ok((m, regs)) && m == n && regs.wf() && regs@ == bits,
        Err(e) => r == Err::<(usize, RegisterMap<usize>), BackendError>(e),
    }
}

/// Preprocessing is idempotent: any two results that preprocessing the same
/// circuit may return, such as those of two runs, have the same qubit count
/// and the same register lengths, or are the same error.
pub proof fn lemma_preprocessing_idempotent(
    ops: Seq<Operation>,
    r1: Result<(usize, RegisterMap<usize>), BackendError>,
    r2: Result<(usize, RegisterMap<usize>), BackendError>,
)
    requires
        preprocessed(ops, r1),
        preprocessed(ops, r2),
    ensures
        r1 is Ok <==> r2 is Ok,
        r1 is Ok ==> r1->Ok_0.0 == r2->Ok_0.0 && r1->Ok_0.1@ == r2->Ok_0.1@,
        r1 is Err ==> r1 == r2,
{
}

} // verus!
