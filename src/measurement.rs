use vstd::prelude::*;
use crate::error::BackendError;
use crate::planning::mapped_index;
use crate::registers::RegisterMap;

verus! {

/// Bit `k` of the binary expansion of `n` (bit 0 is the least significant).
pub open spec fn bit_of(n: nat, k: nat) -> bool
    decreases k,
{
    if k == 0 {
        n % 2 == 1
    } else {
        bit_of(n / 2, (k - 1) as nat)
    }
}

/// The first `number_qubits` bits of a basis-state index, qubit 0 first.
pub fn index_to_qubits(index: usize, number_qubits: usize) -> (r: Vec<bool>)
    ensures
        r@.len() == number_qubits,
        forall|k: int| 0 <= k < number_qubits ==> r@[k] == bit_of(index as nat, k as nat),
{
    let mut out: Vec<bool> = Vec::new();
    let mut rest: usize = index;
    let mut k: usize = 0;
    while k < number_qubits
        invariant
            k <= number_qubits,
            out@.len() == k,
            forall|j: int| 0 <= j < k ==> out@[j] == bit_of(index as nat, j as nat),
            forall|j: nat| bit_of(rest as nat, j) == bit_of(index as nat, (j + k) as nat),
        decreases number_qubits - k,
    {
        assert(bit_of(rest as nat, 0) == bit_of(index as nat, k as nat));
        out.push(rest % 2 == 1);
        let ghost old_rest = rest;
        rest = rest / 2;
        assert forall|j: nat| bit_of(rest as nat, j) == bit_of(index as nat, (j + (k + 1)) as nat) by {
            assert(bit_of(old_rest as nat, (j + 1) as nat) == bit_of(index as nat, (j + 1 + k) as nat));
            assert(bit_of(old_rest as nat, (j + 1) as nat) == bit_of((old_rest / 2) as nat, j));
        }
        k = k + 1;
    }
    out
}

/// Where the measurement of qubit `k` is written: the index the mapping gives
/// it; without a mapping, index `k`; a qubit the mapping leaves out is written
/// to index `k` when `unmapped_to_self`, else not at all.
pub open spec fn target_of(mapping: Option<Seq<(usize, usize)>>, k: usize, unmapped_to_self: bool) -> Option<usize> {
    match mapping {
        None => Some(k),
        Some(m) => match mapped_index(m, k) {
            Some(i) => Some(i),
            None => if unmapped_to_self { Some(k) } else { None },
        },
    }
}

/// The row that a sampled basis-state `index` gives: `base` with the bit of
/// each qubit below `nq` written to its target, qubit 0 first.
pub open spec fn sampled_row(
    base: Seq<bool>,
    index: usize,
    nq: nat,
    mapping: Option<Seq<(usize, usize)>>,
    unmapped_to_self: bool,
) -> Result<Seq<bool>, BackendError>
    decreases nq,
{
    if nq == 0 {
        Ok(base)
    } else {
        let k = (nq - 1) as nat;
        match sampled_row(base, index, k, mapping, unmapped_to_self) {
            Err(e) => Err(e),
            Ok(row) => match target_of(mapping, k as usize, unmapped_to_self) {
                None => Ok(row),
                Some(t) => if t < row.len() {
                    Ok(row.update(t as int, bit_of(index as nat, k)))
                } else {
                    Err(BackendError::IndexOutOfRange { index: t, length: row.len() as usize })
                },
            },
        }
    }
}

proof fn lemma_sampled_row_error_persists(
    base: Seq<bool>,
    index: usize,
    k: nat,
    n: nat,
    mapping: Option<Seq<(usize, usize)>>,
    u: bool,
)
    requires
        k <= n,
        sampled_row(base, index, k, mapping, u) is Err,
    ensures
        sampled_row(base, index, n, mapping, u) == sampled_row(base, index, k, mapping, u),
    decreases n - k,
{
    if k < n {
        assert(sampled_row(base, index, k + 1, mapping, u) == sampled_row(base, index, k, mapping, u));
        lemma_sampled_row_error_persists(base, index, k + 1, n, mapping, u);
    }
}

/// Whether a row can be written does not depend on the sampled index.
proof fn lemma_sampled_row_same_shape(
    base: Seq<bool>,
    a: usize,
    b: usize,
    n: nat,
    mapping: Option<Seq<(usize, usize)>>,
    u: bool,
)
    ensures
        sampled_row(base, a, n, mapping, u) is Err ==> sampled_row(base, b, n, mapping, u)
            == sampled_row(base, a, n, mapping, u),
        sampled_row(base, a, n, mapping, u) is Ok ==> sampled_row(base, b, n, mapping, u) is Ok
            && sampled_row(base, a, n, mapping, u)->Ok_0.len() == sampled_row(
            base,
            b,
            n,
            mapping,
            u,
        )->Ok_0.len(),
    decreases n,
{
    if n > 0 {
        lemma_sampled_row_same_shape(base, a, b, (n - 1) as nat, mapping, u);
    }
}

/// The index that the last pair for qubit `k` gives it.
pub fn find_mapped_index(m: &Vec<(usize, usize)>, k: usize) -> (r: Option<usize>)
    ensures
        r == mapped_index(m@, k),
{
    let mut i: usize = m.len();
    assert(m@.subrange(0, i as int) == m@);
    while i > 0
        invariant
            i <= m@.len(),
            mapped_index(m@, k) == mapped_index(m@.subrange(0, i as int), k),
        decreases i,
    {
        let ghost p = m@.subrange(0, i as int);
        assert(p.drop_last() == m@.subrange(0, i - 1));
        if m[i - 1].0 == k {
            return Some(m[i - 1].1);
        }
        i = i - 1;
    }
    None
}

fn target_exec(mapping: Option<&Vec<(usize, usize)>>, k: usize, unmapped_to_self: bool) -> (r: Option<usize>)
    ensures
        r == target_of(mapping_view(mapping), k, unmapped_to_self),
{
    match mapping {
        None => Some(k),
        Some(m) => match find_mapped_index(m, k) {
            Some(i) => Some(i),
            None => if unmapped_to_self { Some(k) } else { None },
        },
    }
}

pub open spec fn mapping_view(mapping: Option<&Vec<(usize, usize)>>) -> Option<Seq<(usize, usize)>> {
    match mapping {
        Some(m) => Some(m@),
        None => None,
    }
}

/// The row that sampled basis-state `index` writes into a copy of `base`.
pub fn measurement_row(
    base: &Vec<bool>,
    index: usize,
    number_qubits: usize,
    mapping: Option<&Vec<(usize, usize)>>,
    unmapped_to_self: bool,
) -> (r: Result<Vec<bool>, BackendError>)
    ensures
        match sampled_row(base@, index, number_qubits as nat, mapping_view(mapping), unmapped_to_self) {
            Ok(row) => r matches Ok(v) && v@ == row,
            Err(e) => r == Err::<Vec<bool>, BackendError>(e),
        },
{
    let bits = index_to_qubits(index, number_qubits);
    let mut row: Vec<bool> = Vec::new();
    let mut j: usize = 0;
    while j < base.len()
        invariant
            j <= base@.len(),
            row@ == base@.subrange(0, j as int),
        decreases base@.len() - j,
    {
        row.push(base[j]);
        j = j + 1;
    }
    assert(row@ == base@);
    let mut k: usize = 0;
    while k < number_qubits
        invariant
            k <= number_qubits,
            bits@.len() == number_qubits,
            forall|q: int| 0 <= q < number_qubits ==> bits@[q] == bit_of(index as nat, q as nat),
            sampled_row(base@, index, k as nat, mapping_view(mapping), unmapped_to_self) == Ok::<
                Seq<bool>,
                BackendError,
            >(row@),
        decreases number_qubits - k,
    {
        match target_exec(mapping, k, unmapped_to_self) {
            None => {},
            Some(t) => {
                if t < row.len() {
                    row.set(t, bits[k]);
                } else {
                    proof {
                        assert(sampled_row(base@, index, (k + 1) as nat, mapping_view(mapping), unmapped_to_self)
                            == Err::<Seq<bool>, BackendError>(BackendError::IndexOutOfRange { index: t, length: row@.len() as usize }));
                        lemma_sampled_row_error_persists(base@, index, (k + 1) as nat, number_qubits as nat, mapping_view(mapping), unmapped_to_self);
                    }
                    return Err(BackendError::IndexOutOfRange { index: t, length: row.len() });
                }
            },
        }
        k = k + 1;
    }
    Ok(row)
}

/// The rows that a list of sampled basis-state indices gives, in order.
pub fn sampled_rows(
    base: &Vec<bool>,
    samples: &Vec<usize>,
    number_qubits: usize,
    mapping: Option<&Vec<(usize, usize)>>,
    unmapped_to_self: bool,
) -> (r: Result<Vec<Vec<bool>>, BackendError>)
    ensures
        match sampled_row(base@, 0, number_qubits as nat, mapping_view(mapping), unmapped_to_self) {
            Ok(_) => r is Ok,
            Err(e) => samples@.len() > 0 ==> r == Err::<Vec<Vec<bool>>, BackendError>(e),
        },
        r matches Ok(rows) ==> rows@.len() == samples@.len() && forall|i: int|
            0 <= i < samples@.len() ==> sampled_row(
                base@,
                #[trigger] samples@[i],
                number_qubits as nat,
                mapping_view(mapping),
                unmapped_to_self,
            ) == Ok::<Seq<bool>, BackendError>(rows@[i]@),
{
    let mut rows: Vec<Vec<bool>> = Vec::new();
    let mut i: usize = 0;
    while i < samples.len()
        invariant
            i <= samples@.len(),
            i > 0 ==> sampled_row(base@, 0, number_qubits as nat, mapping_view(mapping), unmapped_to_self) is Ok,
            rows@.len() == i,
            forall|j: int|
                0 <= j < i ==> sampled_row(
                    base@,
                    #[trigger] samples@[j],
                    number_qubits as nat,
                    mapping_view(mapping),
                    unmapped_to_self,
                ) == Ok::<Seq<bool>, BackendError>(rows@[j]@),
        decreases samples@.len() - i,
    {
        proof {
            lemma_sampled_row_same_shape(base@, 0, samples@[i as int], number_qubits as nat, mapping_view(mapping), unmapped_to_self);
        }
        let row = measurement_row(base, samples[i], number_qubits, mapping, unmapped_to_self)?;
        rows.push(row);
        i = i + 1;
    }
    Ok(rows)
}

/// The (qubit, index) pairs of [`repeated_measurement_targets`].
pub open spec fn replay_targets(length: usize, mapping: Option<Seq<(usize, usize)>>) -> Seq<(usize, usize)> {
    Seq::new(
        length as nat,
        |q: int| (q as usize, target_of(mapping, q as usize, true)->Some_0),
    )
}

/// The (qubit, readout index) measurements that stand for a repeated
/// measurement into a register of `length` bits when the circuit is replayed:
/// each qubit below `length`, written where the mapping puts it, or to its
/// own index.
pub fn repeated_measurement_targets(length: usize, mapping: Option<&Vec<(usize, usize)>>) -> (r: Vec<(usize, usize)>)
    ensures
        r@ == replay_targets(length, mapping_view(mapping)),
{
    let n: usize = length;
    let mut out: Vec<(usize, usize)> = Vec::new();
    let mut q: usize = 0;
    while q < n
        invariant
            q <= n,
            out@.len() == q,
            forall|j: int|
                #![trigger out@[j]]
                0 <= j < q ==> out@[j].0 == j && Some(out@[j].1) == target_of(
                    mapping_view(mapping),
                    j as usize,
                    true,
                ),
        decreases n - q,
    {
        let t = match target_exec(mapping, q, true) {
            Some(t) => t,
            None => q,
        };
        out.push((q, t));
        q = q + 1;
    }
    assert(out@ =~= replay_targets(length, mapping_view(mapping)));
    out
}

/// Writes a measured bit into `readout[index]`.
pub fn write_measurement(
    registers: &mut RegisterMap<Vec<bool>>,
    readout: &String,
    index: usize,
    value: bool,
) -> (r: Result<(), BackendError>)
    requires
        old(registers).wf(),
    ensures
        final(registers).wf(),
        !old(registers)@.contains_key(readout@) ==> r == Err::<(), BackendError>(
            BackendError::RegisterNotFound { name: *readout },
        ) && final(registers)@ == old(registers)@,
        old(registers)@.contains_key(readout@) && index >= old(registers)@[readout@]@.len() ==> r
            == Err::<(), BackendError>(
            BackendError::IndexOutOfRange {
                index,
                length: old(registers)@[readout@]@.len() as usize,
            },
        ) && final(registers)@ == old(registers)@,
        old(registers)@.contains_key(readout@) && index < old(registers)@[readout@]@.len() ==> r
            is Ok && final(registers)@.dom() == old(registers)@.dom() && final(registers)@[readout@]@
            == old(registers)@[readout@]@.update(index as int, value) && forall|k: Seq<char>|
            #![trigger final(registers)@[k]]
            old(registers)@.contains_key(k) && k != readout@ ==> final(registers)@[k]
                == old(registers)@[k],
{
    match registers.get(readout) {
        None => Err(BackendError::RegisterNotFound { name: readout.clone() }),
        Some(reg) => {
            if index >= reg.len() {
                return Err(BackendError::IndexOutOfRange { index, length: reg.len() });
            }
            let mut copy = copy_bits(reg);
            copy.set(index, value);
            registers.insert(readout.clone(), copy);
            assert(registers@.dom() =~= old(registers)@.dom());
            Ok(())
        },
    }
}

/// Allocates the internal register of an output definition: `length` bits,
/// all false.
pub fn define_bit_register(registers: &mut RegisterMap<Vec<bool>>, name: &String, length: usize)
    requires
        old(registers).wf(),
    ensures
        final(registers).wf(),
        final(registers)@.dom() == old(registers)@.dom().insert(name@),
        final(registers)@[name@]@ == Seq::new(length as nat, |i: int| false),
        forall|k: Seq<char>|
            #![trigger final(registers)@[k]]
            old(registers)@.contains_key(k) && k != name@ ==> final(registers)@[k] == old(
                registers,
            )@[k],
{
    let mut v: Vec<bool> = Vec::new();
    let mut i: usize = 0;
    while i < length
        invariant
            i <= length,
            v@ == Seq::new(i as nat, |j: int| false),
        decreases length - i,
    {
        v.push(false);
        i = i + 1;
        assert(v@ =~= Seq::new(i as nat, |j: int| false));
    }
    registers.insert(name.clone(), v);
    assert(registers@.dom() =~= old(registers)@.dom().insert(name@));
}

/// Whether the condition bit `register[index]` of a conditional is set.
pub fn condition_holds(registers: &RegisterMap<Vec<bool>>, register: &String, index: usize) -> (r: Result<
    bool,
    BackendError,
>)
    requires
        registers.wf(),
    ensures
        !registers@.contains_key(register@) ==> r == Err::<bool, BackendError>(
            BackendError::RegisterNotFound { name: *register },
        ),
        registers@.contains_key(register@) && index >= registers@[register@]@.len() ==> r == Err::<
            bool,
            BackendError,
        >(BackendError::IndexOutOfRange { index, length: registers@[register@]@.len() as usize }),
        registers@.contains_key(register@) && index < registers@[register@]@.len() ==> r == Ok::<
            bool,
            BackendError,
        >(registers@[register@]@[index as int]),
{
    match registers.get(register) {
        None => Err(BackendError::RegisterNotFound { name: register.clone() }),
        Some(reg) => {
            if index >= reg.len() {
                Err(BackendError::IndexOutOfRange { index, length: reg.len() })
            } else {
                Ok(reg[index])
            }
        },
    }
}

/// A copy of a bit register.
fn copy_bits(v: &Vec<bool>) -> (r: Vec<bool>)
    ensures
        r@ == v@,
{
    let mut out: Vec<bool> = Vec::new();
    let mut j: usize = 0;
    while j < v.len()
        invariant
            j <= v@.len(),
            out@ == v@.subrange(0, j as int),
        decreases v@.len() - j,
    {
        out.push(v[j]);
        j = j + 1;
    }
    assert(out@ == v@);
    out
}

/// The register that sampled rows start from: the internal register of the
/// readout, or `nq` false bits when there is none.
pub open spec fn sample_base(internals: Map<Seq<char>, Vec<bool>>, readout: Seq<char>, nq: nat) -> Seq<bool> {
    if internals.contains_key(readout) {
        internals[readout]@
    } else {
        Seq::new(nq, |i: int| false)
    }
}

/// Whether `after` is `before` with one row per sample appended to `readout`,
/// each row the sampled row of its sample.
pub open spec fn rows_appended(
    before: Map<Seq<char>, Vec<Vec<bool>>>,
    after: Map<Seq<char>, Vec<Vec<bool>>>,
    readout: Seq<char>,
    base: Seq<bool>,
    samples: Seq<usize>,
    nq: nat,
    mapping: Option<Seq<(usize, usize)>>,
    unmapped_to_self: bool,
) -> bool {
    &&& after.dom() == before.dom()
    &&& after[readout]@.len() == before[readout]@.len() + samples.len()
    &&& forall|i: int|
        0 <= i < before[readout]@.len() ==> #[trigger] after[readout]@[i] == before[readout]@[i]
    &&& forall|i: int|
        0 <= i < samples.len() ==> sampled_row(base, #[trigger] samples[i], nq, mapping, unmapped_to_self)
            == Ok::<Seq<bool>, BackendError>(after[readout]@[before[readout]@.len() + i]@)
    &&& forall|k: Seq<char>|
        #![trigger after[k]]
        before.contains_key(k) && k != readout ==> after[k]@ == before[k]@
}

/// What a repeated-measurement execution owes: a missing output register
/// and a row that cannot be written (a target index beyond the register) are
/// errors that leave all registers unchanged; otherwise one row per sample is
/// appended to the output register and the readout's internal register is
/// removed, so that the shot does not append it again.
pub open spec fn repeated_measurement_result(
    internals_before: Map<Seq<char>, Vec<bool>>,
    internals_after: Map<Seq<char>, Vec<bool>>,
    before: Map<Seq<char>, Vec<Vec<bool>>>,
    after: Map<Seq<char>, Vec<Vec<bool>>>,
    readout: String,
    samples: Seq<usize>,
    nq: nat,
    mapping: Option<Seq<(usize, usize)>>,
    unmapped_to_self: bool,
    r: Result<(), BackendError>,
) -> bool {
    let base = sample_base(internals_before, readout@, nq);
    if !before.contains_key(readout@) {
        r == Err::<(), BackendError>(BackendError::RegisterNotFound { name: readout })
            && after == before && internals_after == internals_before
    } else {
        match sampled_row(base, 0, nq, mapping, unmapped_to_self) {
            Err(e) => r == Err::<(), BackendError>(e) && after == before && internals_after
                == internals_before,
            Ok(_) => r is Ok && rows_appended(
                before,
                after,
                readout@,
                base,
                samples,
                nq,
                mapping,
                unmapped_to_self,
            ) && internals_after == internals_before.remove(readout@),
        }
    }
}

/// Shared body of the two repeated-measurement executions.
fn append_sampled_rows(
    internals: &mut RegisterMap<Vec<bool>>,
    outputs: &mut RegisterMap<Vec<Vec<bool>>>,
    readout: &String,
    samples: &Vec<usize>,
    number_qubits: usize,
    mapping: Option<&Vec<(usize, usize)>>,
    unmapped_to_self: bool,
) -> (r: Result<(), BackendError>)
    requires
        old(internals).wf(),
        old(outputs).wf(),
    ensures
        final(internals).wf(),
        final(outputs).wf(),
        repeated_measurement_result(
            old(internals)@,
            final(internals)@,
            old(outputs)@,
            final(outputs)@,
            *readout,
            samples@,
            number_qubits as nat,
            mapping_view(mapping),
            unmapped_to_self,
            r,
        ),
{
    if !outputs.contains(readout) {
        return Err(BackendError::RegisterNotFound { name: readout.clone() });
    }
    let base = match internals.get(readout) {
        Some(reg) => copy_bits(reg),
        None => {
            let mut v: Vec<bool> = Vec::new();
            let mut i: usize = 0;
            while i < number_qubits
                invariant
                    i <= number_qubits,
                    v@ == Seq::new(i as nat, |j: int| false),
                decreases number_qubits - i,
            {
                v.push(false);
                i = i + 1;
                assert(v@ =~= Seq::new(i as nat, |j: int| false));
            }
            v
        },
    };
    assert(base@ == sample_base(internals@, readout@, number_qubits as nat));
    measurement_row(&base, 0, number_qubits, mapping, unmapped_to_self)?;
    let rows = sampled_rows(&base, samples, number_qubits, mapping, unmapped_to_self)?;
    let ghost new_rows = rows@;
    outputs.append_rows(readout.clone(), rows);
    internals.remove(readout);
    proof {
        let b = old(outputs)@[readout@]@;
        assert(outputs@[readout@]@ == b + new_rows);
        assert forall|i: int| 0 <= i < b.len() implies #[trigger] outputs@[readout@]@[i] == b[i] by {}
        assert forall|i: int| 0 <= i < samples@.len() implies sampled_row(
            base@,
            #[trigger] samples@[i],
            number_qubits as nat,
            mapping_view(mapping),
            unmapped_to_self,
        ) == Ok::<Seq<bool>, BackendError>(outputs@[readout@]@[b.len() + i]@) by {
            assert(outputs@[readout@]@[b.len() + i] == new_rows[i]);
        }
        assert(outputs@.dom() =~= old(outputs)@.dom());
    }
    Ok(())
}

/// Appends one row per sampled basis-state index to the output register of a
/// repeated measurement and removes the readout's internal register. Each
/// row starts from that internal register (or false bits) and holds the bit
/// of each qubit at the index the mapping gives it, or at its own index.
pub fn execute_pragma_repeated_measurement(
    internals: &mut RegisterMap<Vec<bool>>,
    outputs: &mut RegisterMap<Vec<Vec<bool>>>,
    readout: &String,
    samples: &Vec<usize>,
    number_qubits: usize,
    mapping: Option<&Vec<(usize, usize)>>,
) -> (r: Result<(), BackendError>)
    requires
        old(internals).wf(),
        old(outputs).wf(),
    ensures
        final(internals).wf(),
        final(outputs).wf(),
        repeated_measurement_result(
            old(internals)@,
            final(internals)@,
            old(outputs)@,
            final(outputs)@,
            *readout,
            samples@,
            number_qubits as nat,
            mapping_view(mapping),
            true,
            r,
        ),
{
    append_sampled_rows(internals, outputs, readout, samples, number_qubits, mapping, true)
}

/// The sampling shortcut that replaces a circuit's single-qubit measurements:
/// as [`execute_pragma_repeated_measurement`], but only the qubits the
/// measurements name are written, each to the index its measurement gave.
pub fn execute_replaced_repeated_measurement(
    internals: &mut RegisterMap<Vec<bool>>,
    outputs: &mut RegisterMap<Vec<Vec<bool>>>,
    readout: &String,
    samples: &Vec<usize>,
    number_qubits: usize,
    mapping: &Vec<(usize, usize)>,
) -> (r: Result<(), BackendError>)
    requires
        old(internals).wf(),
        old(outputs).wf(),
    ensures
        final(internals).wf(),
        final(outputs).wf(),
        repeated_measurement_result(
            old(internals)@,
            final(internals)@,
            old(outputs)@,
            final(outputs)@,
            *readout,
            samples@,
            number_qubits as nat,
            Some(mapping@),
            false,
            r,
        ),
{
    append_sampled_rows(internals, outputs, readout, samples, number_qubits, Some(mapping), false)
}

/// The row that measuring each (qubit, index) pair in turn writes into
/// `base`, when the outcome of qubit `q` is bit `q` of basis state `idx`.
pub open spec fn replay_row(base: Seq<bool>, idx: usize, pairs: Seq<(usize, usize)>) -> Seq<bool>
    decreases pairs.len(),
{
    if pairs.len() == 0 {
        base
    } else {
        let p = pairs.last();
        let row = replay_row(base, idx, pairs.drop_last());
        if p.1 < row.len() {
            row.update(p.1 as int, bit_of(idx as nat, p.0 as nat))
        } else {
            row
        }
    }
}

/// No two pairs share a qubit or an index.
pub open spec fn distinct_pairs(pairs: Seq<(usize, usize)>) -> bool {
    forall|a: int, b: int|
        0 <= a < b < pairs.len() ==> pairs[a].0 != pairs[b].0 && pairs[a].1 != pairs[b].1
}

proof fn lemma_mapped_index_found(m: Seq<(usize, usize)>, q: usize)
    ensures
        mapped_index(m, q) matches Some(t) ==> exists|a: int| 0 <= a < m.len() && m[a] == (q, t),
    decreases m.len(),
{
    if m.len() > 0 && m.last().0 != q {
        lemma_mapped_index_found(m.drop_last(), q);
        if let Some(t) = mapped_index(m, q) {
            let a = choose|a: int| 0 <= a < m.drop_last().len() && m.drop_last()[a] == (q, t);
            assert(m[a] == m.drop_last()[a]);
        }
    }
    if m.len() > 0 && m.last().0 == q {
        assert(m[m.len() - 1] == (q, m.last().1));
    }
}

proof fn lemma_mapped_index_of_pair(m: Seq<(usize, usize)>, a: int)
    requires
        distinct_pairs(m),
        0 <= a < m.len(),
    ensures
        mapped_index(m, m[a].0) == Some(m[a].1),
    decreases m.len(),
{
    if a < m.len() - 1 {
        let p = m.drop_last();
        assert(distinct_pairs(p)) by {
            assert forall|x: int, y: int| 0 <= x < y < p.len() implies p[x].0 != p[y].0 && p[x].1
                != p[y].1 by {
                assert(p[x] == m[x] && p[y] == m[y]);
            }
        }
        assert(p[a] == m[a]);
        lemma_mapped_index_of_pair(p, a);
    }
}

proof fn lemma_replay_row(base: Seq<bool>, idx: usize, pairs: Seq<(usize, usize)>)
    requires
        distinct_pairs(pairs),
        forall|a: int| 0 <= a < pairs.len() ==> #[trigger] pairs[a].1 < base.len(),
    ensures
        replay_row(base, idx, pairs).len() == base.len(),
        forall|a: int|
            0 <= a < pairs.len() ==> replay_row(base, idx, pairs)[#[trigger] pairs[a].1 as int]
                == bit_of(idx as nat, pairs[a].0 as nat),
        forall|j: int|
            0 <= j < base.len() && (forall|a: int| 0 <= a < pairs.len() ==> pairs[a].1 != j)
                ==> #[trigger] replay_row(base, idx, pairs)[j] == base[j],
    decreases pairs.len(),
{
    if pairs.len() > 0 {
        let p = pairs.drop_last();
        assert(distinct_pairs(p)) by {
            assert forall|x: int, y: int| 0 <= x < y < p.len() implies p[x].0 != p[y].0 && p[x].1
                != p[y].1 by {
                assert(p[x] == pairs[x] && p[y] == pairs[y]);
            }
        }
        assert forall|a: int| 0 <= a < p.len() implies #[trigger] p[a].1 < base.len() by {
            assert(p[a] == pairs[a]);
        }
        lemma_replay_row(base, idx, p);
        let row = replay_row(base, idx, p);
        let last = pairs.len() - 1;
        assert forall|a: int|
            0 <= a < pairs.len() implies replay_row(base, idx, pairs)[#[trigger] pairs[a].1 as int]
            == bit_of(idx as nat, pairs[a].0 as nat) by {
            if a < last {
                assert(p[a] == pairs[a]);
                assert(pairs[a].1 != pairs[last].1);
            }
        }
        assert forall|j: int|
            0 <= j < base.len() && (forall|a: int| 0 <= a < pairs.len() ==> pairs[a].1 != j)
                implies #[trigger] replay_row(base, idx, pairs)[j] == base[j] by {
            assert(pairs[last].1 != j);
            assert forall|a: int| 0 <= a < p.len() implies p[a].1 != j by {
                assert(p[a] == pairs[a]);
            }
        }
    }
}

proof fn lemma_sampled_row_targets(
    base: Seq<bool>,
    idx: usize,
    k: nat,
    pairs: Seq<(usize, usize)>,
)
    requires
        k <= usize::MAX,
        distinct_pairs(pairs),
        forall|a: int| 0 <= a < pairs.len() ==> #[trigger] pairs[a].1 < base.len(),
    ensures
        sampled_row(base, idx, k, Some(pairs), false) is Ok,
        sampled_row(base, idx, k, Some(pairs), false)->Ok_0.len() == base.len(),
        forall|q: usize|
            q < k && #[trigger] mapped_index(pairs, q) is Some ==> sampled_row(
                base,
                idx,
                k,
                Some(pairs),
                false,
            )->Ok_0[mapped_index(pairs, q)->Some_0 as int] == bit_of(idx as nat, q as nat),
        forall|j: int|
            0 <= j < base.len() && (forall|q: usize| q < k ==> mapped_index(pairs, q) != Some(j as usize))
                ==> #[trigger] sampled_row(base, idx, k, Some(pairs), false)->Ok_0[j] == base[j],
    decreases k,
{
    if k > 0 {
        let k1 = (k - 1) as nat;
        lemma_sampled_row_targets(base, idx, k1, pairs);
        let row = sampled_row(base, idx, k1, Some(pairs), false)->Ok_0;
        let kq = k1 as usize;
        lemma_mapped_index_found(pairs, kq);
        if let Some(t) = mapped_index(pairs, kq) {
            let a = choose|a: int| 0 <= a < pairs.len() && pairs[a] == (kq, t);
            assert(t < base.len());
            assert forall|q: usize|
                q < k && #[trigger] mapped_index(pairs, q) is Some implies sampled_row(
                    base,
                    idx,
                    k,
                    Some(pairs),
                    false,
                )->Ok_0[mapped_index(pairs, q)->Some_0 as int] == bit_of(idx as nat, q as nat) by {
                if q != kq {
                    lemma_mapped_index_found(pairs, q);
                    let t2 = mapped_index(pairs, q)->Some_0;
                    let b = choose|b: int| 0 <= b < pairs.len() && pairs[b] == (q, t2);
                    assert(t2 != t) by {
                        if t2 == t {
                            assert(a != b);
                        }
                    }
                }
            }
            assert forall|j: int|
                0 <= j < base.len() && (forall|q: usize|
                    q < k ==> mapped_index(pairs, q) != Some(j as usize)) implies #[trigger] sampled_row(
                base,
                idx,
                k,
                Some(pairs),
                false,
            )->Ok_0[j] == base[j] by {
                assert(mapped_index(pairs, kq) != Some(j as usize));
            }
        }
    }
}

/// The sampling shortcut writes what measuring one qubit at a time writes:
/// when the measured qubits are distinct, below `nq`, and each is written to
/// its own index inside the register, the row sampled from basis state `idx`
/// is the row that measuring the (qubit, index) pairs in order gives when
/// each qubit reads its bit of `idx`.
pub proof fn lemma_sampling_matches_replay(
    base: Seq<bool>,
    idx: usize,
    nq: nat,
    pairs: Seq<(usize, usize)>,
)
    requires
        nq <= usize::MAX,
        base.len() <= usize::MAX,
        distinct_pairs(pairs),
        forall|a: int| 0 <= a < pairs.len() ==> #[trigger] pairs[a].1 < base.len(),
        forall|a: int| 0 <= a < pairs.len() ==> #[trigger] pairs[a].0 < nq,
    ensures
        sampled_row(base, idx, nq, Some(pairs), false) == Ok::<Seq<bool>, BackendError>(
            replay_row(base, idx, pairs),
        ),
{
    lemma_replay_row(base, idx, pairs);
    lemma_sampled_row_targets(base, idx, nq, pairs);
    let s = sampled_row(base, idx, nq, Some(pairs), false)->Ok_0;
    let r = replay_row(base, idx, pairs);
    assert forall|j: int| 0 <= j < base.len() implies s[j] == r[j] by {
        if exists|a: int| 0 <= a < pairs.len() && pairs[a].1 == j {
            let a = choose|a: int| 0 <= a < pairs.len() && pairs[a].1 == j;
            lemma_mapped_index_of_pair(pairs, a);
            assert(mapped_index(pairs, pairs[a].0) is Some);
        } else {
            assert forall|q: usize| q < nq implies mapped_index(pairs, q) != Some(j as usize) by {
                lemma_mapped_index_found(pairs, q);
                if mapped_index(pairs, q) == Some(j as usize) {
                    let a = choose|a: int| 0 <= a < pairs.len() && pairs[a] == (q, j as usize);
                    assert(pairs[a].1 == j);
                }
            }
        }
    }
    assert(s =~= r);
}

} // verus!
