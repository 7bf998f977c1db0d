use vstd::prelude::*;
use crate::circuit::{output_definition, Operation, OperationKind, RegisterKind};

verus! {

/// The map that a list of named entries stands for: a later entry for a name
/// replaces an earlier one.
pub open spec fn entries_map<V>(s: Seq<(String, V)>) -> Map<Seq<char>, V>
    decreases s.len(),
{
    if s.len() == 0 {
        Map::empty()
    } else {
        entries_map(s.drop_last()).insert(s.last().0@, s.last().1)
    }
}

/// No name occurs twice in the list.
pub open spec fn names_unique<V>(s: Seq<(String, V)>) -> bool {
    forall|i: int, j: int| 0 <= i < j < s.len() ==> s[i].0@ != s[j].0@
}

proof fn lemma_entries_map_dom<V>(s: Seq<(String, V)>)
    ensures
        entries_map(s).dom().finite(),
        forall|k: Seq<char>|
            entries_map(s).contains_key(k) <==> exists|i: int| 0 <= i < s.len() && s[i].0@ == k,
        names_unique(s) ==> entries_map(s).dom().len() == s.len(),
    decreases s.len(),
{
    if s.len() > 0 {
        let p = s.drop_last();
        lemma_entries_map_dom(p);
        assert forall|k: Seq<char>|
            entries_map(s).contains_key(k) <==> exists|i: int| 0 <= i < s.len() && s[i].0@ == k by {
            if entries_map(p).contains_key(k) {
                let i = choose|i: int| 0 <= i < p.len() && p[i].0@ == k;
                assert(s[i] == p[i]);
            }
            if exists|i: int| 0 <= i < s.len() && s[i].0@ == k {
                let i = choose|i: int| 0 <= i < s.len() && s[i].0@ == k;
                if i < p.len() {
                    assert(p[i] == s[i]);
                }
            }
        }
        if names_unique(s) {
            assert(names_unique(p)) by {
                assert forall|i: int, j: int| 0 <= i < j < p.len() implies p[i].0@ != p[j].0@ by {
                    assert(p[i] == s[i] && p[j] == s[j]);
                }
            }
            assert(!entries_map(p).contains_key(s.last().0@)) by {
                if entries_map(p).contains_key(s.last().0@) {
                    let i = choose|i: int| 0 <= i < p.len() && p[i].0@ == s.last().0@;
                    assert(s[i] == p[i]);
                }
            }
        }
    }
}

/// Replacing the value of the entry at `j` replaces the value of its name,
/// provided no later entry has the same name.
proof fn lemma_entries_map_update<V>(s: Seq<(String, V)>, j: int, v: V)
    requires
        0 <= j < s.len(),
        forall|i: int| j < i < s.len() ==> s[i].0@ != s[j].0@,
    ensures
        entries_map(s.update(j, (s[j].0, v))) == entries_map(s).insert(s[j].0@, v),
    decreases s.len(),
{
    let t = s.update(j, (s[j].0, v));
    if j == s.len() - 1 {
        assert(t.drop_last() == s.drop_last());
        assert(entries_map(t) =~= entries_map(s).insert(s[j].0@, v));
    } else {
        let p = s.drop_last();
        lemma_entries_map_update(p, j, v);
        assert(t.drop_last() == p.update(j, (p[j].0, v)));
        assert(entries_map(t) =~= entries_map(s).insert(s[j].0@, v));
    }
}

/// In a list with unique names, the map gives each entry's own value.
proof fn lemma_entries_map_at<V>(s: Seq<(String, V)>, j: int)
    requires
        names_unique(s),
        0 <= j < s.len(),
    ensures
        entries_map(s).contains_key(s[j].0@),
        entries_map(s)[s[j].0@] == s[j].1,
{
    assert forall|i: int| j < i < s.len() implies s[i].0@ != s[j].0@ by {}
    lemma_entries_map_update(s, j, s[j].1);
    assert(s.update(j, (s[j].0, s[j].1)) == s);
}

/// Removing the entry at `i` removes its name, when names are unique.
proof fn lemma_entries_map_remove<V>(s: Seq<(String, V)>, i: int)
    requires
        names_unique(s),
        0 <= i < s.len(),
    ensures
        entries_map(s.remove(i)) == entries_map(s).remove(s[i].0@),
    decreases s.len(),
{
    let k = s[i].0@;
    let p = s.drop_last();
    assert(names_unique(p)) by {
        assert forall|x: int, y: int| 0 <= x < y < p.len() implies p[x].0@ != p[y].0@ by {
            assert(p[x] == s[x] && p[y] == s[y]);
        }
    }
    lemma_entries_map_dom(p);
    if i == s.len() - 1 {
        assert(s.remove(i) == p);
        assert(!entries_map(p).contains_key(k)) by {
            if entries_map(p).contains_key(k) {
                let j = choose|j: int| 0 <= j < p.len() && p[j].0@ == k;
                assert(p[j] == s[j]);
            }
        }
        assert(entries_map(p) =~= entries_map(s).remove(k));
    } else {
        lemma_entries_map_remove(p, i);
        let t = s.remove(i);
        assert(t.drop_last() == p.remove(i));
        assert(t.last() == s.last());
        assert(s.last().0@ != k);
        assert(entries_map(t) =~= entries_map(s).remove(k));
    }
}

/// Registers (or register lengths) by name.
#[derive(Debug)]
pub struct RegisterMap<V> {
    pub entries: Vec<(String, V)>,
}

impl<V> RegisterMap<V> {
    /// The map from register name to value.
    pub open spec fn view(&self) -> Map<Seq<char>, V> {
        entries_map(self.entries@)
    }

    /// Each name has a single entry.
    pub open spec fn wf(&self) -> bool {
        names_unique(self.entries@)
    }

    /// An empty map.
    pub fn new() -> (r: Self)
        ensures
            r.wf(),
            r@ == Map::<Seq<char>, V>::empty(),
    {
        RegisterMap { entries: Vec::new() }
    }

    /// Position of the entry for `name`, if there is one.
    pub fn position(&self, name: &String) -> (r: Option<usize>)
        requires
            self.wf(),
        ensures
            r is None <==> !self@.contains_key(name@),
            r matches Some(i) ==> i < self.entries@.len() && self.entries@[i as int].0@ == name@
                && self@[name@] == self.entries@[i as int].1,
    {
        proof {
            lemma_entries_map_dom(self.entries@);
        }
        let mut i: usize = 0;
        while i < self.entries.len()
            invariant
                self.wf(),
                i <= self.entries@.len(),
                forall|j: int| 0 <= j < i ==> self.entries@[j].0@ != name@,
            decreases self.entries@.len() - i,
        {
            if self.entries[i].0 == *name {
                proof {
                    let s = self.entries@;
                    let n = s.len() as int;
                    assert forall|k: int| i < k < n implies s[k].0@ != s[i as int].0@ by {
                        assert(names_unique(s));
                        assert(s[i as int].0@ != s[k].0@);
                    }
                    lemma_entries_map_update(s, i as int, s[i as int].1);
                    assert(s.update(i as int, (s[i as int].0, s[i as int].1)) == s);
                }
                return Some(i);
            }
            i = i + 1;
        }
        None
    }

    /// Whether a register of that name is present.
    pub fn contains(&self, name: &String) -> (r: bool)
        requires
            self.wf(),
        ensures
            r == self@.contains_key(name@),
    {
        self.position(name).is_some()
    }

    /// The value stored for `name`.
    pub fn get(&self, name: &String) -> (r: Option<&V>)
        requires
            self.wf(),
        ensures
            r is None <==> !self@.contains_key(name@),
            r matches Some(v) ==> *v == self@[name@],
    {
        match self.position(name) {
            Some(i) => Some(&self.entries[i].1),
            None => None,
        }
    }

    /// Removes the register `name`, if present.
    pub fn remove(&mut self, name: &String)
        requires
            old(self).wf(),
        ensures
            final(self).wf(),
            final(self)@ == old(self)@.remove(name@),
    {
        match self.position(name) {
            None => {
                assert(self@ =~= self@.remove(name@));
            },
            Some(i) => {
                let ghost s = self.entries@;
                proof {
                    lemma_entries_map_remove(s, i as int);
                }
                self.entries.remove(i);
                assert forall|a: int, b: int|
                    0 <= a < b < self.entries@.len() implies self.entries@[a].0@
                    != self.entries@[b].0@ by {
                    assert(names_unique(s));
                    if a >= i {
                        assert(self.entries@[a] == s[a + 1] && self.entries@[b] == s[b + 1]);
                    } else if b >= i {
                        assert(self.entries@[a] == s[a] && self.entries@[b] == s[b + 1]);
                    } else {
                        assert(self.entries@[a] == s[a] && self.entries@[b] == s[b]);
                    }
                }
            },
        }
    }

    /// Number of names present.
    pub fn len(&self) -> (r: usize)
        requires
            self.wf(),
        ensures
            r == self@.dom().len(),
    {
        proof {
            lemma_entries_map_dom(self.entries@);
        }
        self.entries.len()
    }

    /// Sets the value for `name`, replacing any earlier one.
    pub fn insert(&mut self, name: String, value: V)
        requires
            old(self).wf(),
        ensures
            final(self).wf(),
            final(self)@ == old(self)@.insert(name@, value),
    {
        match self.position(&name) {
            Some(i) => {
                proof {
                    let s = self.entries@;
                    assert forall|k: int| i < k < s.len() implies s[k].0@ != s[i as int].0@ by {}
                    lemma_entries_map_update(s, i as int, value);
                }
                let ghost s = self.entries@;
                let mut entry = (name, value);
                std::mem::swap(&mut entry.0, &mut self.entries[i].0);
                self.entries.set(i, entry);
                assert(self.entries@ == s.update(i as int, (s[i as int].0, value)));
            },
            None => {
                proof {
                    lemma_entries_map_dom(self.entries@);
                }
                let ghost s = self.entries@;
                self.entries.push((name, value));
                assert(self.entries@.drop_last() == s);
                proof {
                    assert forall|i: int, j: int|
                        0 <= i < j < self.entries@.len() implies self.entries@[i].0@
                        != self.entries@[j].0@ by {
                        if j == s.len() {
                            assert(self.entries@[i] == s[i]);
                        } else {
                            assert(self.entries@[i] == s[i] && self.entries@[j] == s[j]);
                        }
                    }
                }
            },
        }
    }
}

impl<T> RegisterMap<Vec<T>> {
    /// Appends `rows` to the register `name`, creating it if it is absent.
    pub fn append_rows(&mut self, name: String, rows: Vec<T>)
        requires
            old(self).wf(),
        ensures
            final(self).wf(),
            final(self)@.dom() == old(self)@.dom().insert(name@),
            final(self)@[name@]@ == if old(self)@.contains_key(name@) {
                old(self)@[name@]@ + rows@
            } else {
                rows@
            },
            forall|k: Seq<char>|
                #![trigger final(self)@[k]]
                old(self)@.contains_key(k) && k != name@ ==> final(self)@[k]@ == old(self)@[k]@,
    {
        match self.position(&name) {
            None => {
                self.insert(name, rows);
            },
            Some(i) => {
                let ghost s = self.entries@;
                let (n, mut cur) = self.entries.remove(i);
                let mut rows = rows;
                cur.append(&mut rows);
                let ghost newrows = cur;
                self.entries.insert(i, (n, cur));
                proof {
                    assert(self.entries@ == s.update(i as int, (s[i as int].0, newrows)));
                    assert forall|k: int| i < k < s.len() implies s[k].0@ != s[i as int].0@ by {
                        assert(names_unique(s));
                        assert(s[i as int].0@ != s[k].0@);
                    }
                    lemma_entries_map_update(s, i as int, newrows);
                    assert forall|a: int, b: int|
                        0 <= a < b < self.entries@.len() implies self.entries@[a].0@
                        != self.entries@[b].0@ by {
                        assert(names_unique(s));
                    }
                    assert(self@.dom() =~= old(self)@.dom().insert(name@));
                }
            },
        }
    }

    /// Appends `row` to the register `name`; returns whether the register exists.
    pub fn push_row(&mut self, name: &String, row: T) -> (r: bool)
        requires
            old(self).wf(),
        ensures
            final(self).wf(),
            r == old(self)@.contains_key(name@),
            final(self)@.dom() == old(self)@.dom(),
            forall|k: Seq<char>|
                #![trigger final(self)@[k]]
                old(self)@.contains_key(k) ==> final(self)@[k]@ == if k == name@ {
                    old(self)@[k]@.push(row)
                } else {
                    old(self)@[k]@
                },
    {
        match self.position(name) {
            None => false,
            Some(i) => {
                let ghost s = self.entries@;
                let (n, mut rows) = self.entries.remove(i);
                rows.push(row);
                let ghost newrows = rows;
                self.entries.insert(i, (n, rows));
                proof {
                    assert(self.entries@ == s.update(i as int, (s[i as int].0, newrows)));
                    assert forall|k: int| i < k < s.len() implies s[k].0@ != s[i as int].0@ by {
                        assert(names_unique(s));
                        assert(s[i as int].0@ != s[k].0@);
                    }
                    lemma_entries_map_update(s, i as int, newrows);
                    assert forall|a: int, b: int|
                        0 <= a < b < self.entries@.len() implies self.entries@[a].0@
                        != self.entries@[b].0@ by {
                        assert(names_unique(s));
                    }
                }
                true
            },
        }
    }
}

/// The output registers of `kind` that a circuit declares.
pub open spec fn output_names(ops: Seq<Operation>, kind: RegisterKind) -> Set<Seq<char>>
    decreases ops.len(),
{
    if ops.len() == 0 {
        Set::empty()
    } else {
        match output_definition(ops.last()) {
            Some((k, name, _)) => if k == kind {
                output_names(ops.drop_last(), kind).insert(name@)
            } else {
                output_names(ops.drop_last(), kind)
            },
            None => output_names(ops.drop_last(), kind),
        }
    }
}

/// Creates an empty output register for each output register of `kind` that
/// the circuit declares.
pub fn new_output_registers<T>(circuit: &Vec<Operation>, kind: RegisterKind) -> (r: RegisterMap<Vec<T>>)
    ensures
        r.wf(),
        r@.dom() == output_names(circuit@, kind),
        forall|k: Seq<char>| #[trigger] r@.contains_key(k) ==> r@[k]@.len() == 0,
{
    let mut out: RegisterMap<Vec<T>> = RegisterMap::new();
    let mut i: usize = 0;
    while i < circuit.len()
        invariant
            i <= circuit@.len(),
            out.wf(),
            out@.dom() == output_names(circuit@.subrange(0, i as int), kind),
            forall|k: Seq<char>| #[trigger] out@.contains_key(k) ==> out@[k]@.len() == 0,
        decreases circuit@.len() - i,
    {
        assert(circuit@.subrange(0, i + 1).drop_last() == circuit@.subrange(0, i as int));
        assert(circuit@.subrange(0, i + 1).last() == circuit@[i as int]);
        let def = match &circuit[i].kind {
            OperationKind::DefinitionBit { name, is_output, .. } => if *is_output
                && kind == RegisterKind::Bit {
                Some(name)
            } else {
                None
            },
            OperationKind::DefinitionFloat { name, is_output, .. } => if *is_output
                && kind == RegisterKind::Float {
                Some(name)
            } else {
                None
            },
            OperationKind::DefinitionComplex { name, is_output, .. } => if *is_output
                && kind == RegisterKind::Complex {
                Some(name)
            } else {
                None
            },
            _ => None,
        };
        if let Some(name) = def {
            out.insert(name.clone(), Vec::new());
            assert(out@.dom() =~= output_names(circuit@.subrange(0, i + 1), kind));
        }
        i = i + 1;
    }
    assert(circuit@.subrange(0, circuit@.len() as int) == circuit@);
    out
}

/// Whether `after` is `before` with one shot appended: each output register
/// that has an internal register of the same name (other than `skip`) gains
/// that register as its last row; the others are unchanged.
pub open spec fn shot_appended<T>(
    before: Map<Seq<char>, Vec<Vec<T>>>,
    after: Map<Seq<char>, Vec<Vec<T>>>,
    internals: Map<Seq<char>, Vec<T>>,
    skip: Option<Seq<char>>,
) -> bool {
    &&& after.dom() == before.dom()
    &&& forall|k: Seq<char>|
        #![trigger after[k]]
        before.contains_key(k) ==> after[k]@ == if internals.contains_key(k) && skip != Some(k) {
            before[k]@.push(internals[k])
        } else {
            before[k]@
        }
}

/// Appends the internal registers of one shot to the output registers of the
/// same name, leaving out the register named `skip`.
pub fn append_shot<T>(
    outputs: &mut RegisterMap<Vec<Vec<T>>>,
    internals: RegisterMap<Vec<T>>,
    skip: Option<&String>,
)
    requires
        old(outputs).wf(),
        internals.wf(),
    ensures
        final(outputs).wf(),
        shot_appended(
            old(outputs)@,
            final(outputs)@,
            internals@,
            match skip {
                Some(s) => Some(s@),
                None => None,
            },
        ),
{
    let ghost orig = internals.entries@;
    let ghost before = outputs@;
    let ghost sk: Option<Seq<char>> = match skip {
        Some(s) => Some(s@),
        None => None,
    };
    proof {
        lemma_entries_map_dom(orig);
    }
    let mut rest = internals.entries;
    while rest.len() > 0
        invariant
            names_unique(orig),
            sk == match skip {
                Some(s) => Some(s@),
                None => None::<Seq<char>>,
            },
            rest@.len() <= orig.len(),
            rest@ == orig.subrange(0, rest@.len() as int),
            outputs.wf(),
            outputs@.dom() == before.dom(),
            forall|k: Seq<char>|
                #![trigger outputs@[k]]
                before.contains_key(k) ==> outputs@[k]@ == if (exists|j: int|
                    rest@.len() <= j < orig.len() && orig[j].0@ == k) && sk != Some(k) {
                    before[k]@.push(entries_map(orig)[k])
                } else {
                    before[k]@
                },
        decreases rest@.len(),
    {
        let ghost m = rest@.len() - 1;
        let (name, reg) = rest.pop().unwrap();
        assert(orig[m] == (name, reg));
        proof {
            lemma_entries_map_at(orig, m);
        }
        let take = match skip {
            Some(s) => *s != name,
            None => true,
        };
        let ghost mid = outputs@;
        if take {
            outputs.push_row(&name, reg);
        }
        assert forall|k: Seq<char>| #![trigger outputs@[k]] before.contains_key(k) implies outputs@[k]@
            == if (exists|j: int| m <= j < orig.len() && orig[j].0@ == k) && sk != Some(k) {
            before[k]@.push(entries_map(orig)[k])
        } else {
            before[k]@
        } by {
            let e1 = exists|j: int| m + 1 <= j < orig.len() && orig[j].0@ == k;
            assert(mid[k]@ == if e1 && sk != Some(k) {
                before[k]@.push(entries_map(orig)[k])
            } else {
                before[k]@
            });
            if k == name@ {
                assert(!e1) by {
                    if e1 {
                        let j = choose|j: int| m + 1 <= j < orig.len() && orig[j].0@ == k;
                        assert(orig[m].0@ != orig[j].0@);
                    }
                }
                assert(take == (sk != Some(k)));
                if take {
                    assert(outputs@[k]@ == mid[k]@.push(reg));
                } else {
                    assert(outputs@[k] == mid[k]);
                }
            } else {
                assert((exists|j: int| m <= j < orig.len() && orig[j].0@ == k) == e1) by {
                    if exists|j: int| m <= j < orig.len() && orig[j].0@ == k {
                        let j = choose|j: int| m <= j < orig.len() && orig[j].0@ == k;
                        assert(j != m);
                    }
                }
                assert(outputs@[k]@ == mid[k]@);
            }
        }
    }
    assert forall|k: Seq<char>| #![trigger outputs@[k]] before.contains_key(k) implies outputs@[k]@
        == if internals@.contains_key(k) && sk != Some(k) {
        before[k]@.push(internals@[k])
    } else {
        before[k]@
    } by {}
}

/// Over a run of shots, each output register gains exactly one row per shot,
/// and each row has the length of its register's internal register: if before a
/// shot every output register holds `n` rows of its declared length and the shot
/// produced an internal register of that length for each of them, then after
/// the shot every output register holds `n + 1` such rows.
pub proof fn lemma_shot_rows<T>(
    before: Map<Seq<char>, Vec<Vec<T>>>,
    after: Map<Seq<char>, Vec<Vec<T>>>,
    internals: Map<Seq<char>, Vec<T>>,
    lengths: Map<Seq<char>, usize>,
    n: nat,
)
    requires
        shot_appended(before, after, internals, None),
        forall|k: Seq<char>| #[trigger] before.contains_key(k) ==> before[k]@.len() == n,
        forall|k: Seq<char>, j: int|
            before.contains_key(k) && 0 <= j < n ==> (#[trigger] before[k]@[j])@.len() == lengths[k],
        forall|k: Seq<char>|
            before.contains_key(k) ==> internals.contains_key(k) && (#[trigger] internals[k])@.len()
                == lengths[k],
    ensures
        forall|k: Seq<char>| #[trigger] after.contains_key(k) ==> after[k]@.len() == n + 1,
        forall|k: Seq<char>, j: int|
            after.contains_key(k) && 0 <= j < n + 1 ==> (#[trigger] after[k]@[j])@.len() == lengths[k],
{
    assert forall|k: Seq<char>| #[trigger] after.contains_key(k) implies after[k]@.len() == n + 1 by {
        assert(after[k]@ == before[k]@.push(internals[k]));
    }
    assert forall|k: Seq<char>, j: int|
        after.contains_key(k) && 0 <= j < n + 1 implies (#[trigger] after[k]@[j])@.len()
        == lengths[k] by {
        assert(after[k]@ == before[k]@.push(internals[k]));
        if j < n {
            assert(after[k]@[j] == before[k]@[j]);
        } else {
            assert(after[k]@[j] == internals[k]);
        }
    }
}

/// Whether `after` is `acc` with the registers of `other` merged in by name:
/// rows of a register present in both are appended after those of `acc`.
pub open spec fn merged<T>(
    acc: Map<Seq<char>, Vec<T>>,
    other: Map<Seq<char>, Vec<T>>,
    after: Map<Seq<char>, Vec<T>>,
) -> bool {
    &&& after.dom() == acc.dom().union(other.dom())
    &&& forall|k: Seq<char>|
        #![trigger after[k]]
        after.contains_key(k) ==> after[k]@ == (if acc.contains_key(k) {
            acc[k]@
        } else {
            Seq::empty()
        }) + (if other.contains_key(k) {
            other[k]@
        } else {
            Seq::empty()
        })
}

/// Some entry at or after position `lo` has the name `k`.
pub open spec fn has_name_from<V>(s: Seq<(String, V)>, lo: int, k: Seq<char>) -> bool {
    exists|j: int| lo <= j < s.len() && s[j].0@ == k
}

/// Merges the output registers of one run into those of earlier runs, by name.
pub fn merge_output_registers<T>(acc: &mut RegisterMap<Vec<T>>, other: RegisterMap<Vec<T>>)
    requires
        old(acc).wf(),
        other.wf(),
    ensures
        final(acc).wf(),
        merged(old(acc)@, other@, final(acc)@),
{
    let ghost orig = other.entries@;
    let ghost before = acc@;
    proof {
        lemma_entries_map_dom(orig);
    }
    let mut rest = other.entries;
    while rest.len() > 0
        invariant
            names_unique(orig),
            rest@.len() <= orig.len(),
            rest@ == orig.subrange(0, rest@.len() as int),
            acc.wf(),
            acc@.dom() == before.dom().union(
                Set::new(|k: Seq<char>| has_name_from(orig, rest@.len() as int, k)),
            ),
            forall|k: Seq<char>|
                #![trigger acc@[k]]
                acc@.contains_key(k) ==> acc@[k]@ == (if before.contains_key(k) {
                    before[k]@
                } else {
                    Seq::empty()
                }) + (if has_name_from(orig, rest@.len() as int, k) {
                    entries_map(orig)[k]@
                } else {
                    Seq::empty()
                }),
        decreases rest@.len(),
    {
        let ghost m = rest@.len() - 1;
        let ghost mid = acc@;
        let (name, rows) = rest.pop().unwrap();
        assert(orig[m] == (name, rows));
        proof {
            lemma_entries_map_at(orig, m);
        }
        acc.append_rows(name, rows);
        assert(!(has_name_from(orig, m + 1 as int, orig[m].0@))) by {
            if has_name_from(orig, m + 1 as int, orig[m].0@) {
                let j = choose|j: int| m + 1 <= j < orig.len() && orig[j].0@ == orig[m].0@;
                assert(orig[m].0@ != orig[j].0@);
            }
        }
        assert forall|k: Seq<char>| #![trigger has_name_from(orig, m as int, k)] k != orig[m].0@ implies (has_name_from(orig, m as int, k)) == (has_name_from(orig, m + 1 as int, k)) by {
            if has_name_from(orig, m as int, k) {
                let j = choose|j: int| m <= j < orig.len() && orig[j].0@ == k;
                assert(j != m);
            }
        }
        assert(acc@.dom() =~= before.dom().union(
            Set::new(|k: Seq<char>| has_name_from(orig, m as int, k)),
        ));
        assert forall|k: Seq<char>| #![trigger acc@[k]] acc@.contains_key(k) implies acc@[k]@ == (
        if before.contains_key(k) {
            before[k]@
        } else {
            Seq::empty()
        }) + (if has_name_from(orig, m as int, k) {
            entries_map(orig)[k]@
        } else {
            Seq::empty()
        }) by {
            if k == orig[m].0@ {
                assert(has_name_from(orig, m as int, k));
                if mid.contains_key(k) {
                    assert(mid[k]@ == (if before.contains_key(k) {
                        before[k]@
                    } else {
                        Seq::empty()
                    }) + Seq::<T>::empty());
                    assert(mid[k]@ + Seq::<T>::empty() == mid[k]@);
                } else {
                    assert(!before.contains_key(k));
                    assert(Seq::<T>::empty() + rows@ == rows@);
                }
            }
        }
    }
    assert(acc@.dom() =~= before.dom().union(other@.dom()));
    assert forall|k: Seq<char>| #![trigger acc@[k]] acc@.contains_key(k) implies acc@[k]@ == (
    if before.contains_key(k) {
        before[k]@
    } else {
        Seq::empty()
    }) + (if other@.contains_key(k) {
        other@[k]@
    } else {
        Seq::empty()
    }) by {}
}

proof fn lemma_rows_prefix<T>(
    states: Seq<Map<Seq<char>, Vec<Vec<T>>>>,
    shots: Seq<Map<Seq<char>, Vec<T>>>,
    lengths: Map<Seq<char>, usize>,
    i: int,
)
    requires
        states.len() == shots.len() + 1,
        0 <= i < states.len(),
        forall|k: Seq<char>| #[trigger] states[0].contains_key(k) ==> states[0][k]@.len() == 0,
        forall|s: int|
            0 <= s < shots.len() ==> shot_appended(
                #[trigger] states[s],
                states[s + 1],
                shots[s],
                None,
            ),
        forall|s: int, k: Seq<char>|
            #![trigger shots[s].contains_key(k)]
            #![trigger shots[s][k]]
            0 <= s < shots.len() && states[0].contains_key(k) ==> shots[s].contains_key(k)
                && shots[s][k]@.len() == lengths[k],
    ensures
        states[i].dom() == states[0].dom(),
        forall|k: Seq<char>| #[trigger] states[i].contains_key(k) ==> states[i][k]@.len() == i,
        forall|k: Seq<char>, j: int|
            states[i].contains_key(k) && 0 <= j < i ==> (#[trigger] states[i][k]@[j])@.len()
                == lengths[k],
    decreases i,
{
    if i > 0 {
        lemma_rows_prefix(states, shots, lengths, i - 1);
        assert(shot_appended(states[i - 1], states[i], shots[i - 1], None));
        assert forall|k: Seq<char>| states[i - 1].contains_key(k) implies shots[i - 1].contains_key(k)
            && (#[trigger] shots[i - 1][k])@.len() == lengths[k] by {}
        lemma_shot_rows(states[i - 1], states[i], shots[i - 1], lengths, (i - 1) as nat);
    }
}

/// Register aggregation keeps its shape: starting from empty output
/// registers, after `N` shots that each produced, for every output register,
/// an internal register of its declared length, every output register holds
/// exactly `N` rows, each of its declared length.
pub proof fn lemma_rows_after_shots<T>(
    states: Seq<Map<Seq<char>, Vec<Vec<T>>>>,
    shots: Seq<Map<Seq<char>, Vec<T>>>,
    lengths: Map<Seq<char>, usize>,
)
    requires
        states.len() == shots.len() + 1,
        forall|k: Seq<char>| #[trigger] states[0].contains_key(k) ==> states[0][k]@.len() == 0,
        forall|s: int|
            0 <= s < shots.len() ==> shot_appended(
                #[trigger] states[s],
                states[s + 1],
                shots[s],
                None,
            ),
        forall|s: int, k: Seq<char>|
            #![trigger shots[s].contains_key(k)]
            #![trigger shots[s][k]]
            0 <= s < shots.len() && states[0].contains_key(k) ==> shots[s].contains_key(k)
                && shots[s][k]@.len() == lengths[k],
    ensures
        states.last().dom() == states[0].dom(),
        forall|k: Seq<char>|
            #[trigger] states.last().contains_key(k) ==> states.last()[k]@.len() == shots.len(),
        forall|k: Seq<char>, j: int|
            states.last().contains_key(k) && 0 <= j < shots.len() ==> (
            #[trigger] states.last()[k]@[j])@.len() == lengths[k],
{
    lemma_rows_prefix(states, shots, lengths, shots.len() as int);
}

} // verus!
