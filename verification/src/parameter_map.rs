//! A map from parameter names to parameter values.
use vstd::prelude::*;

use crate::modules::{value_equal, ParameterValue, ValueModel};

verus! {

/// Parameter values by name. Each name occurs at most once; entries keep the
/// order in which their names were first inserted.
#[derive(Debug)]
pub struct ParameterMap {
    entries: Vec<(String, ParameterValue)>,
}

/// No name occurs twice among the entries of a parameter-map model.
pub open spec fn names_distinct(m: Seq<(Seq<char>, ValueModel)>) -> bool {
    forall|i: int, j: int| 0 <= i < m.len() && 0 <= j < m.len() && i != j ==> m[i].0 != m[j].0
}

/// The position of `name` in a parameter-map model, if present.
pub open spec fn position_of(m: Seq<(Seq<char>, ValueModel)>, name: Seq<char>) -> Option<int> {
    if exists|i: int| 0 <= i < m.len() && m[i].0 == name {
        Some(choose|i: int| 0 <= i < m.len() && m[i].0 == name)
    } else {
        None
    }
}

/// The value stored under `name` in a parameter-map model, if any.
pub open spec fn lookup(m: Seq<(Seq<char>, ValueModel)>, name: Seq<char>) -> Option<ValueModel> {
    match position_of(m, name) {
        Some(i) => Some(m[i].1),
        None => None,
    }
}

/// The model after storing `value` under `name`: an existing entry is
/// replaced in place, a new one is appended.
pub open spec fn insert_model(m: Seq<(Seq<char>, ValueModel)>, name: Seq<char>, value: ValueModel) -> Seq<
    (Seq<char>, ValueModel),
> {
    match position_of(m, name) {
        Some(i) => m.update(i, (name, value)),
        None => m.push((name, value)),
    }
}

proof fn lemma_insert_keeps_names_distinct(m: Seq<(Seq<char>, ValueModel)>, name: Seq<char>, value: ValueModel)
    requires
        names_distinct(m),
    ensures
        names_distinct(insert_model(m, name, value)),
        lookup(insert_model(m, name, value), name) == Some(value),
{
    let r = insert_model(m, name, value);
    match position_of(m, name) {
        Some(i) => {
            assert forall|a: int, b: int| 0 <= a < r.len() && 0 <= b < r.len() && a != b implies r[a].0 != r[b].0 by {
            }
            assert(r[i].0 == name);
        },
        None => {
            assert forall|a: int, b: int| 0 <= a < r.len() && 0 <= b < r.len() && a != b implies r[a].0 != r[b].0 by {
            }
            assert(r[m.len() as int].0 == name);
        },
    }
    let p = position_of(r, name);
    assert(p is Some);
    assert(r[p->0].0 == name);
}

/// An entry whose value differs from the value `old` holds under the same
/// name (or whose name `old` does not hold).
pub open spec fn differs_from(old: Seq<(Seq<char>, ValueModel)>) -> spec_fn((Seq<char>, ValueModel)) -> bool {
    |e: (Seq<char>, ValueModel)|
        !(match lookup(old, e.0) {
            Some(v) => value_equal(v, e.1),
            None => false,
        })
}

impl View for ParameterMap {
    type V = Seq<(Seq<char>, ValueModel)>;

    closed spec fn view(&self) -> Seq<(Seq<char>, ValueModel)> {
        self.entries@.map_values(|e: (String, ParameterValue)| (e.0@, e.1@))
    }
}

impl ParameterMap {
    /// Each name occurs at most once (a type invariant: callers obtain it
    /// with `use_type_invariant`).
    #[verifier::type_invariant]
    pub open spec fn wf(self) -> bool {
        names_distinct(self@)
    }

    /// An empty map.
    pub fn new() -> (r: ParameterMap)
        ensures
            r@ == Seq::<(Seq<char>, ValueModel)>::empty(),
    {
        let r = ParameterMap { entries: Vec::new() };
        proof {
            assert(r@ =~= Seq::<(Seq<char>, ValueModel)>::empty());
        }
        r
    }

    /// Number of entries.
    pub fn len(&self) -> (r: usize)
        ensures
            r == self@.len(),
    {
        self.entries.len()
    }

    /// Returns `true` when the map holds no entry.
    pub fn is_empty(&self) -> (r: bool)
        ensures
            r == (self@.len() == 0),
    {
        self.entries.len() == 0
    }

    /// The `i`-th entry.
    pub fn entry(&self, i: usize) -> (r: (&String, &ParameterValue))
        requires
            i < self@.len(),
        ensures
            r.0@ == self@[i as int].0,
            r.1@ == self@[i as int].1,
    {
        let e = &self.entries[i];
        (&e.0, &e.1)
    }

    /// Position of the entry named `name`.
    pub fn find(&self, name: &str) -> (r: Option<usize>)
        ensures
            r is None ==> position_of(self@, name@) is None,
            r matches Some(i) ==> position_of(self@, name@) == Some(i as int),
            r matches Some(i) ==> i < self@.len() && self@[i as int].0 == name@,
    {
        proof {
            use_type_invariant(self);
        }
        let key = name.to_owned();
        let mut i: usize = 0;
        while i < self.entries.len()
            invariant
                i <= self@.len(),
                key@ == name@,
                names_distinct(self@),
                self@.len() == self.entries@.len(),
                forall|k: int| 0 <= k < i ==> self@[k].0 != name@,
            decreases self@.len() - i,
        {
            if self.entries[i].0 == key {
                proof {
                    assert(self@[i as int].0 == name@);
                    let c = choose|k: int| 0 <= k < self@.len() && self@[k].0 == name@;
                    assert(c == i);
                }
                return Some(i);
            }
            i = i + 1;
        }
        None
    }

    /// Returns `true` when an entry is named `name`.
    pub fn contains_key(&self, name: &str) -> (r: bool)
        ensures
            r == (lookup(self@, name@) is Some),
    {
        self.find(name).is_some()
    }

    /// The value stored under `name`.
    pub fn get(&self, name: &str) -> (r: Option<&ParameterValue>)
        ensures
            match r {
                Some(v) => lookup(self@, name@) == Some(v@),
                None => lookup(self@, name@) is None,
            },
    {
        match self.find(name) {
            Some(i) => {
                assert(self@[i as int].1 == self.entries@[i as int].1@);

                Some(&self.entries[i].1)
            },
            None => None,
        }
    }

    /// Stores `value` under `name`, replacing any existing value in place.
    pub fn insert(&mut self, name: String, value: ParameterValue)
        ensures
            final(self)@ == insert_model(old(self)@, name@, value@),
    {
        proof {
            use_type_invariant(&*self);
        }
        let ghost old_view = self@;
        let pos = self.find(name.as_str());
        let ghost nv = name@;
        let ghost vv = value@;
        let mut entries: Vec<(String, ParameterValue)> = Vec::new();
        std::mem::swap(&mut entries, &mut self.entries);
        assert(entries@.map_values(|e: (String, ParameterValue)| (e.0@, e.1@)) == old_view);
        match pos {
            Some(i) => {
                entries.set(i, (name, value));
                proof {
                    assert(entries@.map_values(|e: (String, ParameterValue)| (e.0@, e.1@)) =~= old_view.update(
                        i as int,
                        (nv, vv),
                    ));
                }
            },
            None => {
                entries.push((name, value));
                proof {
                    assert(entries@.map_values(|e: (String, ParameterValue)| (e.0@, e.1@)) =~= old_view.push(
                        (nv, vv),
                    ));
                }
            },
        }
        proof {
            lemma_insert_keeps_names_distinct(old_view, nv, vv);
        }
        self.entries = entries;
    }

    /// The entries of this map whose value differs from the value `prev`
    /// holds under the same name (or that `prev` does not hold), in order.
    pub fn diff_from(&self, prev: &ParameterMap) -> (r: ParameterMap)
        ensures
            r@ == self@.filter(differs_from(prev@)),
    {
        proof {
            use_type_invariant(self);
        }
        let ghost pred = differs_from(prev@);
        let mut out = ParameterMap::new();
        let mut i: usize = 0;
        while i < self.entries.len()
            invariant
                i <= self@.len(),
                self@.len() == self.entries@.len(),
                names_distinct(self@),
                pred == differs_from(prev@),
                out@ == self@.take(i as int).filter(pred),
                forall|j: int| 0 <= j < out@.len() ==> exists|k: int| 0 <= k < i && self@[k].0 == #[trigger] out@[j].0,
            decreases self@.len() - i,
        {
            let e = &self.entries[i];
            let ghost em = self@[i as int];
            assert(em == (e.0@, e.1@));
            let changed = match prev.get(e.0.as_str()) {
                Some(v) => !v.same_as(&e.1),
                None => true,
            };
            proof {
                match lookup(prev@, em.0) {
                    Some(v) => {},
                    None => {},
                }
                assert(changed == pred(em));
                assert(self@.take(i as int + 1) =~= self@.take(i as int).push(em));
                self@.take(i as int).lemma_filter_push(em, pred);
            }
            if changed {
                let ghost before = out@;
                proof {
                    assert(position_of(before, em.0) is None) by {
                        if exists|j: int| 0 <= j < before.len() && before[j].0 == em.0 {
                            let j = choose|j: int| 0 <= j < before.len() && before[j].0 == em.0;
                            let k = choose|k: int| 0 <= k < i && self@[k].0 == before[j].0;
                            assert(self@[k].0 == self@[i as int].0);
                        }
                    }
                }
                out.insert(e.0.clone(), e.1.duplicate());
                proof {
                    assert(out@ =~= before.push(em));
                    assert forall|j: int| 0 <= j < out@.len() implies exists|k: int|
                        0 <= k < i + 1 && self@[k].0 == #[trigger] out@[j].0 by {
                        if j < before.len() {
                            let k = choose|k: int| 0 <= k < i && self@[k].0 == before[j].0;
                            assert(self@[k].0 == out@[j].0);
                        } else {
                            assert(self@[i as int].0 == out@[j].0);
                        }
                    }
                }
            }
            i = i + 1;
        }
        proof {
            assert(self@.take(self@.len() as int) =~= self@);
        }
        out
    }

    /// A copy of this map.
    pub fn duplicate(&self) -> (r: ParameterMap)
        ensures
            r@ == self@,
    {
        proof {
            use_type_invariant(self);
        }
        let mut out: Vec<(String, ParameterValue)> = Vec::new();
        let mut i: usize = 0;
        while i < self.entries.len()
            invariant
                i <= self@.len(),
                self@.len() == self.entries@.len(),
                out@.len() == i,
                forall|k: int| 0 <= k < i ==> (#[trigger] out@[k]).0@ == self@[k].0 && out@[k].1@ == self@[k].1,
            decreases self@.len() - i,
        {
            let e = &self.entries[i];
            out.push((e.0.clone(), e.1.duplicate()));
            i = i + 1;
        }
        let r = ParameterMap { entries: out };
        proof {
            assert(r@ =~= self@);
        }
        r
    }
}

impl Clone for ParameterMap {
    fn clone(&self) -> Self {
        self.duplicate()
    }
}

} // verus!
