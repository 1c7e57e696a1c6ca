use vstd::prelude::*;
use crate::text::str_eq;

verus! {

/// A scope of variable bindings, with an optional enclosing scope.
/// Lookups and assignments search this scope first, then the enclosing ones.
pub struct Environment<V> {
    values: Vec<(String, V)>,
    parent: Option<Box<Environment<V>>>,
}

/// The names bound in a list of bindings.
pub open spec fn binds<V>(vs: Seq<(String, V)>, k: Seq<char>) -> bool {
    exists|i: int| 0 <= i < vs.len() && (#[trigger] vs[i]).0@ == k
}

/// No name occurs twice in a list of bindings.
pub open spec fn distinct_names<V>(vs: Seq<(String, V)>) -> bool {
    forall|i: int, j: int| 0 <= i < vs.len() && 0 <= j < vs.len() && i != j ==> (#[trigger] vs[i]).0@ != (#[trigger] vs[j]).0@
}

/// The bindings of a list, as a map from names to values.
pub open spec fn binding_map<V>(vs: Seq<(String, V)>) -> Map<Seq<char>, V> {
    Map::new(
        |k: Seq<char>| binds(vs, k),
        |k: Seq<char>| vs[choose|i: int| 0 <= i < vs.len() && (#[trigger] vs[i]).0@ == k].1,
    )
}

proof fn lemma_binding_at<V>(vs: Seq<(String, V)>, i: int)
    requires
        distinct_names(vs),
        0 <= i < vs.len(),
    ensures
        binding_map(vs).contains_key(vs[i].0@),
        binding_map(vs)[vs[i].0@] == vs[i].1,
{
    let k = vs[i].0@;
    assert(binds(vs, k));
    let j = choose|j: int| 0 <= j < vs.len() && (#[trigger] vs[j]).0@ == k;
    assert(j == i);
}

impl<V> Environment<V> {
    /// The bindings of this scope alone.
    pub closed spec fn local(&self) -> Map<Seq<char>, V> {
        binding_map(self.values@)
    }

    /// The enclosing scope, if any.
    pub closed spec fn enclosing(&self) -> Option<Environment<V>> {
        match self.parent {
            Some(b) => Some(*b),
            None => None,
        }
    }

    /// Well-formed: no name is bound twice in one scope, in this scope and all enclosing ones.
    pub closed spec fn wf(&self) -> bool
        decreases self,
    {
        &&& distinct_names(self.values@)
        &&& match self.parent {
            Some(p) => p.wf(),
            None => true,
        }
    }

    /// The value a name has here: from the innermost scope that binds it.
    pub closed spec fn lookup(&self, name: Seq<char>) -> Option<V>
        decreases self,
    {
        if self.local().contains_key(name) {
            Some(self.local()[name])
        } else {
            match self.parent {
                Some(p) => p.lookup(name),
                None => None,
            }
        }
    }

    /// `new` is `old` after assigning `v` to `name`: the innermost scope that binds the
    /// name holds the new value, every other binding is unchanged; if no scope binds it,
    /// nothing changes.
    pub closed spec fn assigned_from(&self, old: &Self, name: Seq<char>, v: V) -> bool
        decreases old,
    {
        if old.local().contains_key(name) {
            &&& self.local() == old.local().insert(name, v)
            &&& self.enclosing() == old.enclosing()
        } else {
            &&& self.local() == old.local()
            &&& match (self.parent, old.parent) {
                (Some(np), Some(op)) => np.assigned_from(&*op, name, v),
                (None, None) => true,
                _ => false,
            }
        }
    }

    pub fn new() -> (e: Self)
        ensures
            e.wf(),
            e.local() == Map::<Seq<char>, V>::empty(),
            e.enclosing() is None,
    {
        let e = Environment { values: Vec::new(), parent: None };
        assert(e.local() =~= Map::<Seq<char>, V>::empty());
        e
    }

    /// An empty scope enclosed by `parent`.
    pub fn new_child(parent: Self) -> (e: Self)
        requires
            parent.wf(),
        ensures
            e.wf(),
            e.local() == Map::<Seq<char>, V>::empty(),
            e.enclosing() == Some(parent),
    {
        let e = Environment { values: Vec::new(), parent: Some(Box::new(parent)) };
        assert(e.local() =~= Map::<Seq<char>, V>::empty());
        e
    }

    /// The position of `name` among this scope's bindings.
    fn find_local(&self, name: &str) -> (r: Option<usize>)
        requires
            distinct_names(self.values@),
        ensures
            match r {
                Some(i) => i < self.values@.len() && self.values@[i as int].0@ == name@,
                None => !binds(self.values@, name@),
            },
    {
        let mut i: usize = 0;
        while i < self.values.len()
            invariant
                i <= self.values@.len(),
                forall|j: int| 0 <= j < i ==> (#[trigger] self.values@[j]).0@ != name@,
            decreases self.values.len() - i,
        {
            if str_eq(self.values[i].0.as_str(), name) {
                return Some(i);
            }
            i += 1;
        }
        None
    }

    /// Binds `name` to `value` in this scope, replacing a binding of the same name here.
    pub fn define(&mut self, name: String, value: V)
        requires
            old(self).wf(),
        ensures
            final(self).wf(),
            final(self).local() == old(self).local().insert(name@, value),
            final(self).enclosing() == old(self).enclosing(),
    {
        proof { self.lemma_local_wf(); }
        match self.find_local(name.as_str()) {
            Some(i) => {
                let ghost old_vs = self.values@;
                self.values.set(i, (name, value));
                proof {
                    let vs = self.values@;
                    assert(distinct_names(vs)) by {
                        assert forall|a: int, b: int| 0 <= a < vs.len() && 0 <= b < vs.len() && a != b
                            implies (#[trigger] vs[a]).0@ != (#[trigger] vs[b]).0@ by {
                            assert(old_vs[a].0@ != old_vs[b].0@);
                        }
                    }
                    assert forall|k: Seq<char>| binds(vs, k) == binds(old_vs, k) by {
                        if binds(vs, k) {
                            let j = choose|j: int| 0 <= j < vs.len() && (#[trigger] vs[j]).0@ == k;
                            assert(old_vs[j].0@ == k);
                        }
                        if binds(old_vs, k) {
                            let j = choose|j: int| 0 <= j < old_vs.len() && (#[trigger] old_vs[j]).0@ == k;
                            assert(vs[j].0@ == k);
                        }
                    }
                    assert forall|k: Seq<char>| #[trigger] binds(vs, k) && k != name@
                        implies binding_map(vs)[k] == binding_map(old_vs)[k] by {
                        let j = choose|j: int| 0 <= j < vs.len() && (#[trigger] vs[j]).0@ == k;
                        lemma_binding_at(vs, j);
                        lemma_binding_at(old_vs, j);
                    }
                    lemma_binding_at(vs, i as int);
                    assert(binding_map(vs) =~= binding_map(old_vs).insert(name@, value));
                }
            },
            None => {
                let ghost old_vs = self.values@;
                let ghost nm = name@;
                self.values.push((name, value));
                proof {
                    let vs = self.values@;
                    assert(vs[vs.len() - 1].0@ == nm);
                    assert(distinct_names(vs)) by {
                        assert forall|a: int, b: int| 0 <= a < vs.len() && 0 <= b < vs.len() && a != b
                            implies (#[trigger] vs[a]).0@ != (#[trigger] vs[b]).0@ by {
                            if a < old_vs.len() && b < old_vs.len() {
                                assert(old_vs[a].0@ != old_vs[b].0@);
                            } else if a < old_vs.len() {
                                assert(vs[a] == old_vs[a]);
                            } else {
                                assert(vs[b] == old_vs[b]);
                            }
                        }
                    }
                    assert forall|k: Seq<char>| binds(vs, k) == (binds(old_vs, k) || k == nm) by {
                        if binds(vs, k) {
                            let j = choose|j: int| 0 <= j < vs.len() && (#[trigger] vs[j]).0@ == k;
                            if j < old_vs.len() {
                                assert(old_vs[j].0@ == k);
                            }
                        }
                        if binds(old_vs, k) {
                            let j = choose|j: int| 0 <= j < old_vs.len() && (#[trigger] old_vs[j]).0@ == k;
                            assert(vs[j].0@ == k);
                        }
                        if k == nm {
                            assert(vs[vs.len() - 1].0@ == k);
                        }
                    }
                    assert forall|k: Seq<char>| #[trigger] binds(vs, k) && k != nm
                        implies binding_map(vs)[k] == binding_map(old_vs)[k] by {
                        let j = choose|j: int| 0 <= j < vs.len() && (#[trigger] vs[j]).0@ == k;
                        assert(j < old_vs.len());
                        lemma_binding_at(vs, j);
                        lemma_binding_at(old_vs, j);
                    }
                    lemma_binding_at(vs, vs.len() - 1);
                    assert(binding_map(vs) =~= binding_map(old_vs).insert(nm, value));
                }
            },
        }
    }

    proof fn lemma_local_wf(&self)
        requires self.wf(),
        ensures distinct_names(self.values@),
    {
    }

    /// The value of `name`, searching this scope, then the enclosing ones.
    pub fn get(&self, name: &str) -> (r: Option<&V>)
        requires
            self.wf(),
        ensures
            match r {
                Some(v) => self.lookup(name@) == Some(*v),
                None => self.lookup(name@) is None,
            },
        decreases self,
    {
        match self.find_local(name) {
            Some(i) => {
                proof { lemma_binding_at(self.values@, i as int); }
                Some(&self.values[i].1)
            },
            None => {
                match &self.parent {
                    Some(p) => p.get(name),
                    None => None,
                }
            },
        }
    }

    /// Assigns `value` to `name` in the innermost scope that binds it.
    /// Returns whether some scope binds the name; if none does, nothing changes.
    pub fn set(&mut self, name: &str, value: V) -> (r: bool)
        requires
            old(self).wf(),
        ensures
            final(self).wf(),
            r == old(self).lookup(name@) is Some,
            final(self).assigned_from(old(self), name@, value),
        decreases *old(self),
    {
        match self.find_local(name) {
            Some(i) => {
                proof { lemma_binding_at(self.values@, i as int); }
                let ghost old_vs = self.values@;
                let ghost nm = name@;
                let ghost val = value;
                let (key, _old_value) = self.values.remove(i);
                self.values.insert(i, (key, value));
                proof {
                    let vs = self.values@;
                    assert(vs =~= old_vs.update(i as int, (old_vs[i as int].0, val)));
                    assert(distinct_names(vs)) by {
                        assert forall|a: int, b: int| 0 <= a < vs.len() && 0 <= b < vs.len() && a != b
                            implies (#[trigger] vs[a]).0@ != (#[trigger] vs[b]).0@ by {
                            assert(old_vs[a].0@ != old_vs[b].0@);
                        }
                    }
                    assert forall|k: Seq<char>| binds(vs, k) == binds(old_vs, k) by {
                        if binds(vs, k) {
                            let j = choose|j: int| 0 <= j < vs.len() && (#[trigger] vs[j]).0@ == k;
                            assert(old_vs[j].0@ == k);
                        }
                        if binds(old_vs, k) {
                            let j = choose|j: int| 0 <= j < old_vs.len() && (#[trigger] old_vs[j]).0@ == k;
                            assert(vs[j].0@ == k);
                        }
                    }
                    assert forall|k: Seq<char>| #[trigger] binds(vs, k) && k != nm
                        implies binding_map(vs)[k] == binding_map(old_vs)[k] by {
                        let j = choose|j: int| 0 <= j < vs.len() && (#[trigger] vs[j]).0@ == k;
                        lemma_binding_at(vs, j);
                        lemma_binding_at(old_vs, j);
                    }
                    lemma_binding_at(vs, i as int);
                    assert(binding_map(vs) =~= binding_map(old_vs).insert(nm, val));
                }
                true
            },
            None => {
                match &mut self.parent {
                    Some(p) => {
                        let r = p.set(name, value);
                        r
                    },
                    None => false,
                }
            },
        }
    }

    /// The enclosing scope.
    pub fn parent(&self) -> (r: Option<&Self>)
        ensures
            match r {
                Some(p) => self.enclosing() == Some(*p),
                None => self.enclosing() is None,
            },
    {
        match &self.parent {
            Some(p) => Some(p),
            None => None,
        }
    }

    /// The bindings of this scope alone, in the order they were made.
    pub fn values(&self) -> (r: &Vec<(String, V)>)
        requires
            self.wf(),
        ensures
            binding_map(r@) == self.local(),
            distinct_names(r@),
    {
        &self.values
    }
}

/// After `define(name, v)`, looking `name` up gives `v`, and every other name
/// looks up as before.
pub proof fn law_lookup_after_define<V>(before: Environment<V>, after: Environment<V>, name: Seq<char>, v: V)
    requires
        after.local() == before.local().insert(name, v),
        after.enclosing() == before.enclosing(),
    ensures
        after.lookup(name) == Some(v),
        forall|other: Seq<char>| other != name ==> after.lookup(other) == before.lookup(other),
{
    reveal_with_fuel(Environment::lookup, 2);
    assert forall|other: Seq<char>| other != name implies after.lookup(other) == before.lookup(other) by {
        if before.local().contains_key(other) {
        } else {
            assert(!after.local().contains_key(other));
        }
    }
}

/// After a successful `set(name, v)` (one whose name some scope binds), looking `name`
/// up gives `v`, and every other name looks up as before.
pub proof fn law_lookup_after_set<V>(before: Environment<V>, after: Environment<V>, name: Seq<char>, v: V)
    requires
        after.assigned_from(&before, name, v),
        before.lookup(name) is Some,
    ensures
        after.lookup(name) == Some(v),
        forall|other: Seq<char>| other != name ==> after.lookup(other) == before.lookup(other),
    decreases before,
{
    if before.local().contains_key(name) {
        law_lookup_after_define(before, after, name, v);
    } else {
        match (after.parent, before.parent) {
            (Some(np), Some(op)) => {
                law_lookup_after_set(*op, *np, name, v);
                assert forall|other: Seq<char>| other != name implies after.lookup(other) == before.lookup(other) by {
                    if before.local().contains_key(other) {
                    } else {
                        assert(!after.local().contains_key(other));
                        assert(after.lookup(other) == (*np).lookup(other));
                        assert(before.lookup(other) == (*op).lookup(other));
                    }
                }
            },
            _ => {},
        }
    }
}

/// A `set` of a name that no scope binds changes no lookup.
pub proof fn law_set_unbound_changes_nothing<V>(before: Environment<V>, after: Environment<V>, name: Seq<char>, v: V)
    requires
        after.assigned_from(&before, name, v),
        before.lookup(name) is None,
    ensures
        forall|other: Seq<char>| after.lookup(other) == before.lookup(other),
    decreases before,
{
    assert(!before.local().contains_key(name));
    assert(after.local() == before.local());
    match (after.parent, before.parent) {
        (Some(np), Some(op)) => {
            law_set_unbound_changes_nothing(*op, *np, name, v);
            assert forall|other: Seq<char>| after.lookup(other) == before.lookup(other) by {
                if before.local().contains_key(other) {
                } else {
                    assert(after.lookup(other) == (*np).lookup(other));
                    assert(before.lookup(other) == (*op).lookup(other));
                }
            }
        },
        _ => {
            assert forall|other: Seq<char>| after.lookup(other) == before.lookup(other) by {
            }
        },
    }
}

/// A binding in a scope hides any binding of the same name in the enclosing scopes.
pub proof fn law_inner_binding_shadows<V>(env: Environment<V>, name: Seq<char>)
    requires
        env.local().contains_key(name),
    ensures
        env.lookup(name) == Some(env.local()[name]),
{
}

/// A name that the scope does not bind itself looks up as in the enclosing scope.
pub proof fn law_lookup_falls_through<V>(env: Environment<V>, name: Seq<char>)
    requires
        !env.local().contains_key(name),
    ensures
        env.lookup(name) == match env.enclosing() {
            Some(p) => p.lookup(name),
            None => None,
        },
{
}

} // verus!
