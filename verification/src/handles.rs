use vstd::prelude::*;
use std::collections::HashMap;

verus! {

/// A store of open resources (connections, streams, files) under integer handles.
/// Handles are handed out in increasing order from 1, so no two resources ever share one.
pub struct HandleTable<T> {
    next: u64,
    entries: HashMap<u64, T>,
}

impl<T> HandleTable<T> {
    /// The resources by handle.
    pub closed spec fn view(&self) -> Map<u64, T> {
        self.entries@
    }

    /// The handle that the next stored resource will get.
    pub closed spec fn next_handle(&self) -> u64 {
        self.next
    }

    /// Handles are positive and below the next one to be handed out.
    #[verifier::type_invariant]
    spec fn wf(&self) -> bool {
        &&& self.next >= 1
        &&& forall|id: u64| #[trigger] self.entries@.contains_key(id) ==> 1 <= id < self.next
    }

    /// An empty store; the first handle it hands out is 1.
    pub fn new() -> (t: Self)
        ensures
            t@ == Map::<u64, T>::empty(),
            t.next_handle() == 1,
    {
        HandleTable { next: 1, entries: HashMap::new() }
    }

    /// Stores a resource under a fresh handle and returns the handle.
    pub fn store(&mut self, item: T) -> (id: u64)
        requires
            old(self).next_handle() < u64::MAX,
        ensures
            id == old(self).next_handle(),
            !old(self)@.contains_key(id),
            final(self)@ == old(self)@.insert(id, item),
            final(self).next_handle() == id + 1,
    {
        broadcast use vstd::std_specs::hash::group_hash_axioms;
        proof { use_type_invariant(&*self); }
        let id = self.next;
        self.next = id + 1;
        let mut m: HashMap<u64, T> = HashMap::new();
        std::mem::swap(&mut m, &mut self.entries);
        m.insert(id, item);
        self.entries = m;
        id
    }

    /// The resource under `id`, if there is one.
    pub fn get(&self, id: u64) -> (r: Option<&T>)
        ensures
            match r {
                Some(x) => self@.contains_key(id) && *x == self@[id],
                None => !self@.contains_key(id),
            },
    {
        broadcast use vstd::std_specs::hash::group_hash_axioms;
        self.entries.get(&id)
    }

    /// Forgets the resource under `id`, if there is one.
    pub fn remove(&mut self, id: u64)
        ensures
            final(self)@ == old(self)@.remove(id),
            final(self).next_handle() == old(self).next_handle(),
    {
        broadcast use vstd::std_specs::hash::group_hash_axioms;
        proof { use_type_invariant(&*self); }
        let mut m: HashMap<u64, T> = HashMap::new();
        std::mem::swap(&mut m, &mut self.entries);
        m.remove(&id);
        self.entries = m;
    }
}

/// A handle read back right after it was stored gives the stored resource, and removing a
/// handle makes it unknown while leaving the others as they were.
pub proof fn law_store_then_get<T>(before: HandleTable<T>, after: HandleTable<T>, id: u64, item: T)
    requires
        after@ == before@.insert(id, item),
    ensures
        after@.contains_key(id),
        after@[id] == item,
        forall|other: u64| other != id ==> after@.contains_key(other) == before@.contains_key(other),
{
}

/// Removing a handle forgets exactly that handle.
pub proof fn law_remove_forgets<T>(before: HandleTable<T>, after: HandleTable<T>, id: u64)
    requires
        after@ == before@.remove(id),
    ensures
        !after@.contains_key(id),
        forall|other: u64| other != id && before@.contains_key(other)
            ==> after@.contains_key(other) && after@[other] == before@[other],
{
}

} // verus!
