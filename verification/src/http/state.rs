//! Values kept between requests, each under the id it was given.
use vstd::prelude::*;
use std::collections::HashMap;

verus! {

broadcast use {
    vstd::std_specs::hash::axiom_u32_obeys_hash_table_key_model,
    vstd::std_specs::hash::axiom_random_state_builds_valid_hashers,
};

/// Values under increasing ids, starting at 1.
pub struct State<T> {
    current_id: u32,
    state_map: HashMap<u32, T>,
}

impl<T> State<T> {
    /// Every id in use was given already: it lies between 1 and the last id.
    #[verifier::type_invariant]
    spec fn ids_given(&self) -> bool {
        forall|k: u32| #[trigger] self.state_map@.dom().contains(k) ==> 1 <= k <= self.current_id
    }

    /// The last id given (0 before the first).
    pub closed spec fn last_id(&self) -> u32 {
        self.current_id
    }

    /// The values by id.
    pub closed spec fn values(&self) -> Map<u32, T> {
        self.state_map@
    }

    /// Nothing kept yet.
    pub fn new() -> (r: Self)
        ensures
            r.last_id() == 0,
            r.values() == Map::<u32, T>::empty(),
            forall|k: u32| #[trigger] r.values().dom().contains(k) ==> 1 <= k <= r.last_id(),
    {
        State { current_id: 0, state_map: HashMap::new() }
    }

    /// Keeps `state` under the next id.
    pub fn insert(&mut self, state: T)
        requires
            old(self).last_id() < u32::MAX,
        ensures
            final(self).last_id() == old(self).last_id() + 1,
            final(self).values() == old(self).values().insert(final(self).last_id(), state),
            !old(self).values().dom().contains(final(self).last_id()),
            forall|k: u32|
                #[trigger] final(self).values().dom().contains(k) ==> 1 <= k <= final(self).last_id(),
    {
        proof {
            use_type_invariant(&*self);
        }
        let id = self.current_id + 1;
        let mut kept = HashMap::new();
        std::mem::swap(&mut kept, &mut self.state_map);
        kept.insert(id, state);
        self.current_id = id;
        self.state_map = kept;
    }
}

} // verus!
