//! What a stored record offers the collection.
use vstd::prelude::*;

verus! {

/// A record that knows its id.
pub trait HasId {
    /// The id of the record; a record that does not say has id 0.
    open spec fn id_spec(&self) -> u32 {
        0
    }

    fn id(&self) -> (r: u32)
        ensures
            r == self.id_spec(),
    ;
}

} // verus!
