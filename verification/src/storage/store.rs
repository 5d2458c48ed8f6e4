//! Which collection names a store accepts.
use vstd::prelude::*;
use vstd::string::StringSliceAdditionalSpecFns;

verus! {

/// A collection name that stays inside the storage directory: not empty,
/// without `/`, and neither `.` nor `..`.
pub open spec fn collection_name_ok(b: Seq<u8>) -> bool {
    &&& b.len() > 0
    &&& forall|i: int| 0 <= i < b.len() ==> b[i] != 47
    &&& b != seq![46u8]
    &&& b != seq![46u8, 46u8]
}

/// Whether `name` can name a collection (see `collection_name_ok`).
pub fn is_valid_collection_name(name: &str) -> (r: bool)
    ensures
        r == collection_name_ok(name.spec_bytes()),
{
    let b = name.as_bytes();
    let n = b.len();
    if n == 0 {
        return false;
    }
    let mut i: usize = 0;
    while i < n
        invariant
            i <= n,
            n == b@.len(),
            b@ == name.spec_bytes(),
            forall|j: int| 0 <= j < i ==> b@[j] != 47,
        decreases n - i,
    {
        if b[i] == 47 {
            assert(name.spec_bytes()[i as int] == 47);
            return false;
        }
        i += 1;
    }
    if n == 1 && b[0] == 46 {
        assert(b@ =~= seq![46u8]);
        return false;
    }
    if n == 2 && b[0] == 46 && b[1] == 46 {
        assert(b@ =~= seq![46u8, 46u8]);
        return false;
    }
    proof {
        if b@ == seq![46u8] {
            assert(b@[0] == 46);
        }
        if b@ == seq![46u8, 46u8] {
            assert(b@[0] == 46 && b@[1] == 46);
        }
    }
    true
}

} // verus!
