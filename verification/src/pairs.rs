//! Unordered pairs.

use vstd::prelude::*;
use vstd::std_specs::cmp::PartialOrdIs;
use vstd::std_specs::cmp::PartialOrdSpec;

verus! {

/// The pair in ascending order: as it is where the first component is less
/// than the second, swapped otherwise. Two declarations of one jump, in
/// either direction, are thereby one pair.
pub fn sort_tuple<T>(v: (T, T)) -> (sorted: (T, T)) where T: PartialOrd
    ensures
        sorted == v || sorted == (v.1, v.0),
        T::obeys_partial_cmp_spec() ==> sorted == (if v.0.is_lt(&v.1) {
            v
        } else {
            (v.1, v.0)
        }),
{
    if v.0 < v.1 {
        (v.0, v.1)
    } else {
        (v.1, v.0)
    }
}

} // verus!
