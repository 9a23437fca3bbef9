use vstd::prelude::*;

use core::cmp::Ordering;
use vstd::std_specs::cmp::{PartialEqSpec, PartialOrdSpec};

verus! {

/// `==` on `T` is decided exactly by equality of values.
pub open spec fn lawful_eq<T: PartialEq>() -> bool {
    &&& T::obeys_eq_spec()
    &&& forall|x: T, y: T| #[trigger] x.eq_spec(&y) <==> x == y
}

/// `<` on `T` is decided by `partial_cmp_spec`.
pub open spec fn lawful_lt<T: PartialOrd>() -> bool {
    T::obeys_partial_cmp_spec()
}

/// What `a < b` evaluates to.
pub open spec fn spec_lt<T: PartialOrd>(a: T, b: T) -> bool {
    a.partial_cmp_spec(&b) == Some(Ordering::Less)
}

} // verus!
