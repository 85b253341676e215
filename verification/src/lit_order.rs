//! The order of literals: by variable, and a positive literal before the
//! negative one of the same variable.

use vstd::prelude::*;
use vstd::std_specs::cmp::{PartialOrdSpec, PartialOrdSpecImpl};
use std::cmp::Ordering;
use crate::lit::Lit;

verus! {

/// How two literals of equally ordered variables compare.
pub open spec fn polarity_order<V>(a: Lit<V>, b: Lit<V>) -> Ordering {
    if a is Pos && b is Neg {
        Ordering::Less
    } else if a is Neg && b is Pos {
        Ordering::Greater
    } else {
        Ordering::Equal
    }
}

impl<V: PartialOrd> PartialOrd for Lit<V> {
    fn partial_cmp(&self, other: &Self) -> (r: Option<Ordering>) {
        match self.var().partial_cmp(other.var()) {
            Some(Ordering::Equal) => {
                match (self, other) {
                    (Lit::Pos(_), Lit::Neg(_)) => Some(Ordering::Less),
                    (Lit::Neg(_), Lit::Pos(_)) => Some(Ordering::Greater),
                    _ => Some(Ordering::Equal),
                }
            },
            o => o,
        }
    }
}

impl<V: PartialOrd> PartialOrdSpecImpl for Lit<V> {
    open spec fn obeys_partial_cmp_spec() -> bool {
        V::obeys_partial_cmp_spec()
    }

    open spec fn partial_cmp_spec(&self, other: &Self) -> Option<Ordering> {
        match self.spec_var().partial_cmp_spec(&other.spec_var()) {
            Some(Ordering::Equal) => Some(polarity_order(*self, *other)),
            o => o,
        }
    }
}

} // verus!
