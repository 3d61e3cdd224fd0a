//! `==` on rational numbers: equality of the numbers they stand for.
use crate::rational::Rational;
use vstd::prelude::*;

verus! {

impl PartialEq for Rational {
    fn eq(&self, other: &Rational) -> (r: bool) {
        self.equals(other)
    }
}

impl vstd::std_specs::cmp::PartialEqSpecImpl for Rational {
    open spec fn obeys_eq_spec() -> bool {
        true
    }

    open spec fn eq_spec(&self, other: &Rational) -> bool {
        self@ == other@
    }
}

} // verus!
