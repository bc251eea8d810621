//! The `==` of the value types: equality of values, not of encodings. A NaN
//! component makes a value unequal to every value, itself included, and the
//! two zeros are equal.
use crate::binary32::Binary32;
use crate::complex::Complex;
use crate::complex_vector::{CVec, CVec2};
use vstd::prelude::*;
use vstd::std_specs::cmp::PartialEqSpecImpl;

verus! {

impl PartialEq for Binary32 {
    fn eq(&self, other: &Binary32) -> (r: bool) {
        self.equals(*other)
    }
}

impl PartialEqSpecImpl for Binary32 {
    open spec fn obeys_eq_spec() -> bool {
        true
    }

    open spec fn eq_spec(&self, other: &Binary32) -> bool {
        self.same_value(*other)
    }
}

impl PartialEq for Complex {
    fn eq(&self, other: &Complex) -> (r: bool) {
        self.real.equals(other.real) && self.imaginary.equals(other.imaginary)
    }
}

impl PartialEqSpecImpl for Complex {
    open spec fn obeys_eq_spec() -> bool {
        true
    }

    open spec fn eq_spec(&self, other: &Complex) -> bool {
        self.same_value(*other)
    }
}

/// Whether two sequences have one length and, index by index, equal values.
pub open spec fn same_values(a: Seq<Complex>, b: Seq<Complex>) -> bool {
    &&& a.len() == b.len()
    &&& forall|i: int| 0 <= i < a.len() ==> (#[trigger] a[i]).same_value(b[i])
}

impl PartialEq for CVec {
    fn eq(&self, other: &CVec) -> (r: bool) {
        self.vector == other.vector
    }
}

impl PartialEqSpecImpl for CVec {
    open spec fn obeys_eq_spec() -> bool {
        true
    }

    open spec fn eq_spec(&self, other: &CVec) -> bool {
        same_values(self@, other@)
    }
}

impl PartialEq for CVec2 {
    fn eq(&self, other: &CVec2) -> (r: bool) {
        self.vector == other.vector
    }
}

impl PartialEqSpecImpl for CVec2 {
    open spec fn obeys_eq_spec() -> bool {
        true
    }

    open spec fn eq_spec(&self, other: &CVec2) -> bool {
        &&& self.vector@.len() == other.vector@.len()
        &&& forall|i: int|
            0 <= i < self.vector@.len() ==> same_values(
                (#[trigger] self.vector@[i])@,
                other.vector@[i]@,
            )
    }
}

} // verus!
