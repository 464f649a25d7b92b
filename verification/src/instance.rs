//! Weighted instances: the values a selection queue chooses among.

use vstd::prelude::*;

verus! {

/// The weight an instance gets when none is supplied.
pub const DEFAULT_WEIGHT: usize = 1;

/// A positive selection weight: the value is always at least 1, so a zero
/// weight is unrepresentable rather than checked at selection time.
#[derive(Clone, Copy, Debug, PartialEq, Eq, Structural)]
pub struct Weight {
    value: usize,
}

impl View for Weight {
    type V = usize;

    closed spec fn view(&self) -> usize {
        self.value
    }
}

impl Weight {
    #[verifier::type_invariant]
    closed spec fn positive(self) -> bool {
        1 <= self.value
    }

    /// Builds a weight from a positive integer; zero is rejected at
    /// construction time.
    pub fn new(value: usize) -> (r: Self)
        requires
            1 <= value,
        ensures
            r@ == value,
    {
        Weight { value }
    }

    /// The numeric value of the weight, always at least 1.
    pub fn get(&self) -> (r: usize)
        ensures
            r == self@,
            1 <= r,
    {
        proof {
            use_type_invariant(self);
        }
        self.value
    }
}

/// An immutable record pairing caller data with a positive weight.
///
/// Two instances stand for the same queue entry exactly when their `data`
/// fields are equal; the weight is not part of an instance's identity.
pub struct Instance<T> {
    data: T,
    weight: Weight,
}

impl<T> Instance<T> {
    /// The stored payload.
    pub closed spec fn spec_data(self) -> T {
        self.data
    }

    /// The numeric value of the stored weight.
    pub closed spec fn spec_weight(self) -> usize {
        self.weight@
    }

    /// Builds an instance with the default weight.
    pub fn new(data: T) -> (r: Self)
        ensures
            r.spec_data() == data,
            r.spec_weight() == DEFAULT_WEIGHT,
    {
        Instance { data, weight: Weight::new(DEFAULT_WEIGHT) }
    }

    /// Builds an instance with an explicit weight.
    pub fn new_with_weight(data: T, weight: Weight) -> (r: Self)
        ensures
            r.spec_data() == data,
            r.spec_weight() == weight@,
    {
        Instance { data, weight }
    }

    /// Builds an instance from a payload and a plain integer weight; a zero
    /// weight cannot be turned into a `Weight` and is rejected up front.
    pub fn from_pair(data: T, weight: usize) -> (r: Self)
        requires
            1 <= weight,
        ensures
            r.spec_data() == data,
            r.spec_weight() == weight,
    {
        Instance { data, weight: Weight::new(weight) }
    }

    /// Read-only access to the payload.
    pub fn data(&self) -> (r: &T)
        ensures
            *r == self.spec_data(),
    {
        &self.data
    }

    /// The weight of this instance; its value is always at least 1.
    pub fn weight(&self) -> (r: Weight)
        ensures
            r@ == self.spec_weight(),
            1 <= r@,
    {
        proof {
            use_type_invariant(&self.weight);
        }
        self.weight
    }
}

} // verus!
