//! Normalized escape values.

use vstd::prelude::*;

verus! {

/// The iteration budget shared by both fractal families.
pub const MAX_ITER: u32 = 50;

/// A normalized escape value: the exact ratio `count / budget`, which lies in
/// `[0, 1]`.
///
/// A `count` of zero means that the orbit stayed bounded for the whole budget;
/// any other value is the iteration, counted from one, on which it left.
#[derive(Clone, Copy, Debug, PartialEq, Eq)]
pub struct Escape {
    count: u32,
    budget: u32,
}

impl Escape {
    #[verifier::type_invariant]
    spec fn within_budget(self) -> bool {
        0 < self.budget && self.count <= self.budget
    }

    /// The iteration on which the orbit left, or zero if it never did.
    pub closed spec fn spec_count(&self) -> u32 {
        self.count
    }

    /// The number of iterations that were allowed.
    pub closed spec fn spec_budget(&self) -> u32 {
        self.budget
    }

    /// What holds of every value that executable code can get hold of.
    pub open spec fn valid(self) -> bool {
        0 < self.budget() && self.count() <= self.budget()
    }

    /// The ratio `count / budget`, if that is a value in `[0, 1]`.
    pub fn new(count: u32, budget: u32) -> (r: Option<Escape>)
        ensures
            r is Some <==> 0 < budget && count <= budget,
            r matches Some(e) ==> e.count() == count && e.budget() == budget && e.valid(),
    {
        if 0 < budget && count <= budget {
            Some(Escape { count, budget })
        } else {
            None
        }
    }

    /// The value of an orbit that never left: zero.
    pub fn bounded() -> (e: Escape)
        ensures
            e.count() == 0,
            e.budget() == MAX_ITER,
            e.valid(),
    {
        Escape { count: 0, budget: MAX_ITER }
    }

    /// The iteration on which the orbit left, or zero if it never did.
    #[verifier::when_used_as_spec(spec_count)]
    pub fn count(&self) -> (n: u32)
        ensures
            n == self.count(),
            n <= self.budget(),
    {
        proof {
            use_type_invariant(self);
        }
        self.count
    }

    /// The number of iterations that were allowed.
    #[verifier::when_used_as_spec(spec_budget)]
    pub fn budget(&self) -> (n: u32)
        ensures
            n == self.budget(),
            0 < n,
    {
        proof {
            use_type_invariant(self);
        }
        self.budget
    }

    /// Whether the orbit left within the budget.
    pub fn escaped(&self) -> (b: bool)
        ensures
            b == (self.count() > 0),
    {
        self.count > 0
    }
}

} // verus!
