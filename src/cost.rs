//! # Extended costs
//!
//! Path costs with a distinguished `Infinity` for "no path".
use vstd::prelude::*;
use vstd::std_specs::ops::AddSpec;

verus! {

/// A cost, or `Infinity` when there is no path. `Infinity` is greater than every `Normal` value.
#[derive(Debug, PartialOrd, Ord, PartialEq, Eq, Copy, Clone, Structural)]
pub enum WithInfinity<I> {
    Normal(I),
    Infinity,
}

impl<I> Default for WithInfinity<I> {
    /// An unknown distance is infinite.
    fn default() -> (r: Self)
        ensures
            r is Infinity,
    {
        WithInfinity::Infinity
    }
}

impl<I: std::ops::Add<I, Output = I>> std::ops::Add<WithInfinity<I>> for WithInfinity<I> {
    type Output = WithInfinity<I>;

    /// The sum of two costs; `Infinity` absorbs.
    fn add(self, rhs: WithInfinity<I>) -> (r: WithInfinity<I>) {
        match self {
            WithInfinity::Normal(i) => match rhs {
                WithInfinity::Infinity => WithInfinity::Infinity,
                WithInfinity::Normal(j) => WithInfinity::Normal(i + j),
            },
            WithInfinity::Infinity => WithInfinity::Infinity,
        }
    }
}

impl<I: std::ops::Add<I, Output = I>> vstd::std_specs::ops::AddSpecImpl<WithInfinity<I>> for WithInfinity<I> {
    open spec fn obeys_add_spec() -> bool {
        I::obeys_add_spec()
    }

    open spec fn add_req(self, rhs: WithInfinity<I>) -> bool {
        match (self, rhs) {
            (WithInfinity::Normal(i), WithInfinity::Normal(j)) => i.add_req(j),
            _ => true,
        }
    }

    open spec fn add_spec(self, rhs: WithInfinity<I>) -> WithInfinity<I> {
        match (self, rhs) {
            (WithInfinity::Normal(i), WithInfinity::Normal(j)) => WithInfinity::Normal(i.add_spec(j)),
            _ => WithInfinity::Infinity,
        }
    }
}

/// The order on extended costs: `Infinity` is above every finite value.
pub open spec fn ext_lt(a: WithInfinity<u64>, b: WithInfinity<u64>) -> bool {
    match (a, b) {
        (WithInfinity::Normal(i), WithInfinity::Normal(j)) => i < j,
        (WithInfinity::Normal(_), WithInfinity::Infinity) => true,
        _ => false,
    }
}

/// Sum of extended costs over the integers: `Infinity` absorbs.
pub open spec fn ext_sum(a: WithInfinity<u64>, b: WithInfinity<u64>) -> WithInfinity<int> {
    match (a, b) {
        (WithInfinity::Normal(i), WithInfinity::Normal(j)) => WithInfinity::Normal(i + j),
        _ => WithInfinity::Infinity,
    }
}

impl WithInfinity<u64> {
    /// Whether `self` is strictly below `other`.
    pub fn is_less_than(self, other: WithInfinity<u64>) -> (r: bool)
        ensures
            r == ext_lt(self, other),
    {
        match (self, other) {
            (WithInfinity::Normal(i), WithInfinity::Normal(j)) => i < j,
            (WithInfinity::Normal(_), WithInfinity::Infinity) => true,
            _ => false,
        }
    }

    /// The sum of two costs, or `None` when a finite sum does not fit in `u64`.
    pub fn checked_plus(self, other: WithInfinity<u64>) -> (r: Option<WithInfinity<u64>>)
        ensures
            r is None <==> (ext_sum(self, other) matches WithInfinity::Normal(s) && s > u64::MAX),
            r matches Some(v) ==> ext_sum(self, other) == match v {
                WithInfinity::Normal(s) => WithInfinity::Normal(s as int),
                WithInfinity::Infinity => WithInfinity::<int>::Infinity,
            },
    {
        match (self, other) {
            (WithInfinity::Normal(i), WithInfinity::Normal(j)) => match i.checked_add(j) {
                Some(s) => Some(WithInfinity::Normal(s)),
                None => None,
            },
            _ => Some(WithInfinity::Infinity),
        }
    }
}

/// `Infinity` is above every finite cost, `u64::MAX` included, and absorbs any finite cost
/// added to it, on either side.
pub proof fn lemma_infinity_absorbs(a: u64)
    ensures
        ext_lt(WithInfinity::Normal(a), WithInfinity::Infinity),
        ext_lt(WithInfinity::Normal(u64::MAX), WithInfinity::Infinity),
        !ext_lt(WithInfinity::Infinity, WithInfinity::Normal(a)),
        ext_sum(WithInfinity::Normal(a), WithInfinity::Infinity) == WithInfinity::<int>::Infinity,
        ext_sum(WithInfinity::Infinity, WithInfinity::Normal(a)) == WithInfinity::<int>::Infinity,
{
}

/// Addition of extended costs is commutative.
pub proof fn lemma_sum_commutes(a: WithInfinity<u64>, b: WithInfinity<u64>)
    ensures
        ext_sum(a, b) == ext_sum(b, a),
{
}

/// For costs of any type, `Infinity` absorbs on either side of `+`.
pub proof fn lemma_infinity_absorbs_any<I: std::ops::Add<I, Output = I>>(a: I, x: WithInfinity<I>)
    ensures
        WithInfinity::Normal(a).add_spec(WithInfinity::<I>::Infinity) == WithInfinity::<I>::Infinity,
        WithInfinity::<I>::Infinity.add_spec(x) == WithInfinity::<I>::Infinity,
        WithInfinity::<I>::Infinity.add_req(x),
        x.add_req(WithInfinity::<I>::Infinity),
{
}

} // verus!
