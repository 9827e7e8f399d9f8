//! The interface of a tabu search over layouts: candidates that can produce
//! neighbours, and a judge that rates them.
use std::cmp::PartialOrd;
use std::hash::Hash;
use vstd::prelude::*;

verus! {

/// A candidate solution that can produce a neighbouring candidate.
pub trait Possible: Hash + Sized {
    fn generate(&self) -> Self;
}

/// How a candidate was judged: not yet rated, acceptable with its measure, or
/// to be avoided with its measure.
pub enum Assessment<P: Possible, M: PartialOrd> {
    Unknown(P),
    Okay(P, M),
    Avoid(P, M),
}

/// A judge of candidates.
pub trait Deliberate<P: Possible, M: PartialOrd> {
    fn deliberate(&self);

    fn consider(&self, possibility: P) -> Assessment<P, M>;
}

} // verus!
