use vstd::prelude::*;

verus! {

/// Everything that can go wrong inside the store. Every failure is reported as
/// one of these values; no operation of the library aborts.
#[derive(Clone, Copy, Debug, PartialEq, Eq, Structural)]
pub enum StoreError {
    /// An embedding's width disagrees with the vectors it is held against.
    DimensionMismatch,
    /// A vector of norm zero has no direction, hence no cosine.
    DegenerateVector,
    /// No score can be computed: a component is an infinity or a NaN, or a
    /// vector is longer than the scoring bound allows.
    InvalidScore,
    /// No node carries the requested id.
    NotFound,
    /// A persisted snapshot does not describe a consistent store.
    PersistenceError,
    /// Every id the store could hand out has been used.
    IdsExhausted,
}

} // verus!
