use vstd::prelude::*;

verus! {

/// The arithmetic that the graph algorithms perform on weights.
///
/// The algorithms of this crate never look inside a weight: they only copy
/// weights around and hand them to these operations. Each operation is tied to
/// a spec function of the same arguments, which only says that it computes a
/// function of its arguments; what that function is stays open. Properties
/// that depend on it, such as that a route is found whenever one exists, are
/// stated under explicit hypotheses on these spec functions (see
/// `navigation::finite_walks`).
pub trait Weight: Copy + Sized {
    /// The value `zero` returns.
    spec fn spec_zero() -> Self;

    /// The value `infinite` returns.
    spec fn spec_infinite() -> Self;

    /// The value `step` returns.
    spec fn spec_step(self, verse: Self, waypoint: Self) -> Self;

    /// The value `less_than` returns.
    spec fn spec_less(self, other: Self) -> bool;

    /// The value `drawn` returns.
    spec fn spec_drawn(draw: u32) -> Self;

    /// The distance of the start of a route from itself.
    fn zero() -> (r: Self)
        ensures
            r == Self::spec_zero(),
    ;

    /// The distance given to a waypoint that no route has reached yet.
    fn infinite() -> (r: Self)
        ensures
            r == Self::spec_infinite(),
    ;

    /// The distance after leaving a waypoint at distance `self` along a verse of
    /// weight `verse` into a waypoint of weight `waypoint`. Heavier verses and
    /// waypoints make the distance smaller, so the lightest distance is the
    /// heaviest route.
    fn step(&self, verse: &Self, waypoint: &Self) -> (r: Self)
        ensures
            r == self.spec_step(*verse, *waypoint),
    ;

    /// Whether `self` is strictly smaller than `other`.
    fn less_than(&self, other: &Self) -> (r: bool)
        ensures
            r == self.spec_less(*other),
    ;

    /// The weight of a verse that a mutation adds, from the draw (below 2^31)
    /// that decided to add it.
    fn drawn(draw: u32) -> (r: Self)
        ensures
            r == Self::spec_drawn(draw),
    ;
}

} // verus!
