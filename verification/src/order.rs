//! Orders on times, and what a type needs to serve as a logical time.

use vstd::prelude::*;

verus! {

/// How one value stands to another in a total order.
#[derive(Clone, Copy, Debug, PartialEq, Eq, Structural)]
pub enum Relation {
    /// Strictly earlier.
    Before,
    /// The same value.
    Same,
    /// Strictly later.
    After,
}

/// A total order, by which collections of changes are kept sorted.
pub trait Ordered: Sized + Copy {
    /// Strictly earlier than `other`.
    spec fn before(self, other: Self) -> bool;

    /// No value is earlier than itself.
    proof fn before_irreflexive(a: Self)
        ensures
            !a.before(a),
    ;

    /// Earlier than an earlier value is earlier.
    proof fn before_transitive(a: Self, b: Self, c: Self)
        requires
            a.before(b),
            b.before(c),
        ensures
            a.before(c),
    ;

    /// Two different values are ordered one way or the other.
    proof fn before_total(a: Self, b: Self)
        ensures
            a.before(b) || a == b || b.before(a),
    ;

    /// Decides how `self` stands to `other`.
    fn relate(&self, other: &Self) -> (r: Relation)
        ensures
            match r {
                Relation::Before => self.before(*other),
                Relation::Same => *self == *other,
                Relation::After => other.before(*self),
            },
    ;
}

/// A partial order.
pub trait PartialOrder: Sized + Copy {
    /// Less than or equal to `other`.
    spec fn le(self, other: Self) -> bool;

    /// Every value is below itself.
    proof fn le_reflexive(a: Self)
        ensures
            a.le(a),
    ;

    /// Two values below each other are the same.
    proof fn le_antisymmetric(a: Self, b: Self)
        requires
            a.le(b),
            b.le(a),
        ensures
            a == b,
    ;

    /// Below a value that is below a third is below the third.
    proof fn le_transitive(a: Self, b: Self, c: Self)
        requires
            a.le(b),
            b.le(c),
        ensures
            a.le(c),
    ;

    /// Decides whether `self` is less than or equal to `other`.
    fn less_equal(&self, other: &Self) -> (r: bool)
        ensures
            r == self.le(*other),
    ;
}

/// A logical time: partially ordered, with a least element, and with a total order that
/// agrees with the partial one.
pub trait Timestamp: Ordered + PartialOrder {
    /// What a path through a dataflow does to a time.
    type Summary: PartialOrder;

    /// The least time.
    spec fn least() -> Self;

    /// The summary of a path that leaves times alone.
    spec fn identity() -> Self::Summary;

    /// The least time is below every time.
    proof fn least_is_least(t: Self)
        ensures
            Self::least().le(t),
    ;

    /// The total order extends the partial order.
    proof fn before_extends_le(a: Self, b: Self)
        requires
            a.le(b),
            a != b,
        ensures
            a.before(b),
    ;

    /// The least time.
    fn minimum() -> (r: Self)
        ensures
            r == Self::least(),
    ;

    /// The summary of a path that leaves times alone.
    fn identity_summary() -> (r: Self::Summary)
        ensures
            r == Self::identity(),
    ;
}

/// A time of a nested scope, which refines the time `TOuter` of the scope around it.
pub trait Refines<TOuter: Timestamp>: Timestamp {
    /// The inner time at which an outer time enters the scope.
    spec fn inner_of(outer: TOuter) -> Self;

    /// The outer time at which an inner time leaves the scope.
    spec fn outer_of(self) -> TOuter;

    /// What an inner path does to outer times.
    spec fn summary_of(summary: Self::Summary) -> TOuter::Summary;

    /// The inner time at which an outer time enters the scope.
    fn to_inner(outer: TOuter) -> (r: Self)
        ensures
            r == Self::inner_of(outer),
    ;

    /// The outer time at which an inner time leaves the scope.
    fn to_outer(self) -> (r: TOuter)
        ensures
            r == self.outer_of(),
    ;

    /// What an inner path does to outer times.
    fn summarize(summary: Self::Summary) -> (r: TOuter::Summary)
        ensures
            r == Self::summary_of(summary),
    ;
}

impl Ordered for u64 {
    open spec fn before(self, other: Self) -> bool {
        self < other
    }

    proof fn before_irreflexive(a: Self) {
    }

    proof fn before_transitive(a: Self, b: Self, c: Self) {
    }

    proof fn before_total(a: Self, b: Self) {
    }

    fn relate(&self, other: &Self) -> (r: Relation) {
        if *self < *other {
            Relation::Before
        } else if *self == *other {
            Relation::Same
        } else {
            Relation::After
        }
    }
}

impl PartialOrder for u64 {
    open spec fn le(self, other: Self) -> bool {
        self <= other
    }

    proof fn le_reflexive(a: Self) {
    }

    proof fn le_antisymmetric(a: Self, b: Self) {
    }

    proof fn le_transitive(a: Self, b: Self, c: Self) {
    }

    fn less_equal(&self, other: &Self) -> (r: bool) {
        *self <= *other
    }
}

impl Timestamp for u64 {
    type Summary = u64;

    open spec fn least() -> Self {
        0
    }

    open spec fn identity() -> u64 {
        0
    }

    proof fn least_is_least(t: Self) {
    }

    proof fn before_extends_le(a: Self, b: Self) {
    }

    fn minimum() -> (r: Self) {
        0
    }

    fn identity_summary() -> (r: u64) {
        0
    }
}

impl Refines<u64> for u64 {
    open spec fn inner_of(outer: u64) -> Self {
        outer
    }

    open spec fn outer_of(self) -> u64 {
        self
    }

    open spec fn summary_of(summary: u64) -> u64 {
        summary
    }

    fn to_inner(outer: u64) -> (r: Self) {
        outer
    }

    fn to_outer(self) -> (r: u64) {
        self
    }

    fn summarize(summary: u64) -> (r: u64) {
        summary
    }
}

/// Numbers as times: they are ordered as numbers are, the least is zero, to add nothing changes no
/// time, and a time inside a scope is the time outside.
pub proof fn law_numbers_as_times(a: u64, b: u64)
    ensures
        a.before(b) <==> a < b,
        a.le(b) <==> a <= b,
        <u64 as Timestamp>::least() == 0,
        <u64 as Timestamp>::identity() == 0,
        <u64 as Refines<u64>>::inner_of(a) == a,
        <u64 as Refines<u64>>::outer_of(a) == a,
        <u64 as Refines<u64>>::summary_of(a) == a,
{
}

} // verus!
