//! Places in a dataflow graph.

use vstd::prelude::*;

use crate::order::{Ordered, Relation};

verus! {

/// An output port of a node.
#[derive(Clone, Copy, Debug, PartialEq, Eq, Structural)]
pub struct Source {
    /// Index of the node within its scope.
    pub node: usize,
    /// Index of the output port.
    pub port: usize,
}

/// An input port of a node.
#[derive(Clone, Copy, Debug, PartialEq, Eq, Structural)]
pub struct Target {
    /// Index of the node within its scope.
    pub node: usize,
    /// Index of the input port.
    pub port: usize,
}

/// An input or output port.
#[derive(Clone, Copy, Debug, PartialEq, Eq, Structural)]
pub enum Port {
    /// An input port.
    Target(usize),
    /// An output port.
    Source(usize),
}

/// A node and one of its ports.
#[derive(Clone, Copy, Debug, PartialEq, Eq, Structural)]
pub struct Location {
    /// Index of the node within its scope.
    pub node: usize,
    /// The port.
    pub port: Port,
}

impl Source {
    /// Output `port` of `node`.
    pub fn new(node: usize, port: usize) -> (r: Source)
        ensures
            r == (Source { node, port }),
    {
        Source { node, port }
    }
}

impl Target {
    /// Input `port` of `node`.
    pub fn new(node: usize, port: usize) -> (r: Target)
        ensures
            r == (Target { node, port }),
    {
        Target { node, port }
    }
}

/// The location of output `port` of `node`.
pub open spec fn at_source(node: usize, port: usize) -> Location {
    Location { node, port: Port::Source(port) }
}

/// The location of input `port` of `node`.
pub open spec fn at_target(node: usize, port: usize) -> Location {
    Location { node, port: Port::Target(port) }
}

impl Location {
    /// The location of output `port` of `node`.
    pub fn new_source(node: usize, port: usize) -> (r: Location)
        ensures
            r == at_source(node, port),
    {
        Location { node, port: Port::Source(port) }
    }

    /// The location of input `port` of `node`.
    pub fn new_target(node: usize, port: usize) -> (r: Location)
        ensures
            r == at_target(node, port),
    {
        Location { node, port: Port::Target(port) }
    }
}

/// A number that places inputs before outputs, and ports of a kind by index.
pub open spec fn port_rank(port: Port) -> (int, int) {
    match port {
        Port::Target(i) => (0, i as int),
        Port::Source(i) => (1, i as int),
    }
}

impl Ordered for Location {
    /// By node, then inputs before outputs, then by port.
    open spec fn before(self, other: Self) -> bool {
        self.node < other.node || (self.node == other.node && (port_rank(self.port).0 < port_rank(
            other.port,
        ).0 || (port_rank(self.port).0 == port_rank(other.port).0 && port_rank(self.port).1
            < port_rank(other.port).1)))
    }

    proof fn before_irreflexive(a: Self) {
    }

    proof fn before_transitive(a: Self, b: Self, c: Self) {
    }

    proof fn before_total(a: Self, b: Self) {
    }

    fn relate(&self, other: &Self) -> (r: Relation) {
        if self.node < other.node {
            return Relation::Before;
        }
        if self.node > other.node {
            return Relation::After;
        }
        match (self.port, other.port) {
            (Port::Target(i), Port::Target(j)) => relate_index(i, j),
            (Port::Target(_), Port::Source(_)) => Relation::Before,
            (Port::Source(_), Port::Target(_)) => Relation::After,
            (Port::Source(i), Port::Source(j)) => relate_index(i, j),
        }
    }
}

/// How one index stands to another.
fn relate_index(i: usize, j: usize) -> (r: Relation)
    ensures
        r == (if i < j {
            Relation::Before
        } else if i == j {
            Relation::Same
        } else {
            Relation::After
        }),
{
    if i < j {
        Relation::Before
    } else if i == j {
        Relation::Same
    } else {
        Relation::After
    }
}

/// A time at a place: where an event may still happen, and when.
#[derive(Copy, Debug, PartialEq, Eq)]
pub struct Pointstamp<T> {
    /// The place.
    pub location: Location,
    /// The time.
    pub time: T,
}

impl<T: Copy> Clone for Pointstamp<T> {
    fn clone(&self) -> (r: Self)
        ensures
            r == *self,
    {
        *self
    }
}

impl<T: Ordered> Ordered for Pointstamp<T> {
    /// By location, then by time.
    open spec fn before(self, other: Self) -> bool {
        self.location.before(other.location) || (self.location == other.location
            && self.time.before(other.time))
    }

    proof fn before_irreflexive(a: Self) {
        T::before_irreflexive(a.time);
    }

    proof fn before_transitive(a: Self, b: Self, c: Self) {
        if a.location == b.location && b.location == c.location {
            T::before_transitive(a.time, b.time, c.time);
        }
    }

    proof fn before_total(a: Self, b: Self) {
        T::before_total(a.time, b.time);
    }

    fn relate(&self, other: &Self) -> (r: Relation) {
        match self.location.relate(&other.location) {
            Relation::Before => Relation::Before,
            Relation::After => Relation::After,
            Relation::Same => self.time.relate(&other.time),
        }
    }
}

/// Places are ordered by node; at a node, inputs come before outputs; and ports of a kind by number.
pub proof fn law_places_ordered(a: Location, b: Location, i: usize, j: usize)
    ensures
        a.node < b.node ==> a.before(b),
        a.node == b.node && a.port == Port::Target(i) && b.port == Port::Source(j) ==> a.before(b),
        a.node == b.node && a.port == Port::Target(i) && b.port == Port::Target(j) ==> (a.before(b)
            <==> i < j),
        a.node == b.node && a.port == Port::Source(i) && b.port == Port::Source(j) ==> (a.before(b)
            <==> i < j),
        a.before(b) ==> !b.before(a),
{
}

/// Events are ordered by place, and at one place by time.
pub proof fn law_events_ordered<T: Ordered>(a: Pointstamp<T>, b: Pointstamp<T>)
    ensures
        a.location.before(b.location) ==> a.before(b),
        a.location == b.location ==> (a.before(b) <==> a.time.before(b.time)),
{
}

/// A location names a node, and one of its inputs or outputs.
pub proof fn law_locations(node: usize, port: usize)
    ensures
        at_source(node, port) == (Location { node, port: Port::Source(port) }),
        at_target(node, port) == (Location { node, port: Port::Target(port) }),
{
}

} // verus!
