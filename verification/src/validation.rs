//! Tests of what a scope takes for granted, for callers that put it together from parts they do
//! not know.

use std::collections::HashMap;

use vstd::prelude::*;

use crate::assembly::sanely_indexed;
use crate::location::{Location, Pointstamp, Port, Source, Target};
use crate::order::{Refines, Timestamp};
use crate::per_operator::{has_nodes, PerOperatorState};
use crate::ports::{at_ports, edges_ok, port_ok, routes_ok, targets_ok};
use crate::shared_progress::SharedProgress;
use crate::statements::route_targets;
use crate::subgraph::{count_set, Subgraph};
use crate::subgraph_builder::{entry_source, key_order, SubgraphBuilder};

verus! {

broadcast use vstd::std_specs::hash::group_hash_axioms;

/// Whether the children have the indexes below their number, each one of them.
fn check_indexes<T: Timestamp>(children: &Vec<PerOperatorState<T>>) -> (r: bool)
    ensures
        r == sanely_indexed(children@),
{
    let mut i: usize = 0;
    while i < children.len()
        invariant
            i <= children@.len(),
            forall|k: int| 0 <= k < i ==> (#[trigger] children@[k]).index < children@.len(),
            forall|j: int, k: int|
                0 <= j < k < i ==> (#[trigger] children@[j]).index != (
                #[trigger] children@[k]).index,
        decreases children@.len() - i,
    {
        if children[i].index >= children.len() {
            return false;
        }
        let mut j: usize = 0;
        while j < i
            invariant
                j <= i < children@.len(),
                forall|k: int|
                    0 <= k < j ==> (#[trigger] children@[k]).index != children@[i as int].index,
            decreases i - j,
        {
            if children[j].index == children[i].index {
                return false;
            }
            j += 1;
        }
        i += 1;
    }
    true
}

/// Whether each child has as many lists of edges as outputs.
fn check_edge_lists<T: Timestamp>(children: &Vec<PerOperatorState<T>>) -> (r: bool)
    ensures
        r == (forall|k: int|
            0 <= k < children@.len() ==> {
                &&& (#[trigger] children@[k]).edges@.len() == children@[k].outputs
                &&& children@[k].ghost_edges@.len() == children@[k].outputs
            }),
{
    let mut i: usize = 0;
    while i < children.len()
        invariant
            i <= children@.len(),
            forall|k: int|
                0 <= k < i ==> {
                    &&& (#[trigger] children@[k]).edges@.len() == children@[k].outputs
                    &&& children@[k].ghost_edges@.len() == children@[k].outputs
                },
        decreases children@.len() - i,
    {
        let outputs: usize = children[i].outputs;
        if children[i].edges.len() != outputs || children[i].ghost_edges.len() != outputs {
            assert(!({
                &&& children@[i as int].edges@.len() == children@[i as int].outputs
                &&& children@[i as int].ghost_edges@.len() == children@[i as int].outputs
            }));
            return false;
        }
        i += 1;
    }
    true
}

/// Whether each of `edges` ends inside a scope, or at its first output.
fn check_edges(edges: &Vec<(usize, usize)>, outputs: usize) -> (r: bool)
    ensures
        r == edges_ok(edges@, outputs as nat),
{
    let mut i: usize = 0;
    while i < edges.len()
        invariant
            i <= edges@.len(),
            forall|k: int| 0 <= k < i && (#[trigger] edges@[k]).1 == 0 ==> 0 < outputs,
        decreases edges@.len() - i,
    {
        if edges[i].1 == 0 && outputs == 0 {
            assert(edges@[i as int].1 == 0);
            return false;
        }
        i += 1;
    }
    true
}

/// Whether each of `targets` is inside a scope, or at one of its outputs.
fn check_targets(targets: &Vec<Target>, outputs: usize) -> (r: bool)
    ensures
        r == targets_ok(targets@, outputs as nat),
{
    let mut i: usize = 0;
    while i < targets.len()
        invariant
            i <= targets@.len(),
            forall|k: int|
                0 <= k < i && (#[trigger] targets@[k]).node == 0 ==> targets@[k].port < outputs,
        decreases targets@.len() - i,
    {
        if targets[i].node == 0 && targets[i].port >= outputs {
            assert(targets@[i as int].node == 0);
            return false;
        }
        i += 1;
    }
    true
}

/// Whether the targets of each of `routes` are inside a scope, or at one of its outputs.
fn check_routes(routes: &Vec<Vec<Target>>, outputs: usize) -> (r: bool)
    ensures
        r == routes_ok(route_targets(routes@), outputs as nat),
{
    let ghost all = route_targets(routes@);
    let mut i: usize = 0;
    while i < routes.len()
        invariant
            i <= routes@.len(),
            all == route_targets(routes@),
            forall|k: int| 0 <= k < i ==> targets_ok(#[trigger] all[k], outputs as nat),
        decreases routes@.len() - i,
    {
        assert(all[i as int] == routes@[i as int]@);
        if !check_targets(&routes[i], outputs) {
            assert(!targets_ok(all[i as int], outputs as nat));
            return false;
        }
        i += 1;
    }
    true
}

/// Whether `location` is inside a scope, or at one of its inputs or outputs.
pub fn check_port(location: &Location, inputs: usize, outputs: usize) -> (r: bool)
    ensures
        r == port_ok(*location, inputs as nat, outputs as nat),
{
    if location.node != 0 {
        return true;
    }
    match location.port {
        Port::Source(i) => i < inputs,
        Port::Target(o) => o < outputs,
    }
}

/// Whether each of `changes` is inside a scope, or at one of its inputs or outputs.
pub fn check_ports<T: Timestamp>(
    changes: &Vec<(Pointstamp<T>, i64)>,
    inputs: usize,
    outputs: usize,
) -> (r: bool)
    ensures
        r == at_ports(changes@, inputs as nat, outputs as nat),
{
    let mut i: usize = 0;
    while i < changes.len()
        invariant
            i <= changes@.len(),
            forall|k: int|
                0 <= k < i ==> port_ok(
                    (#[trigger] changes@[k]).0.location,
                    inputs as nat,
                    outputs as nat,
                ),
        decreases changes@.len() - i,
    {
        if !check_port(&changes[i].0.location, inputs, outputs) {
            assert(!port_ok(changes@[i as int].0.location, inputs as nat, outputs as nat));
            return false;
        }
        i += 1;
    }
    true
}

/// Whether progress information has places for the reports of each of `ghosts`.
fn check_nodes<T: Timestamp>(progress: &SharedProgress<T>, ghosts: &Vec<usize>) -> (r: bool)
    ensures
        r == has_nodes(progress@, ghosts@),
{
    let mut i: usize = 0;
    while i < ghosts.len()
        invariant
            i <= ghosts@.len(),
            forall|k: int|
                0 <= k < i ==> {
                    &&& progress@.wrapper_consumeds.contains_key(#[trigger] ghosts@[k])
                    &&& progress@.wrapper_internals.contains_key(ghosts@[k])
                    &&& progress@.wrapper_produceds.contains_key(ghosts@[k])
                },
        decreases ghosts@.len() - i,
    {
        let g: usize = ghosts[i];
        if !(progress.wrapper_consumeds.contains_key(&g) && progress.wrapper_internals.contains_key(
            &g,
        ) && progress.wrapper_produceds.contains_key(&g)) {
            assert(!({
                &&& progress@.wrapper_consumeds.contains_key(ghosts@[i as int])
                &&& progress@.wrapper_internals.contains_key(ghosts@[i as int])
                &&& progress@.wrapper_produceds.contains_key(ghosts@[i as int])
            }));
            return false;
        }
        i += 1;
    }
    true
}

/// Whether a child fits its place in a scope: it has this index, its edges and progress
/// information fit its ports, there are places for the device-side nodes that it stands for, and
/// its edges end inside the scope or at one of its outputs.
pub open spec fn child_ok<T: Timestamp>(
    child: PerOperatorState<T>,
    index: int,
    wrapper_ghost: Map<usize, Vec<usize>>,
    outputs: nat,
) -> bool {
    &&& child.wf()
    &&& child.index == index
    &&& has_nodes(child.shared_progress@, child.ghosts(wrapper_ghost))
    &&& routes_ok(route_targets(child.ghost_edges@), outputs)
}

/// Whether a child fits its place in a scope.
fn check_child<T: Timestamp>(
    child: &PerOperatorState<T>,
    index: usize,
    wrapper_ghost: &HashMap<usize, Vec<usize>>,
    outputs: usize,
) -> (r: bool)
    ensures
        r == child_ok(*child, index as int, wrapper_ghost@, outputs as nat),
{
    let progress = &child.shared_progress;
    if child.index != index || child.edges.len() != child.outputs || child.ghost_edges.len()
        != child.outputs || progress.frontiers.len() != child.inputs || progress.consumeds.len()
        != child.inputs || progress.internals.len() != child.outputs || progress.produceds.len()
        != child.outputs {
        return false;
    }
    if !check_routes(&child.ghost_edges, outputs) {
        return false;
    }
    if child.sees_ghosts {
        if let Some(ghosts) = wrapper_ghost.get(&child.index) {
            return check_nodes(progress, ghosts);
        }
    }
    true
}

impl<TOuter: Timestamp, TInner: Refines<TOuter>> SubgraphBuilder<TOuter, TInner> {
    /// Whether `source` is an input of the scope or an output of one of its operators.
    fn check_source(&self, source: Source) -> (r: bool)
        ensures
            r == self.source_ok(source),
    {
        if source.node >= self.children.len() {
            return false;
        }
        if source.node == 0 {
            return source.port < self.input_messages.len();
        }
        let mut i: usize = 0;
        while i < self.children.len()
            invariant
                i <= self.children@.len(),
                source.node != 0,
                forall|k: int|
                    0 <= k < i && (#[trigger] self.children@[k]).index == source.node
                        ==> source.port < self.children@[k].outputs,
            decreases self.children@.len() - i,
        {
            if self.children[i].index == source.node && source.port >= self.children[i].outputs {
                assert(self.children@[i as int].index == source.node);
                return false;
            }
            i += 1;
        }
        true
    }

    /// Whether each of `edges` starts at an input of the scope or an output of an operator.
    fn check_sources(&self, edges: &Vec<(Source, Target)>) -> (r: bool)
        ensures
            r == (forall|k: int|
                0 <= k < edges@.len() ==> self.source_ok((#[trigger] edges@[k]).0)),
    {
        let mut i: usize = 0;
        while i < edges.len()
            invariant
                i <= edges@.len(),
                forall|k: int| 0 <= k < i ==> self.source_ok((#[trigger] edges@[k]).0),
            decreases edges@.len() - i,
        {
            if !self.check_source(edges[i].0) {
                assert(!self.source_ok(edges@[i as int].0));
                return false;
            }
            i += 1;
        }
        true
    }

    /// Where messages for device-side nodes come from.
    fn find_entry(&self) -> (r: Source)
        ensures
            r == self.entry(),
    {
        let ghost edges = self.edge_stash@;
        let mut entry = Source::new(0, 0);
        let mut i: usize = 0;
        assert(edges.take(0) =~= Seq::<(Source, Target)>::empty());
        while i < self.edge_stash.len()
            invariant
                i <= edges.len(),
                edges == self.edge_stash@,
                entry == entry_source(edges.take(i as int), self.wrappers()),
            decreases edges.len() - i,
        {
            assert(edges.take(i + 1).drop_last() =~= edges.take(i as int));
            assert(edges.take(i + 1).last() == edges[i as int]);
            if self.wrapper_ghost.contains_key(&self.edge_stash[i].1.node) {
                entry = self.edge_stash[i].0;
            }
            i += 1;
        }
        assert(edges.take(i as int) =~= edges);
        entry
    }

    /// Whether the operator `w` stands for at least one device-side node, and edges between its
    /// nodes are known and start at outputs that are there.
    pub open spec fn wrapper_ok(&self, w: usize) -> bool {
        &&& self.wrapper_ghost_edges@.contains_key(w)
        &&& self.wrapper_ghost@[w]@.len() > 0
        &&& self.source_ok(self.entry())
        &&& self.source_ok(Source { node: self.wrapper_ghost@[w]@.last(), port: 0 })
        &&& forall|k: int|
            0 <= k < self.wrapper_ghost_edges@[w]@.len() ==> self.source_ok(
                Source { node: (#[trigger] self.wrapper_ghost_edges@[w]@[k]).0, port: 0 },
            )
    }

    /// Whether the operator `w` stands for at least one device-side node, and edges between its
    /// nodes are known and start at outputs that are there.
    fn check_wrapper(&self, w: usize) -> (r: bool)
        requires
            self.wrapper_ghost@.contains_key(w),
        ensures
            r == self.wrapper_ok(w),
    {
        let ghosts = match self.wrapper_ghost.get(&w) {
            Some(ghosts) => ghosts,
            None => {
                return false;
            },
        };
        let edges = match self.wrapper_ghost_edges.get(&w) {
            Some(edges) => edges,
            None => {
                return false;
            },
        };
        if ghosts.len() == 0 {
            return false;
        }
        if !self.check_source(self.find_entry()) {
            return false;
        }
        if !self.check_source(Source::new(ghosts[ghosts.len() - 1], 0)) {
            return false;
        }
        let mut i: usize = 0;
        while i < edges.len()
            invariant
                i <= edges@.len(),
                self.wrapper_ghost_edges@.contains_key(w),
                edges@ == self.wrapper_ghost_edges@[w]@,
                forall|k: int|
                    0 <= k < i ==> self.source_ok(
                        Source { node: (#[trigger] edges@[k]).0, port: 0 },
                    ),
            decreases edges@.len() - i,
        {
            if !self.check_source(Source::new(edges[i].0, 0)) {
                assert(!self.source_ok(
                    Source { node: self.wrapper_ghost_edges@[w]@[i as int].0, port: 0 },
                ));
                return false;
            }
            i += 1;
        }
        true
    }

    /// Whether the scope can be put to work.
    pub fn check_buildable(&self) -> (r: bool)
        ensures
            r == self.buildable(),
    {
        if self.children.len() < 1 || self.child_count < 1 {
            return false;
        }
        if !check_edge_lists(&self.children) || !check_indexes(&self.children) {
            return false;
        }
        if !self.check_sources(&self.edge_stash) || !self.check_sources(&self.ghost_edge_stash) {
            return false;
        }
        let order = self.wrapper_order();
        let mut i: usize = 0;
        while i < order.len()
            invariant
                i <= order@.len(),
                order@.to_set() == self.wrappers(),
                forall|k: int| 0 <= k < i ==> self.wrapper_ok(#[trigger] order@[k]),
            decreases order@.len() - i,
        {
            let w: usize = order[i];
            assert(order@.contains(w));
            assert(self.wrappers().contains(w));
            if !self.check_wrapper(w) {
                assert(!self.wrapper_ok(w));
                assert(!self.buildable());
                return false;
            }
            i += 1;
        }
        proof {
            assert forall|w: usize| #[trigger]
                self.wrapper_ghost@.contains_key(w) implies self.wrapper_ok(w) by {
                assert(self.wrappers().contains(w));
                assert(order@.contains(w));
                let k = order@.index_of(w);
                assert(self.wrapper_ok(order@[k]));
            }
        }
        true
    }
}

impl<TOuter: Timestamp, TInner: Refines<TOuter>> Subgraph<TOuter, TInner> {
    /// Whether what is known of the device-side nodes of the operator `w` fits the scope.
    pub open spec fn wrapper_ok(&self, w: usize) -> bool {
        &&& self.wrapper_ghost_edges@.contains_key(w)
        &&& edges_ok(self.wrapper_ghost_edges@[w]@, self.outputs as nat)
        &&& forall|k: int|
            0 <= k < self.wrapper_ghost@[w]@.len() ==> #[trigger] self.wrapper_ghost@[w]@[k] != 0
    }

    /// Whether what is known of the device-side nodes of the operator `w` fits the scope.
    fn check_wrapper(&self, w: usize) -> (r: bool)
        requires
            self.wrapper_ghost@.contains_key(w),
        ensures
            r == self.wrapper_ok(w),
    {
        let ghosts = match self.wrapper_ghost.get(&w) {
            Some(ghosts) => ghosts,
            None => {
                return false;
            },
        };
        let edges = match self.wrapper_ghost_edges.get(&w) {
            Some(edges) => edges,
            None => {
                return false;
            },
        };
        if !check_edges(edges, self.outputs) {
            return false;
        }
        let mut i: usize = 0;
        while i < ghosts.len()
            invariant
                i <= ghosts@.len(),
                ghosts@ == self.wrapper_ghost@[w]@,
                forall|k: int| 0 <= k < i ==> #[trigger] ghosts@[k] != 0,
            decreases ghosts@.len() - i,
        {
            if ghosts[i] == 0 {
                assert(self.wrapper_ghost@[w]@[i as int] == 0);
                return false;
            }
            i += 1;
        }
        true
    }

    /// Whether the parts of the scope fit together.
    pub fn check(&self) -> (r: bool)
        ensures
            r == self.wf(),
    {
        if self.children.len() < 1 || self.incomplete.len() != self.children.len()
            || self.incomplete_count != count_set(&self.incomplete) {
            return false;
        }
        if self.children[0].outputs != self.inputs || self.children[0].inputs != self.outputs
            || self.input_messages.len() != self.inputs || self.output_capabilities.len()
            != self.outputs {
            return false;
        }
        let progress = &self.shared_progress;
        if progress.frontiers.len() != self.inputs || progress.consumeds.len() != self.inputs
            || progress.internals.len() != self.outputs || progress.produceds.len()
            != self.outputs {
            return false;
        }
        if !check_ports(self.local_pointstamp.entries(), self.inputs, self.outputs)
            || !check_ports(self.final_pointstamp.entries(), self.inputs, self.outputs) {
            return false;
        }
        let mut i: usize = 0;
        while i < self.children.len()
            invariant
                i <= self.children@.len(),
                forall|k: int|
                    0 <= k < i ==> child_ok(
                        #[trigger] self.children@[k],
                        k,
                        self.wrapper_ghost@,
                        self.outputs as nat,
                    ),
            decreases self.children@.len() - i,
        {
            if !check_child(&self.children[i], i, &self.wrapper_ghost, self.outputs) {
                assert(!child_ok(
                    self.children@[i as int],
                    i as int,
                    self.wrapper_ghost@,
                    self.outputs as nat,
                ));
                assert(!self.wf());
                return false;
            }
            i += 1;
        }
        let order = key_order(&self.wrapper_ghost);
        let mut j: usize = 0;
        while j < order.len()
            invariant
                j <= order@.len(),
                order@.to_set() == self.wrapper_ghost@.dom(),
                forall|k: int| 0 <= k < j ==> self.wrapper_ok(#[trigger] order@[k]),
            decreases order@.len() - j,
        {
            let w: usize = order[j];
            assert(order@.contains(w));
            assert(self.wrapper_ghost@.dom().contains(w));
            if !self.check_wrapper(w) {
                assert(!self.wrapper_ok(w));
                assert(self.wrapper_ghost@.contains_key(w));
                assert(!self.wf());
                return false;
            }
            j += 1;
        }
        proof {
            assert forall|w: usize| #[trigger]
                self.wrapper_ghost@.contains_key(w) implies self.wrapper_ok(w) by {
                assert(self.wrapper_ghost@.dom().contains(w));
                assert(order@.contains(w));
                let k = order@.index_of(w);
                assert(self.wrapper_ok(order@[k]));
            }
        }
        true
    }
}

} // verus!
