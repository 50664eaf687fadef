//! Changes at the outside of a scope stay at ports that the scope has.

use vstd::prelude::*;

use crate::change_batch::{extended, holds, slot, updated};
use crate::location::{at_target, Location, Pointstamp, Port, Target};
use crate::order::Ordered;
use crate::per_operator::{
    ghost_statements, node_statements, own_statements, same_routes, successors, without_node,
};
use crate::shared_progress::ProgressContents;
use crate::statements::{
    consumed_from, fan_out, internal_from, produced_at, produced_from, stamped, stamped_negated,
};

verus! {

/// Whether `location` is inside a scope, or at one of its inputs or outputs. Child zero has
/// the inputs of the scope as outputs, and the outputs of the scope as inputs.
pub open spec fn port_ok(location: Location, inputs: nat, outputs: nat) -> bool {
    location.node == 0 ==> match location.port {
        Port::Source(i) => i < inputs,
        Port::Target(o) => o < outputs,
    }
}

/// Whether each of `changes` is inside a scope, or at one of its inputs or outputs.
pub open spec fn at_ports<T>(
    changes: Seq<(Pointstamp<T>, i64)>,
    inputs: nat,
    outputs: nat,
) -> bool {
    forall|k: int|
        0 <= k < changes.len() ==> port_ok((#[trigger] changes[k]).0.location, inputs, outputs)
}

/// Whether each of `targets` is inside a scope, or at one of its outputs.
pub open spec fn targets_ok(targets: Seq<Target>, outputs: nat) -> bool {
    forall|k: int|
        0 <= k < targets.len() && (#[trigger] targets[k]).node == 0 ==> targets[k].port < outputs
}

/// Whether the targets of each of `routes` are inside a scope, or at one of its outputs.
pub open spec fn routes_ok(routes: Seq<Seq<Target>>, outputs: nat) -> bool {
    forall|k: int| 0 <= k < routes.len() ==> targets_ok(#[trigger] routes[k], outputs)
}

/// Whether each of `edges` ends inside a scope, or at its first output.
pub open spec fn edges_ok(edges: Seq<(usize, usize)>, outputs: nat) -> bool {
    forall|k: int| 0 <= k < edges.len() && (#[trigger] edges[k]).1 == 0 ==> 0 < outputs
}

/// A change more.
pub proof fn lemma_ports_updated<T: Ordered>(
    s: Seq<(Pointstamp<T>, i64)>,
    stamp: Pointstamp<T>,
    delta: i64,
    inputs: nat,
    outputs: nat,
)
    requires
        at_ports(s, inputs, outputs),
        port_ok(stamp.location, inputs, outputs),
    ensures
        at_ports(updated(s, stamp, delta), inputs, outputs),
{
    let r = updated(s, stamp, delta);
    let p = slot(s, stamp) as int;
    crate::change_batch::lemma_slot_splits(s, stamp);
    assert forall|k: int| 0 <= k < r.len() implies port_ok(
        (#[trigger] r[k]).0.location,
        inputs,
        outputs,
    ) by {
        if r[k].0 != stamp {
            if holds(s, stamp) {
                assert(r[k] == s[k] || r[k] == s[k + 1]);
            } else {
                assert(r[k] == s[k] || r[k] == s[k - 1]);
            }
        }
    }
}

/// More changes.
pub proof fn lemma_ports_extended<T: Ordered>(
    s: Seq<(Pointstamp<T>, i64)>,
    changes: Seq<(Pointstamp<T>, i64)>,
    inputs: nat,
    outputs: nat,
)
    requires
        at_ports(s, inputs, outputs),
        at_ports(changes, inputs, outputs),
    ensures
        at_ports(extended(s, changes), inputs, outputs),
    decreases changes.len(),
{
    if changes.len() > 0 {
        lemma_ports_updated(s, changes[0].0, changes[0].1, inputs, outputs);
        let rest = changes.drop_first();
        assert forall|k: int| 0 <= k < rest.len() implies port_ok(
            (#[trigger] rest[k]).0.location,
            inputs,
            outputs,
        ) by {
            assert(rest[k] == changes[k + 1]);
        }
        lemma_ports_extended(updated(s, changes[0].0, changes[0].1), rest, inputs, outputs);
    }
}

proof fn lemma_ports_join<T>(
    a: Seq<(Pointstamp<T>, i64)>,
    b: Seq<(Pointstamp<T>, i64)>,
    inputs: nat,
    outputs: nat,
)
    requires
        at_ports(a, inputs, outputs),
        at_ports(b, inputs, outputs),
    ensures
        at_ports(a + b, inputs, outputs),
{
    assert forall|k: int| 0 <= k < (a + b).len() implies port_ok(
        (#[trigger] (a + b)[k]).0.location,
        inputs,
        outputs,
    ) by {
        if k < a.len() {
            assert((a + b)[k] == a[k]);
        } else {
            assert((a + b)[k] == b[k - a.len()]);
        }
    }
}

proof fn lemma_ports_consumed<T>(
    node: usize,
    batches: Seq<Seq<(T, i64)>>,
    port: nat,
    inputs: nat,
    outputs: nat,
)
    requires
        node != 0 || batches.len() <= outputs,
        batches.len() <= usize::MAX,
    ensures
        at_ports(consumed_from(node, batches, port), inputs, outputs),
    decreases batches.len() - port,
{
    if port < batches.len() {
        lemma_ports_consumed(node, batches, port + 1, inputs, outputs);
        lemma_ports_join(
            stamped_negated(at_target(node, port as usize), batches[port as int]),
            consumed_from(node, batches, port + 1),
            inputs,
            outputs,
        );
    }
}

proof fn lemma_ports_internal<T>(
    node: usize,
    batches: Seq<Seq<(T, i64)>>,
    port: nat,
    inputs: nat,
    outputs: nat,
)
    requires
        node != 0 || batches.len() <= inputs,
        batches.len() <= usize::MAX,
    ensures
        at_ports(internal_from(node, batches, port), inputs, outputs),
    decreases batches.len() - port,
{
    if port < batches.len() {
        lemma_ports_internal(node, batches, port + 1, inputs, outputs);
        lemma_ports_join(
            stamped(crate::location::at_source(node, port as usize), batches[port as int]),
            internal_from(node, batches, port + 1),
            inputs,
            outputs,
        );
    }
}

/// A message at each of a list of targets.
pub proof fn lemma_ports_fan_out<T>(
    targets: Seq<Target>,
    time: T,
    delta: i64,
    inputs: nat,
    outputs: nat,
)
    requires
        targets_ok(targets, outputs),
    ensures
        at_ports(fan_out(targets, time, delta), inputs, outputs),
{
    let r = fan_out(targets, time, delta);
    assert forall|k: int| 0 <= k < r.len() implies port_ok(
        (#[trigger] r[k]).0.location,
        inputs,
        outputs,
    ) by {
        assert(r[k].0.location == at_target(targets[k].node, targets[k].port));
    }
}

proof fn lemma_ports_produced_at<T>(
    targets: Seq<Target>,
    changes: Seq<(T, i64)>,
    inputs: nat,
    outputs: nat,
)
    requires
        targets_ok(targets, outputs),
    ensures
        at_ports(produced_at(targets, changes), inputs, outputs),
    decreases changes.len(),
{
    if changes.len() > 0 {
        lemma_ports_fan_out(targets, changes[0].0, changes[0].1, inputs, outputs);
        lemma_ports_produced_at(targets, changes.drop_first(), inputs, outputs);
        lemma_ports_join(
            fan_out(targets, changes[0].0, changes[0].1),
            produced_at(targets, changes.drop_first()),
            inputs,
            outputs,
        );
    }
}

proof fn lemma_ports_produced<T>(
    routes: Seq<Seq<Target>>,
    batches: Seq<Seq<(T, i64)>>,
    port: nat,
    inputs: nat,
    outputs: nat,
)
    requires
        routes_ok(routes, outputs),
        batches.len() <= routes.len(),
    ensures
        at_ports(produced_from(routes, batches, port), inputs, outputs),
    decreases batches.len() - port,
{
    if port < batches.len() {
        lemma_ports_produced(routes, batches, port + 1, inputs, outputs);
        lemma_ports_produced_at(routes[port as int], batches[port as int], inputs, outputs);
        lemma_ports_join(
            produced_at(routes[port as int], batches[port as int]),
            produced_from(routes, batches, port + 1),
            inputs,
            outputs,
        );
    }
}

proof fn lemma_successors_ok(edges: Seq<(usize, usize)>, g: usize, outputs: nat)
    requires
        edges_ok(edges, outputs),
    ensures
        targets_ok(successors(edges, g), outputs),
    decreases edges.len(),
{
    if edges.len() > 0 {
        let rest = edges.drop_last();
        assert forall|k: int|
            0 <= k < rest.len() && (#[trigger] rest[k]).1 == 0 implies 0 < outputs by {
            assert(edges[k] == rest[k]);
        }
        lemma_successors_ok(rest, g, outputs);
        assert(edges[edges.len() - 1] == edges.last());
    }
}

/// Whether the batches of each device-side node are no more than can be counted.
pub open spec fn countable<T>(p: ProgressContents<T>, ghosts: Seq<usize>) -> bool {
    forall|i: int|
        0 <= i < ghosts.len() ==> {
            &&& p.wrapper_consumeds[#[trigger] ghosts[i]].len() <= usize::MAX
            &&& p.wrapper_internals[ghosts[i]].len() <= usize::MAX
            &&& p.wrapper_produceds[ghosts[i]].len() <= usize::MAX
        }
}

/// Reports of device-side nodes.
pub proof fn lemma_ports_ghosts<T>(
    p: ProgressContents<T>,
    ghosts: Seq<usize>,
    edges: Seq<(usize, usize)>,
    inputs: nat,
    outputs: nat,
)
    requires
        forall|i: int| 0 <= i < ghosts.len() ==> #[trigger] ghosts[i] != 0,
        countable(p, ghosts),
        edges_ok(edges, outputs),
    ensures
        at_ports(ghost_statements(p, ghosts, edges), inputs, outputs),
    decreases ghosts.len(),
{
    if ghosts.len() > 0 {
        let g = ghosts[0];
        let rest = ghosts.drop_first();
        let q = without_node(p, g);
        assert forall|i: int| 0 <= i < rest.len() implies {
            &&& #[trigger] rest[i] != 0
            &&& q.wrapper_consumeds[rest[i]].len() <= usize::MAX
            &&& q.wrapper_internals[rest[i]].len() <= usize::MAX
            &&& q.wrapper_produceds[rest[i]].len() <= usize::MAX
        } by {
            assert(rest[i] == ghosts[i + 1]);
        }
        lemma_ports_ghosts(q, rest, edges, inputs, outputs);
        lemma_successors_ok(edges, g, outputs);
        let routes = same_routes(successors(edges, g), p.wrapper_produceds[g].len());
        let consumed = consumed_from(g, p.wrapper_consumeds[g], 0);
        let internal = internal_from(g, p.wrapper_internals[g], 0);
        let produced = produced_from(routes, p.wrapper_produceds[g], 0);
        lemma_ports_consumed(g, p.wrapper_consumeds[g], 0, inputs, outputs);
        lemma_ports_internal(g, p.wrapper_internals[g], 0, inputs, outputs);
        lemma_ports_produced(routes, p.wrapper_produceds[g], 0, inputs, outputs);
        lemma_ports_join(consumed, internal, inputs, outputs);
        lemma_ports_join(consumed + internal, produced, inputs, outputs);
        lemma_ports_join(
            node_statements(p, g, edges),
            ghost_statements(q, rest, edges),
            inputs,
            outputs,
        );
    }
}

/// Reports of an operator and the device-side nodes that it stands for.
pub proof fn lemma_ports_statements<T>(
    p: ProgressContents<T>,
    ghosts: Seq<usize>,
    edges: Seq<(usize, usize)>,
    index: usize,
    counted: Seq<Seq<Target>>,
    inputs: nat,
    outputs: nat,
)
    requires
        forall|i: int| 0 <= i < ghosts.len() ==> #[trigger] ghosts[i] != 0,
        countable(p, ghosts),
        edges_ok(edges, outputs),
        routes_ok(counted, outputs),
        p.produceds.len() <= counted.len(),
        p.consumeds.len() <= usize::MAX,
        p.internals.len() <= usize::MAX,
        index != 0 || (p.consumeds.len() <= outputs && p.internals.len() <= inputs),
    ensures
        at_ports(
            ghost_statements(p, ghosts, edges) + own_statements(p, index, counted),
            inputs,
            outputs,
        ),
{
    let consumed = consumed_from(index, p.consumeds, 0);
    let internal = internal_from(index, p.internals, 0);
    let produced = produced_from(counted, p.produceds, 0);
    lemma_ports_ghosts(p, ghosts, edges, inputs, outputs);
    lemma_ports_consumed(index, p.consumeds, 0, inputs, outputs);
    lemma_ports_internal(index, p.internals, 0, inputs, outputs);
    lemma_ports_produced(counted, p.produceds, 0, inputs, outputs);
    lemma_ports_join(consumed, internal, inputs, outputs);
    lemma_ports_join(consumed + internal, produced, inputs, outputs);
    lemma_ports_join(
        ghost_statements(p, ghosts, edges),
        own_statements(p, index, counted),
        inputs,
        outputs,
    );
}

/// Inside a scope there is room for each change; at its outside where the port is one of its own.
/// So it is for the targets of edges.
pub proof fn law_room_for_changes(
    location: Location,
    targets: Seq<Target>,
    edges: Seq<(usize, usize)>,
    inputs: nat,
    outputs: nat,
)
    ensures
        location.node != 0 ==> port_ok(location, inputs, outputs),
        forall|i: usize|
            i < inputs ==> #[trigger] port_ok(
                Location { node: 0, port: Port::Source(i) },
                inputs,
                outputs,
            ),
        forall|o: usize|
            o < outputs ==> #[trigger] port_ok(
                Location { node: 0, port: Port::Target(o) },
                inputs,
                outputs,
            ),
        (forall|k: int| 0 <= k < targets.len() ==> (#[trigger] targets[k]).node != 0) ==> targets_ok(
            targets,
            outputs,
        ),
        (forall|k: int| 0 <= k < edges.len() ==> (#[trigger] edges[k]).1 != 0) ==> edges_ok(
            edges,
            outputs,
        ),
        outputs > 0 ==> edges_ok(edges, outputs),
{
}

} // verus!
