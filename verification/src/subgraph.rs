//! A scope at work: how it takes in progress from outside, hands it to its operators, and
//! reports theirs.
//!
//! What the tracker of pointstamps, the exchange with other workers and the operators
//! themselves do happens elsewhere. Each step of a scope takes what they returned, and returns
//! what they are to do next.

use std::collections::HashMap;

use vstd::multiset::Multiset;
use vstd::prelude::*;

use crate::active::{handed_out, used_up, ActiveHeap};
use crate::change_batch::{
    compacted, count, extended, law_extend_counts, law_extend_in_parts, law_total_is_count,
    law_update_counts, lemma_total_join, lemma_wrapped_sum, total, updated, wrapped, ChangeBatch,
};
use crate::frontier::{
    all_inserted, frontier_changes, frontier_of, is_antichain, law_all_inserted, law_frontier,
    law_frontier_changes, law_frontier_reach, occurrences, Antichain, MutableAntichain,
};
use crate::location::{at_source, Location, Pointstamp, Port, Source, Target};
use crate::logging::ShutdownEvent;
use crate::order::{Ordered, PartialOrder, Refines, Timestamp};
use crate::per_operator::{
    has_nodes, implied_at, law_reports_taken, lemma_contents_len, progress_error, without_nodes,
    without_own, PerOperatorState, ProgressError,
};
use crate::ports::{
    at_ports, countable, edges_ok, lemma_ports_extended, lemma_ports_fan_out, lemma_ports_statements,
    port_ok, routes_ok, targets_ok,
};
use crate::reachability::{row_elements, summary_elements, PerOperator};
use crate::shared_progress::{
    contents, drain_batch, no_changes, node_contents, update_batch, update_node_batch,
    ProgressContents, SharedProgress,
};
use crate::statements::{
    fan_out, lemma_total_fan_out, negate, negated, route_targets, times_reached,
};
use crate::sums::{
    lemma_count_ends, lemma_count_join, lemma_count_small, lemma_sum_first, lemma_sum_same,
    lemma_sum_zero, sum_over,
};

verus! {

broadcast use {
    vstd::std_specs::hash::group_hash_axioms,
    vstd::seq_lib::group_to_multiset_ensures,
};

/// A scope.
pub struct Subgraph<TOuter: Timestamp, TInner: Refines<TOuter>> {
    /// The name of the scope.
    pub name: String,
    /// Indexes that lead to the scope from the root.
    pub path: Vec<usize>,
    /// Number of inputs.
    pub inputs: usize,
    /// Number of outputs.
    pub outputs: usize,
    /// The operators of the scope, by index. Child zero stands for the outside.
    pub children: Vec<PerOperatorState<TInner>>,
    /// Whether each operator is incomplete.
    pub incomplete: Vec<bool>,
    /// How many operators count as incomplete.
    pub incomplete_count: usize,
    /// The operators to schedule.
    pub temp_active: ActiveHeap,
    /// By input, the messages that entered the scope.
    pub input_messages: Vec<ChangeBatch<TInner>>,
    /// By output, the capabilities expressed so far.
    pub output_capabilities: Vec<MutableAntichain<TOuter>>,
    /// Changes to tell other workers.
    pub local_pointstamp: ChangeBatch<Pointstamp<TInner>>,
    /// Changes that all workers know.
    pub final_pointstamp: ChangeBatch<Pointstamp<TInner>>,
    /// Progress information shared with the scope around.
    pub shared_progress: SharedProgress<TOuter>,
    /// Whether to tell other workers of all changes at once.
    pub eager_progress_send: bool,
    /// By operator, the device-side nodes that it stands for.
    pub wrapper_ghost: HashMap<usize, Vec<usize>>,
    /// By device-side node, the operator that stands for it.
    pub ghost_wrapper: HashMap<usize, usize>,
    /// By operator, the edges that join its device-side nodes, to those around too.
    pub wrapper_ghost_edges: HashMap<usize, Vec<(usize, usize)>>,
}

/// The progress information of each operator.
pub open spec fn progress_views<T: Timestamp>(children: Seq<PerOperatorState<T>>) -> Seq<
    ProgressContents<T>,
> {
    children.map_values(|c: PerOperatorState<T>| c.shared_progress@)
}

/// Whether the operators of `a` are those of `b` in all but their progress information.
pub open spec fn same_operators<T: Timestamp>(
    a: Seq<PerOperatorState<T>>,
    b: Seq<PerOperatorState<T>>,
) -> bool {
    &&& a.len() == b.len()
    &&& forall|i: int| 0 <= i < a.len() ==> (#[trigger] a[i]).same_operator(&b[i])
}

/// The frontier changes at the inputs from `port` on, as changes inside the scope.
pub open spec fn entering_from<TOuter: Timestamp, TInner: Refines<TOuter>>(
    frontiers: Seq<Seq<(TOuter, i64)>>,
    port: nat,
) -> Seq<(Source, TInner, i64)>
    decreases frontiers.len() - port,
{
    if port >= frontiers.len() {
        Seq::empty()
    } else {
        frontiers[port as int].map_values(
            |c: (TOuter, i64)|
                (Source { node: 0, port: port as usize }, TInner::inner_of(c.0), c.1),
        ) + entering_from::<TOuter, TInner>(frontiers, port + 1)
    }
}

/// Messages that entered the scope: each is counted at the targets of its input, and taken
/// from the input.
pub open spec fn harvested<T>(input: usize, targets: Seq<Target>, changes: Seq<(T, i64)>) -> Seq<
    (Pointstamp<T>, i64),
>
    decreases changes.len(),
{
    if changes.len() == 0 {
        Seq::empty()
    } else {
        fan_out(targets, changes[0].0, changes[0].1).push(
            (
                Pointstamp { location: at_source(0, input), time: changes[0].0 },
                negated(changes[0].1),
            ),
        ) + harvested(input, targets, changes.drop_first())
    }
}

/// Messages that entered at the inputs from `input` on.
pub open spec fn harvested_from<T>(
    routes: Seq<Seq<Target>>,
    messages: Seq<Seq<(T, i64)>>,
    input: nat,
) -> Seq<(Pointstamp<T>, i64)>
    decreases messages.len() - input,
{
    if input >= messages.len() {
        Seq::empty()
    } else {
        harvested(input as usize, routes[input as int], messages[input as int]) + harvested_from(
            routes,
            messages,
            input + 1,
        )
    }
}

/// The change at the outside of the scope that `change` makes to `p`: at an output of child
/// zero a message consumed, at an input of child zero a message produced.
pub open spec fn committed_one<TOuter: Timestamp, TInner: Refines<TOuter>>(
    p: ProgressContents<TOuter>,
    change: (Pointstamp<TInner>, i64),
) -> ProgressContents<TOuter> {
    if change.0.location.node != 0 {
        p
    } else {
        match change.0.location.port {
            Port::Source(i) => ProgressContents {
                consumeds: p.consumeds.update(
                    i as int,
                    updated(p.consumeds[i as int], change.0.time.outer_of(), negated(change.1)),
                ),
                ..p
            },
            Port::Target(o) => ProgressContents {
                produceds: p.produceds.update(
                    o as int,
                    updated(p.produceds[o as int], change.0.time.outer_of(), change.1),
                ),
                ..p
            },
        }
    }
}

/// The changes that each of `changes` makes to `p`.
pub open spec fn committed<TOuter: Timestamp, TInner: Refines<TOuter>>(
    p: ProgressContents<TOuter>,
    changes: Seq<(Pointstamp<TInner>, i64)>,
) -> ProgressContents<TOuter>
    decreases changes.len(),
{
    if changes.len() == 0 {
        p
    } else {
        committed(committed_one(p, changes[0]), changes.drop_first())
    }
}

/// Those of `changes` that are inside the scope.
pub open spec fn inside<T>(changes: Seq<(Pointstamp<T>, i64)>) -> Seq<(Pointstamp<T>, i64)> {
    changes.filter(|c: (Pointstamp<T>, i64)| c.0.location.node != 0)
}

/// The changes of `v` at times of the scope around.
pub open spec fn leaving<TOuter: Timestamp, TInner: Refines<TOuter>>(v: Seq<(TInner, i64)>) -> Seq<
    (TOuter, i64),
> {
    v.map_values(|c: (TInner, i64)| (c.0.outer_of(), c.1))
}

/// The frontier change that `change` makes to the progress information `views` of the
/// operators. A change at a device-side node goes to the operator that stands for it.
pub open spec fn delivered_one<T: Timestamp>(
    views: Seq<ProgressContents<T>>,
    ghost_wrapper: Map<usize, usize>,
    change: (Pointstamp<T>, i64),
) -> Seq<ProgressContents<T>> {
    let node = change.0.location.node;
    match change.0.location.port {
        Port::Source(_) => views,
        Port::Target(port) => if ghost_wrapper.contains_key(node) {
            let w = ghost_wrapper[node] as int;
            let held = views[w].wrapper_frontiers[node];
            views.update(
                w,
                ProgressContents {
                    wrapper_frontiers: views[w].wrapper_frontiers.insert(
                        node,
                        held.update(
                            port as int,
                            updated(held[port as int], change.0.time, change.1),
                        ),
                    ),
                    ..views[w]
                },
            )
        } else {
            let held = views[node as int].frontiers;
            views.update(
                node as int,
                ProgressContents {
                    frontiers: held.update(
                        port as int,
                        updated(held[port as int], change.0.time, change.1),
                    ),
                    ..views[node as int]
                },
            )
        },
    }
}

/// The frontier changes that `changes` make to the progress information of the operators.
pub open spec fn delivered<T: Timestamp>(
    views: Seq<ProgressContents<T>>,
    ghost_wrapper: Map<usize, usize>,
    changes: Seq<(Pointstamp<T>, i64)>,
) -> Seq<ProgressContents<T>>
    decreases changes.len(),
{
    if changes.len() == 0 {
        views
    } else {
        delivered(delivered_one(views, ghost_wrapper, changes[0]), ghost_wrapper, changes.drop_first())
    }
}

/// Whether a change at `location` counts as a change at a device-side node.
pub open spec fn at_ghost(ghost_wrapper: Map<usize, usize>, location: Location) -> bool {
    location.port is Target && ghost_wrapper.contains_key(location.node)
}

/// The operators that one frontier change wakes: the node itself where it asks for that, and,
/// for a device-side node that does not ask, the operator that stands for it, unless a change
/// at a device-side node came before.
pub open spec fn roused_one(
    notify: Seq<bool>,
    ghost_wrapper: Map<usize, usize>,
    location: Location,
    pushed: bool,
) -> Seq<usize> {
    if location.port is Source {
        Seq::empty()
    } else if notify[location.node as int] {
        seq![location.node]
    } else if ghost_wrapper.contains_key(location.node) && !pushed {
        seq![ghost_wrapper[location.node]]
    } else {
        Seq::empty()
    }
}

/// The operators that frontier changes wake, where `pushed` tells whether a change at a
/// device-side node came before.
pub open spec fn roused<T>(
    notify: Seq<bool>,
    ghost_wrapper: Map<usize, usize>,
    changes: Seq<(Pointstamp<T>, i64)>,
    pushed: bool,
) -> Seq<usize>
    decreases changes.len(),
{
    if changes.len() == 0 {
        Seq::empty()
    } else {
        let location = changes[0].0.location;
        roused_one(notify, ghost_wrapper, location, pushed) + roused(
            notify,
            ghost_wrapper,
            changes.drop_first(),
            pushed || at_ghost(ghost_wrapper, location),
        )
    }
}

/// Whether each operator asks to be scheduled when a frontier changes.
pub open spec fn notify_flags<T: Timestamp>(children: Seq<PerOperatorState<T>>) -> Seq<bool> {
    children.map_values(|c: PerOperatorState<T>| c.notify)
}

/// How many of `flags` are set.
pub open spec fn set_count(flags: Seq<bool>) -> nat
    decreases flags.len(),
{
    if flags.len() == 0 {
        0
    } else {
        set_count(flags.drop_last()) + (if flags.last() {
            1nat
        } else {
            0
        })
    }
}

/// How many of `flags` are set.
pub fn count_set(flags: &Vec<bool>) -> (r: usize)
    ensures
        r == set_count(flags@),
{
    let mut r: usize = 0;
    let mut i: usize = 0;
    assert(flags@.take(0) =~= Seq::<bool>::empty());
    while i < flags.len()
        invariant
            i <= flags@.len(),
            r == set_count(flags@.take(i as int)),
            r <= i,
        decreases flags@.len() - i,
    {
        assert(flags@.take(i + 1).drop_last() =~= flags@.take(i as int));
        if flags[i] {
            r += 1;
        }
        i += 1;
    }
    assert(flags@.take(i as int) =~= flags@);
    r
}

/// Flags are counted one by one: no more than there are, and none exactly where none is set.
pub proof fn lemma_some_set(flags: Seq<bool>)
    ensures
        set_count(flags) <= flags.len(),
        set_count(flags) > 0 <==> exists|i: int| 0 <= i < flags.len() && #[trigger] flags[i],
    decreases flags.len(),
{
    if flags.len() > 0 {
        let before = flags.drop_last();
        lemma_some_set(before);
        if flags.last() {
            assert(flags[flags.len() - 1]);
        } else if set_count(before) > 0 {
            let i = choose|i: int| 0 <= i < before.len() && #[trigger] before[i];
            assert(flags[i]);
        } else {
            assert forall|i: int| 0 <= i < flags.len() implies !#[trigger] flags[i] by {
                if i < before.len() {
                    assert(!before[i]);
                }
            }
        }
    }
}

/// Whether a frontier change at `location` has a place to go.
pub open spec fn deliverable<T: Timestamp>(
    views: Seq<ProgressContents<T>>,
    ghost_wrapper: Map<usize, usize>,
    location: Location,
) -> bool {
    match location.port {
        Port::Source(_) => true,
        Port::Target(port) => {
            &&& location.node < views.len()
            &&& if ghost_wrapper.contains_key(location.node) {
                let w = ghost_wrapper[location.node] as int;
                &&& w < views.len()
                &&& views[w].wrapper_frontiers.contains_key(location.node)
                &&& port < views[w].wrapper_frontiers[location.node].len()
            } else {
                port < views[location.node as int].frontiers.len()
            }
        },
    }
}

/// What the tracker is to be told.
pub struct TrackerUpdates<T> {
    /// Changes at the inputs of the scope.
    pub sources: Vec<(Source, T, i64)>,
    /// Changes inside the scope.
    pub pointstamps: Vec<(Pointstamp<T>, i64)>,
}

impl<TOuter: Timestamp, TInner: Refines<TOuter>> Subgraph<TOuter, TInner> {
    /// The parts of the scope fit together.
    pub open spec fn wf(&self) -> bool {
        &&& self.children@.len() >= 1
        &&& self.incomplete@.len() == self.children@.len()
        &&& self.incomplete_count == set_count(self.incomplete@)
        &&& self.children@[0].outputs == self.inputs
        &&& self.children@[0].inputs == self.outputs
        &&& self.input_messages@.len() == self.inputs
        &&& self.output_capabilities@.len() == self.outputs
        &&& self.shared_progress.frontiers@.len() == self.inputs
        &&& self.shared_progress.consumeds@.len() == self.inputs
        &&& self.shared_progress.internals@.len() == self.outputs
        &&& self.shared_progress.produceds@.len() == self.outputs
        &&& forall|i: int|
            0 <= i < self.children@.len() ==> {
                &&& (#[trigger] self.children@[i]).wf()
                &&& self.children@[i].index == i
                &&& has_nodes(
                    self.children@[i].shared_progress@,
                    self.children@[i].ghosts(self.wrapper_ghost@),
                )
            }
        &&& forall|w: usize| #[trigger]
            self.wrapper_ghost@.contains_key(w) ==> {
                &&& self.wrapper_ghost_edges@.contains_key(w)
                &&& edges_ok(self.wrapper_ghost_edges@[w]@, self.outputs as nat)
                &&& forall|k: int|
                    0 <= k < self.wrapper_ghost@[w]@.len() ==> #[trigger] self.wrapper_ghost@[w]@[k]
                        != 0
            }
        &&& forall|i: int|
            0 <= i < self.children@.len() ==> routes_ok(
                route_targets((#[trigger] self.children@[i]).ghost_edges@),
                self.outputs as nat,
            )
        &&& at_ports(self.local_pointstamp@, self.inputs as nat, self.outputs as nat)
        &&& at_ports(self.final_pointstamp@, self.inputs as nat, self.outputs as nat)
    }

    /// Takes the frontier changes in from the scope around, as changes inside the scope that
    /// the tracker is to be told.
    pub fn accept_frontier(&mut self) -> (r: Vec<(Source, TInner, i64)>)
        ensures
            *final(self) == (Subgraph {
                shared_progress: final(self).shared_progress,
                ..*old(self)
            }),
            final(self).shared_progress@ == (ProgressContents {
                frontiers: no_changes::<TOuter>(old(self).shared_progress@.frontiers.len()),
                ..old(self).shared_progress@
            }),
            r@ == entering_from::<TOuter, TInner>(old(self).shared_progress@.frontiers, 0),
            old(self).wf() ==> final(self).wf(),
    {
        let ghost all = self.shared_progress@.frontiers;
        let ghost goal = entering_from::<TOuter, TInner>(all, 0);
        let mut r: Vec<(Source, TInner, i64)> = Vec::new();
        let mut port: usize = 0;
        assert(r@ + goal =~= goal);
        while port < self.shared_progress.frontiers.len()
            invariant
                port <= all.len(),
                self.shared_progress.frontiers@.len() == all.len(),
                *self == (Subgraph {
                    shared_progress: SharedProgress {
                        frontiers: self.shared_progress.frontiers,
                        ..old(self).shared_progress
                    },
                    ..*old(self)
                }),
                forall|k: int|
                    0 <= k < port ==> #[trigger] self.shared_progress@.frontiers[k] == Seq::<
                        (TOuter, i64),
                    >::empty(),
                forall|k: int|
                    port <= k < all.len() ==> #[trigger] self.shared_progress@.frontiers[k]
                        == all[k],
                r@ + entering_from::<TOuter, TInner>(all, port as nat) == goal,
            decreases all.len() - port,
        {
            let ghost here = self.shared_progress@.frontiers;
            let source = Source::new(0, port);
            let changes = drain_batch(&mut self.shared_progress.frontiers, port);
            assert(changes@ == all[port as int]);
            let ghost list = changes@.map_values(
                |c: (TOuter, i64)| (source, TInner::inner_of(c.0), c.1),
            );
            let ghost rest = entering_from::<TOuter, TInner>(all, (port + 1) as nat);
            let mut j: usize = 0;
            assert(list.skip(0) =~= list);
            while j < changes.len()
                invariant
                    j <= changes@.len(),
                    list == changes@.map_values(
                        |c: (TOuter, i64)| (source, TInner::inner_of(c.0), c.1),
                    ),
                    r@ + (list.skip(j as int) + rest) == goal,
                decreases changes@.len() - j,
            {
                let (time, value) = changes[j];
                let ghost before = r@;
                r.push((source, TInner::to_inner(time), value));
                assert(r@ + (list.skip(j + 1) + rest) =~= before + (list.skip(j as int) + rest));
                j += 1;
            }
            assert(r@ + rest =~= r@ + (list.skip(j as int) + rest));
            assert(self.shared_progress@.frontiers == here.update(
                port as int,
                Seq::<(TOuter, i64)>::empty(),
            ));
            port += 1;
        }
        assert(r@ + Seq::<(Source, TInner, i64)>::empty() =~= r@);
        assert(self.shared_progress@.frontiers =~= no_changes::<TOuter>(all.len()));
        r
    }

    /// Counts the messages that entered the scope at the operators they go to, and takes them
    /// from the inputs they came through.
    pub fn harvest_inputs(&mut self)
        requires
            old(self).inputs == old(self).input_messages@.len(),
            old(self).inputs <= old(self).children@[0].ghost_edges@.len(),
            old(self).children@.len() >= 1,
        ensures
            *final(self) == (Subgraph {
                input_messages: final(self).input_messages,
                local_pointstamp: final(self).local_pointstamp,
                ..*old(self)
            }),
            contents(final(self).input_messages@) == no_changes::<TInner>(
                old(self).inputs as nat,
            ),
            final(self).local_pointstamp@ == extended(
                old(self).local_pointstamp@,
                harvested_from(
                    route_targets(old(self).children@[0].ghost_edges@),
                    contents(old(self).input_messages@),
                    0,
                ),
            ),
            old(self).wf() ==> final(self).wf(),
    {
        let ghost all = contents(self.input_messages@);
        let ghost routes = route_targets(self.children@[0].ghost_edges@);
        let ghost goal = extended(self.local_pointstamp@, harvested_from(routes, all, 0));
        let mut input: usize = 0;
        while input < self.inputs
            invariant
                input <= self.inputs,
                self.inputs == self.input_messages@.len(),
                self.inputs == all.len(),
                self.inputs <= self.children@[0].ghost_edges@.len(),
                self.children@.len() >= 1,
                routes == route_targets(self.children@[0].ghost_edges@),
                *self == (Subgraph {
                    input_messages: self.input_messages,
                    local_pointstamp: self.local_pointstamp,
                    ..*old(self)
                }),
                forall|k: int|
                    0 <= k < input ==> #[trigger] contents(self.input_messages@)[k] == Seq::<
                        (TInner, i64),
                    >::empty(),
                forall|k: int|
                    input <= k < all.len() ==> #[trigger] contents(self.input_messages@)[k]
                        == all[k],
                extended(self.local_pointstamp@, harvested_from(routes, all, input as nat)) == goal,
            decreases self.inputs - input,
        {
            let ghost here = contents(self.input_messages@);
            let changes = drain_batch(&mut self.input_messages, input);
            assert(changes@ == all[input as int]);
            let ghost rest = harvested_from(routes, all, (input + 1) as nat);
            proof {
                law_extend_in_parts(
                    self.local_pointstamp@,
                    harvested(input, routes[input as int], changes@),
                    rest,
                );
            }
            harvest_one(
                &mut self.local_pointstamp,
                input,
                &self.children[0].ghost_edges[input],
                &changes,
            );
            assert(contents(self.input_messages@) == here.update(
                input as int,
                Seq::<(TInner, i64)>::empty(),
            ));
            input += 1;
        }
        assert(contents(self.input_messages@) =~= no_changes::<TInner>(all.len()));
        proof {
            if old(self).wf() {
                lemma_ports_harvested(
                    routes,
                    all,
                    0,
                    self.inputs as nat,
                    self.outputs as nat,
                );
                lemma_ports_extended(
                    old(self).local_pointstamp@,
                    harvested_from(routes, all, 0),
                    self.inputs as nat,
                    self.outputs as nat,
                );
            }
        }
    }
}

/// Messages that entered are counted at ports of the scope.
proof fn lemma_ports_harvest<T>(
    input: usize,
    targets: Seq<Target>,
    changes: Seq<(T, i64)>,
    inputs: nat,
    outputs: nat,
)
    requires
        input < inputs,
        targets_ok(targets, outputs),
    ensures
        at_ports(harvested(input, targets, changes), inputs, outputs),
    decreases changes.len(),
{
    if changes.len() > 0 {
        lemma_ports_harvest(input, targets, changes.drop_first(), inputs, outputs);
        lemma_ports_fan_out(targets, changes[0].0, changes[0].1, inputs, outputs);
    }
}

/// Messages that entered at any input are counted at ports of the scope.
proof fn lemma_ports_harvested<T>(
    routes: Seq<Seq<Target>>,
    messages: Seq<Seq<(T, i64)>>,
    input: nat,
    inputs: nat,
    outputs: nat,
)
    requires
        messages.len() <= inputs,
        inputs <= usize::MAX,
        messages.len() <= routes.len(),
        routes_ok(routes, outputs),
    ensures
        at_ports(harvested_from(routes, messages, input), inputs, outputs),
    decreases messages.len() - input,
{
    if input < messages.len() {
        lemma_ports_harvested(routes, messages, input + 1, inputs, outputs);
        lemma_ports_harvest(
            input as usize,
            routes[input as int],
            messages[input as int],
            inputs,
            outputs,
        );
    }
}

/// Counts messages that entered at `input` at each of `targets`, and takes them from `input`.
fn harvest_one<T: Timestamp>(
    pointstamps: &mut ChangeBatch<Pointstamp<T>>,
    input: usize,
    targets: &Vec<Target>,
    changes: &Vec<(T, i64)>,
)
    ensures
        final(pointstamps)@ == extended(old(pointstamps)@, harvested(input, targets@, changes@)),
{
    let ghost goal = extended(pointstamps@, harvested(input, targets@, changes@));
    let source = Location::new_source(0, input);
    let mut i: usize = 0;
    assert(changes@.skip(0) =~= changes@);
    while i < changes.len()
        invariant
            i <= changes@.len(),
            source == at_source(0, input),
            extended(pointstamps@, harvested(input, targets@, changes@.skip(i as int))) == goal,
        decreases changes@.len() - i,
    {
        let (time, delta) = changes[i];
        let ghost rest = harvested(input, targets@, changes@.skip(i + 1));
        let ghost list = fan_out(targets@, time, delta);
        let ghost undo = (Pointstamp { location: source, time }, negated(delta));
        let ghost tail = seq![undo] + rest;
        assert(changes@.skip(i as int).drop_first() =~= changes@.skip(i + 1));
        assert(list.push(undo) + rest =~= list.skip(0) + tail);
        let mut j: usize = 0;
        while j < targets.len()
            invariant
                j <= targets@.len(),
                list == fan_out(targets@, time, delta),
                extended(pointstamps@, list.skip(j as int) + tail) == goal,
            decreases targets@.len() - j,
        {
            let target: Target = targets[j];
            assert((list.skip(j as int) + tail)[0] == list[j as int]);
            assert((list.skip(j as int) + tail).drop_first() =~= list.skip(j + 1) + tail);
            pointstamps.update(
                Pointstamp { location: Location::new_target(target.node, target.port), time },
                delta,
            );
            j += 1;
        }
        assert(list.skip(j as int) + tail =~= tail);
        assert(tail[0] == undo);
        assert(tail.drop_first() =~= rest);
        pointstamps.update(Pointstamp { location: source, time }, negate(delta));
        i += 1;
    }
    assert(changes@.skip(i as int).len() == 0);
}

impl<TOuter: Timestamp, TInner: Refines<TOuter>> Subgraph<TOuter, TInner> {
    /// Commits the changes that all workers know. Those at child zero are reported to the
    /// scope around, at its outputs as messages consumed and at its inputs as messages
    /// produced; the others are returned, for the tracker.
    pub fn commit_pointstamps(&mut self) -> (r: Vec<(Pointstamp<TInner>, i64)>)
        requires
            at_ports(
                old(self).final_pointstamp@,
                old(self).shared_progress.consumeds@.len(),
                old(self).shared_progress.produceds@.len(),
            ),
        ensures
            *final(self) == (Subgraph {
                final_pointstamp: final(self).final_pointstamp,
                shared_progress: final(self).shared_progress,
                ..*old(self)
            }),
            final(self).final_pointstamp@ == Seq::<(Pointstamp<TInner>, i64)>::empty(),
            final(self).shared_progress@ == committed(
                old(self).shared_progress@,
                old(self).final_pointstamp@,
            ),
            r@ == inside(old(self).final_pointstamp@),
            old(self).wf() ==> final(self).wf(),
    {
        let changes = self.final_pointstamp.drain();
        let ghost inputs = self.shared_progress.consumeds@.len();
        let ghost outputs = self.shared_progress.produceds@.len();
        let ghost goal = committed(self.shared_progress@, changes@);
        let ghost keep = |c: (Pointstamp<TInner>, i64)| c.0.location.node != 0;
        let mut r: Vec<(Pointstamp<TInner>, i64)> = Vec::new();
        let mut i: usize = 0;
        assert(changes@.skip(0) =~= changes@);
        assert(changes@.take(0).filter(keep) =~= Seq::<(Pointstamp<TInner>, i64)>::empty()) by {
            reveal(Seq::filter);
        }
        while i < changes.len()
            invariant
                i <= changes@.len(),
                changes@ == old(self).final_pointstamp@,
                *self == (Subgraph {
                    final_pointstamp: self.final_pointstamp,
                    shared_progress: self.shared_progress,
                    ..*old(self)
                }),
                self.final_pointstamp@ == Seq::<(Pointstamp<TInner>, i64)>::empty(),
                self.shared_progress == (SharedProgress {
                    consumeds: self.shared_progress.consumeds,
                    produceds: self.shared_progress.produceds,
                    ..old(self).shared_progress
                }),
                self.shared_progress.consumeds@.len() == inputs,
                self.shared_progress.produceds@.len() == outputs,
                inputs == old(self).shared_progress.consumeds@.len(),
                outputs == old(self).shared_progress.produceds@.len(),
                at_ports(changes@, inputs, outputs),
                committed(self.shared_progress@, changes@.skip(i as int)) == goal,
                keep == (|c: (Pointstamp<TInner>, i64)| c.0.location.node != 0),
                r@ == changes@.take(i as int).filter(keep),
            decreases changes@.len() - i,
        {
            let (stamp, delta) = changes[i];
            let ghost p = self.shared_progress@;
            proof {
                assert(changes@[i as int] == (stamp, delta));
                assert(changes@.skip(i as int)[0] == (stamp, delta));
                assert(changes@.skip(i as int).drop_first() =~= changes@.skip(i + 1));
                assert(changes@.take(i + 1).drop_last() =~= changes@.take(i as int));
                assert(changes@.take(i + 1).filter(keep) == if keep((stamp, delta)) {
                    changes@.take(i as int).filter(keep).push((stamp, delta))
                } else {
                    changes@.take(i as int).filter(keep)
                }) by {
                    reveal(Seq::filter);
                }
            }
            if stamp.location.node == 0 {
                match stamp.location.port {
                    Port::Source(scope_input) => {
                        update_batch(
                            &mut self.shared_progress.consumeds,
                            scope_input,
                            stamp.time.to_outer(),
                            negate(delta),
                        );
                    },
                    Port::Target(scope_output) => {
                        update_batch(
                            &mut self.shared_progress.produceds,
                            scope_output,
                            stamp.time.to_outer(),
                            delta,
                        );
                    },
                }
            } else {
                r.push((stamp, delta));
            }
            assert(self.shared_progress@ == committed_one(p, (stamp, delta)));
            i += 1;
        }
        assert(changes@.take(i as int) =~= changes@);
        assert(changes@.skip(i as int).len() == 0);
        r
    }

    /// Hands the frontier changes that the tracker found to the operators they concern, and
    /// wakes operators.
    pub fn deliver_frontiers(&mut self, pushed: &Vec<(Pointstamp<TInner>, i64)>)
        requires
            forall|k: int|
                0 <= k < pushed@.len() ==> deliverable(
                    progress_views(old(self).children@),
                    old(self).ghost_wrapper@,
                    (#[trigger] pushed@[k]).0.location,
                ),
        ensures
            *final(self) == (Subgraph {
                children: final(self).children,
                temp_active: final(self).temp_active,
                ..*old(self)
            }),
            same_operators(final(self).children@, old(self).children@),
            progress_views(final(self).children@) == delivered(
                progress_views(old(self).children@),
                old(self).ghost_wrapper@,
                pushed@,
            ),
            final(self).temp_active@ == old(self).temp_active@.add(
                roused(
                    notify_flags(old(self).children@),
                    old(self).ghost_wrapper@,
                    pushed@,
                    false,
                ).to_multiset(),
            ),
            old(self).wf() ==> final(self).wf(),
    {
        let ghost start = progress_views(self.children@);
        let ghost goal = delivered(start, self.ghost_wrapper@, pushed@);
        let ghost flags = notify_flags(self.children@);
        let ghost gw = self.ghost_wrapper@;
        let ghost woken = self.temp_active@.add(
            roused(flags, gw, pushed@, false).to_multiset(),
        );
        let mut wrapper_pushed = false;
        let mut i: usize = 0;
        assert(pushed@.skip(0) =~= pushed@);
        while i < pushed.len()
            invariant
                i <= pushed@.len(),
                *self == (Subgraph {
                    children: self.children,
                    temp_active: self.temp_active,
                    ..*old(self)
                }),
                gw == self.ghost_wrapper@,
                flags == notify_flags(old(self).children@),
                same_operators(self.children@, old(self).children@),
                old(self).wf() ==> self.wf(),
                forall|k: int|
                    i <= k < pushed@.len() ==> deliverable(
                        progress_views(self.children@),
                        gw,
                        (#[trigger] pushed@[k]).0.location,
                    ),
                delivered(progress_views(self.children@), gw, pushed@.skip(i as int)) == goal,
                self.temp_active@.add(
                    roused(flags, gw, pushed@.skip(i as int), wrapper_pushed).to_multiset(),
                ) == woken,
            decreases pushed@.len() - i,
        {
            let (stamp, diff) = pushed[i];
            let location: Location = stamp.location;
            let ghost bag = self.temp_active@;
            let ghost views = progress_views(self.children@);
            let ghost was = wrapper_pushed;
            let ghost one = roused_one(flags, gw, location, was);
            proof {
                assert(pushed@[i as int] == (stamp, diff));
                assert(pushed@.skip(i as int)[0] == (stamp, diff));
                assert(pushed@.skip(i as int).drop_first() =~= pushed@.skip(i + 1));
                assert(deliverable(views, gw, location));
                lemma_small_bags();
            }
            if let Port::Target(port) = location.port {
                assert(flags[location.node as int] == self.children@[location.node as int].notify);
                if self.children[location.node].notify {
                    self.temp_active.push(location.node);
                    if self.ghost_wrapper.contains_key(&location.node) {
                        wrapper_pushed = true;
                    }
                }
                match self.ghost_wrapper.get(&location.node) {
                    Some(w) => {
                        let wrapper: usize = *w;
                        if !wrapper_pushed {
                            self.temp_active.push(wrapper);
                        }
                        wrapper_pushed = true;
                        self.deliver_ghost(wrapper, location.node, port, stamp.time, diff);
                    },
                    None => {
                        self.deliver_own(location.node, port, stamp.time, diff);
                    },
                }
            }
            proof {
                let rest = roused(flags, gw, pushed@.skip(i + 1), wrapper_pushed);
                assert(self.temp_active@ =~= bag.add(one.to_multiset()));
                crate::active::lemma_bag_join(one, rest);
                assert(self.temp_active@.add(rest.to_multiset()) =~= bag.add(
                    (one + rest).to_multiset(),
                ));
                assert(progress_views(self.children@) == delivered_one(views, gw, (stamp, diff)));
                assert forall|k: int| i < k < pushed@.len() implies deliverable(
                    progress_views(self.children@),
                    gw,
                    (#[trigger] pushed@[k]).0.location,
                ) by {
                    assert(deliverable(views, gw, pushed@[k].0.location));
                }
            }
            i += 1;
        }
        proof {
            assert(pushed@.skip(i as int).len() == 0);
            lemma_small_bags();
            assert(self.temp_active@ =~= self.temp_active@.add(Multiset::<usize>::empty()));
        }
    }

    /// Hands a frontier change at input `port` of the device-side node `node` to the operator
    /// that stands for it.
    fn deliver_ghost(&mut self, wrapper: usize, node: usize, port: usize, time: TInner, diff: i64)
        requires
            wrapper < old(self).children@.len(),
            old(self).ghost_wrapper@.contains_key(node),
            old(self).ghost_wrapper@[node] == wrapper,
            deliverable(
                progress_views(old(self).children@),
                old(self).ghost_wrapper@,
                Location { node, port: Port::Target(port) },
            ),
        ensures
            *final(self) == (Subgraph { children: final(self).children, ..*old(self) }),
            same_operators(final(self).children@, old(self).children@),
            progress_views(final(self).children@) == delivered_one(
                progress_views(old(self).children@),
                old(self).ghost_wrapper@,
                (Pointstamp { location: Location { node, port: Port::Target(port) }, time }, diff),
            ),
            old(self).wf() ==> final(self).wf(),
    {
        let ghost views = progress_views(self.children@);
        let ghost prior = self.children@;
        assert(views[wrapper as int] == self.children@[wrapper as int].shared_progress@);
        assert(node_contents(
            self.children@[wrapper as int].shared_progress.wrapper_frontiers@,
        ).contains_key(node));
        update_node_batch(
            &mut self.children[wrapper].shared_progress.wrapper_frontiers,
            node,
            port,
            time,
            diff,
        );
        proof {
            let stamp = Pointstamp { location: Location { node, port: Port::Target(port) }, time };
            assert(progress_views(self.children@) =~= delivered_one(
                views,
                self.ghost_wrapper@,
                (stamp, diff),
            ));
            assert forall|k: int| 0 <= k < prior.len() && k != wrapper implies self.children@[k]
                == #[trigger] prior[k] by {}
            lemma_has_nodes_kept(
                prior[wrapper as int].shared_progress@,
                self.children@[wrapper as int].shared_progress@,
                self.children@[wrapper as int].ghosts(self.wrapper_ghost@),
            );
        }
    }

    /// Hands a frontier change at input `port` of `node` to the operator.
    fn deliver_own(&mut self, node: usize, port: usize, time: TInner, diff: i64)
        requires
            !old(self).ghost_wrapper@.contains_key(node),
            deliverable(
                progress_views(old(self).children@),
                old(self).ghost_wrapper@,
                Location { node, port: Port::Target(port) },
            ),
        ensures
            *final(self) == (Subgraph { children: final(self).children, ..*old(self) }),
            same_operators(final(self).children@, old(self).children@),
            progress_views(final(self).children@) == delivered_one(
                progress_views(old(self).children@),
                old(self).ghost_wrapper@,
                (Pointstamp { location: Location { node, port: Port::Target(port) }, time }, diff),
            ),
            old(self).wf() ==> final(self).wf(),
    {
        let ghost views = progress_views(self.children@);
        let ghost prior = self.children@;
        assert(views[node as int] == self.children@[node as int].shared_progress@);
        update_batch(&mut self.children[node].shared_progress.frontiers, port, time, diff);
        proof {
            let stamp = Pointstamp { location: Location { node, port: Port::Target(port) }, time };
            assert(progress_views(self.children@) =~= delivered_one(
                views,
                self.ghost_wrapper@,
                (stamp, diff),
            ));
            assert forall|k: int| 0 <= k < prior.len() && k != node implies self.children@[k]
                == #[trigger] prior[k] by {}
            lemma_has_nodes_kept(
                prior[node as int].shared_progress@,
                self.children@[node as int].shared_progress@,
                self.children@[node as int].ghosts(self.wrapper_ghost@),
            );
        }
    }
}

/// What bags of no index and of one index hold.
proof fn lemma_small_bags()
    ensures
        Seq::<usize>::empty().to_multiset() == Multiset::<usize>::empty(),
        forall|x: usize|
            #[trigger] seq![x].to_multiset() == Multiset::<usize>::empty().insert(x),
{
    let none = Seq::<usize>::empty();
    assert(none.to_multiset() =~= Multiset::<usize>::empty());
    assert forall|x: usize| #[trigger] seq![x].to_multiset() == Multiset::<usize>::empty().insert(
        x,
    ) by {
        assert(seq![x] =~= none.push(x));
    }
}

/// Places for reports stay where only frontier changes differ.
proof fn lemma_has_nodes_kept<T>(
    p: ProgressContents<T>,
    q: ProgressContents<T>,
    ghosts: Seq<usize>,
)
    requires
        p.wrapper_consumeds == q.wrapper_consumeds,
        p.wrapper_internals == q.wrapper_internals,
        p.wrapper_produceds == q.wrapper_produceds,
    ensures
        has_nodes(p, ghosts) ==> has_nodes(q, ghosts),
{
}

/// What becomes of the capabilities and of the report for one output.
pub open spec fn surfaced<TOuter: Timestamp, TInner: Refines<TOuter>>(
    held: &MutableAntichain<TOuter>,
    reported: Seq<(TOuter, i64)>,
    changes: Seq<(TInner, i64)>,
    held_after: &MutableAntichain<TOuter>,
    reported_after: Seq<(TOuter, i64)>,
) -> bool {
    &&& held_after.counts() == extended(held.counts(), leaving::<TOuter, TInner>(changes))
    &&& held_after.minimal() == frontier_of(held_after.counts())
    &&& reported_after == extended(
        reported,
        frontier_changes(held.minimal(), held_after.minimal()),
    )
}

/// The changes of `v` at times of the scope around.
fn to_leaving<TOuter: Timestamp, TInner: Refines<TOuter>>(v: &Vec<(TInner, i64)>) -> (r: Vec<
    (TOuter, i64),
>)
    ensures
        r@ == leaving::<TOuter, TInner>(v@),
{
    let mut r: Vec<(TOuter, i64)> = Vec::new();
    let mut i: usize = 0;
    while i < v.len()
        invariant
            i <= v@.len(),
            r@ == leaving::<TOuter, TInner>(v@.take(i as int)),
        decreases v@.len() - i,
    {
        let (time, diff) = v[i];
        r.push((time.to_outer(), diff));
        assert(r@ =~= leaving::<TOuter, TInner>(v@.take(i + 1)));
        i += 1;
    }
    assert(v@.take(i as int) =~= v@);
    r
}

impl<TOuter: Timestamp, TInner: Refines<TOuter>> Subgraph<TOuter, TInner> {
    /// Reports what changed in the frontiers at the outputs of the scope as changes to the
    /// capabilities that the scope holds.
    pub fn report_outputs(&mut self, pushed_output: &Vec<Vec<(TInner, i64)>>)
        requires
            old(self).shared_progress.internals@.len() <= pushed_output@.len(),
            old(self).shared_progress.internals@.len() <= old(self).output_capabilities@.len(),
        ensures
            *final(self) == (Subgraph {
                output_capabilities: final(self).output_capabilities,
                shared_progress: final(self).shared_progress,
                ..*old(self)
            }),
            final(self).shared_progress == (SharedProgress {
                internals: final(self).shared_progress.internals,
                ..old(self).shared_progress
            }),
            final(self).output_capabilities@.len() == old(self).output_capabilities@.len(),
            final(self).shared_progress.internals@.len()
                == old(self).shared_progress.internals@.len(),
            forall|o: int|
                0 <= o < old(self).shared_progress.internals@.len() ==> surfaced::<TOuter, TInner>(
                    &#[trigger] old(self).output_capabilities@[o],
                    old(self).shared_progress@.internals[o],
                    pushed_output@[o]@,
                    &final(self).output_capabilities@[o],
                    final(self).shared_progress@.internals[o],
                ),
            forall|o: int|
                old(self).shared_progress.internals@.len() <= o < old(
                    self,
                ).output_capabilities@.len() ==> #[trigger] final(self).output_capabilities@[o]
                    == old(self).output_capabilities@[o],
            old(self).wf() ==> final(self).wf(),
    {
        let ghost outputs = self.shared_progress.internals@.len();
        let mut o: usize = 0;
        while o < self.shared_progress.internals.len()
            invariant
                o <= outputs,
                self.shared_progress.internals@.len() == outputs,
                outputs == old(self).shared_progress.internals@.len(),
                outputs <= pushed_output@.len(),
                outputs <= self.output_capabilities@.len(),
                self.output_capabilities@.len() == old(self).output_capabilities@.len(),
                *self == (Subgraph {
                    output_capabilities: self.output_capabilities,
                    shared_progress: SharedProgress {
                        internals: self.shared_progress.internals,
                        ..old(self).shared_progress
                    },
                    ..*old(self)
                }),
                forall|k: int|
                    0 <= k < o ==> surfaced::<TOuter, TInner>(
                        &#[trigger] old(self).output_capabilities@[k],
                        old(self).shared_progress@.internals[k],
                        pushed_output@[k]@,
                        &self.output_capabilities@[k],
                        self.shared_progress@.internals[k],
                    ),
                forall|k: int|
                    o <= k < self.output_capabilities@.len()
                        ==> #[trigger] self.output_capabilities@[k] == old(
                        self,
                    ).output_capabilities@[k],
                forall|k: int|
                    o <= k < outputs ==> #[trigger] self.shared_progress.internals@[k] == old(
                        self,
                    ).shared_progress.internals@[k],
            decreases outputs - o,
        {
            let ghost before = *self;
            let changes = to_leaving::<TOuter, TInner>(&pushed_output[o]);
            let surfacing = self.output_capabilities[o].update_iter(&changes);
            self.shared_progress.internals[o].extend(&surfacing);
            proof {
                assert(surfaced::<TOuter, TInner>(
                    &old(self).output_capabilities@[o as int],
                    old(self).shared_progress@.internals[o as int],
                    pushed_output@[o as int]@,
                    &self.output_capabilities@[o as int],
                    self.shared_progress@.internals[o as int],
                ));
                assert forall|k: int| 0 <= k < o implies surfaced::<TOuter, TInner>(
                    &#[trigger] old(self).output_capabilities@[k],
                    old(self).shared_progress@.internals[k],
                    pushed_output@[k]@,
                    &self.output_capabilities@[k],
                    self.shared_progress@.internals[k],
                ) by {
                    assert(self.output_capabilities@[k] == before.output_capabilities@[k]);
                    assert(self.shared_progress.internals@[k]
                        == before.shared_progress.internals@[k]);
                    assert(before.shared_progress@.internals[k]
                        == before.shared_progress.internals@[k]@);
                }
            }
            o += 1;
        }
    }

    /// What is left of a round of propagation once the tracker has done its part: hands the
    /// frontier changes `pushed` to the operators, and reports the changes `pushed_output` at
    /// the outputs of the scope.
    pub fn propagate_pointstamps(
        &mut self,
        pushed: &Vec<(Pointstamp<TInner>, i64)>,
        pushed_output: &Vec<Vec<(TInner, i64)>>,
    )
        requires
            forall|k: int|
                0 <= k < pushed@.len() ==> deliverable(
                    progress_views(old(self).children@),
                    old(self).ghost_wrapper@,
                    (#[trigger] pushed@[k]).0.location,
                ),
            old(self).shared_progress.internals@.len() <= pushed_output@.len(),
            old(self).shared_progress.internals@.len() <= old(self).output_capabilities@.len(),
        ensures
            *final(self) == (Subgraph {
                children: final(self).children,
                temp_active: final(self).temp_active,
                output_capabilities: final(self).output_capabilities,
                shared_progress: final(self).shared_progress,
                ..*old(self)
            }),
            same_operators(final(self).children@, old(self).children@),
            progress_views(final(self).children@) == delivered(
                progress_views(old(self).children@),
                old(self).ghost_wrapper@,
                pushed@,
            ),
            final(self).temp_active@ == old(self).temp_active@.add(
                roused(
                    notify_flags(old(self).children@),
                    old(self).ghost_wrapper@,
                    pushed@,
                    false,
                ).to_multiset(),
            ),
            final(self).shared_progress == (SharedProgress {
                internals: final(self).shared_progress.internals,
                ..old(self).shared_progress
            }),
            final(self).output_capabilities@.len() == old(self).output_capabilities@.len(),
            final(self).shared_progress.internals@.len()
                == old(self).shared_progress.internals@.len(),
            forall|o: int|
                0 <= o < old(self).shared_progress.internals@.len() ==> surfaced::<TOuter, TInner>(
                    &#[trigger] old(self).output_capabilities@[o],
                    old(self).shared_progress@.internals[o],
                    pushed_output@[o]@,
                    &final(self).output_capabilities@[o],
                    final(self).shared_progress@.internals[o],
                ),
            old(self).wf() ==> final(self).wf(),
    {
        self.deliver_frontiers(pushed);
        self.report_outputs(pushed_output);
    }

    /// The first half of a round: takes in frontier changes and messages from the scope
    /// around, and the changes `received` from other workers, and commits what all workers
    /// know. Returns what the tracker is to be told before it propagates.
    pub fn begin_schedule(&mut self, received: &Vec<(Pointstamp<TInner>, i64)>) -> (r:
        TrackerUpdates<TInner>)
        requires
            old(self).wf(),
            at_ports(received@, old(self).inputs as nat, old(self).outputs as nat),
        ensures
            final(self).wf(),
            *final(self) == (Subgraph {
                input_messages: final(self).input_messages,
                local_pointstamp: final(self).local_pointstamp,
                final_pointstamp: final(self).final_pointstamp,
                shared_progress: final(self).shared_progress,
                ..*old(self)
            }),
            r.sources@ == entering_from::<TOuter, TInner>(old(self).shared_progress@.frontiers, 0),
            contents(final(self).input_messages@) == no_changes::<TInner>(
                old(self).inputs as nat,
            ),
            final(self).local_pointstamp@ == extended(
                old(self).local_pointstamp@,
                harvested_from(
                    route_targets(old(self).children@[0].ghost_edges@),
                    contents(old(self).input_messages@),
                    0,
                ),
            ),
            final(self).final_pointstamp@ == Seq::<(Pointstamp<TInner>, i64)>::empty(),
            r.pointstamps@ == inside(extended(old(self).final_pointstamp@, received@)),
            final(self).shared_progress@ == committed(
                ProgressContents {
                    frontiers: no_changes::<TOuter>(old(self).inputs as nat),
                    ..old(self).shared_progress@
                },
                extended(old(self).final_pointstamp@, received@),
            ),
    {
        let sources = self.accept_frontier();
        self.harvest_inputs();
        self.final_pointstamp.extend(received);
        proof {
            lemma_ports_extended(
                old(self).final_pointstamp@,
                received@,
                self.inputs as nat,
                self.outputs as nat,
            );
        }
        let pointstamps = self.commit_pointstamps();
        TrackerUpdates { sources, pointstamps }
    }

    /// Adds the operators that asked to be scheduled.
    pub fn enqueue(&mut self, active: &Vec<usize>)
        ensures
            *final(self) == (Subgraph { temp_active: final(self).temp_active, ..*old(self) }),
            final(self).temp_active@ == old(self).temp_active@.add(active@.to_multiset()),
            old(self).wf() ==> final(self).wf(),
    {
        let ghost start = self.temp_active@;
        let mut i: usize = 0;
        proof {
            lemma_small_bags();
            assert(active@.take(0) =~= Seq::<usize>::empty());
            assert(start =~= start.add(Multiset::<usize>::empty()));
        }
        while i < active.len()
            invariant
                i <= active@.len(),
                *self == (Subgraph { temp_active: self.temp_active, ..*old(self) }),
                self.temp_active@ == start.add(active@.take(i as int).to_multiset()),
            decreases active@.len() - i,
        {
            let ghost before = active@.take(i as int);
            self.temp_active.push(active[i]);
            assert(active@.take(i + 1) =~= before.push(active@[i as int]));
            assert(self.temp_active@ =~= start.add(active@.take(i + 1).to_multiset()));
            i += 1;
        }
        assert(active@.take(i as int) =~= active@);
    }

    /// The next operator to schedule after `previous`: the lowest index above it. An index
    /// that is not above it is dropped, so that within a round indexes ascend and none comes
    /// twice.
    pub fn next_child(&mut self, previous: usize) -> (r: Option<usize>)
        ensures
            *final(self) == (Subgraph { temp_active: final(self).temp_active, ..*old(self) }),
            match r {
                None => used_up(old(self).temp_active@, previous, final(self).temp_active@),
                Some(x) => handed_out(old(self).temp_active@, previous, x, final(self).temp_active@),
            },
            old(self).wf() ==> final(self).wf(),
    {
        self.temp_active.next_after(previous)
    }

    /// Whether other workers must be told of the local changes, where `global` tells of each of
    /// them whether it is visible in the whole scope: either all are to be told, or a change
    /// that is visible takes something away.
    pub fn must_send(&self, global: &Vec<bool>) -> (r: bool)
        requires
            !self.eager_progress_send ==> global@.len() == self.local_pointstamp@.len(),
        ensures
            r == (self.eager_progress_send || exists|k: int|
                0 <= k < self.local_pointstamp@.len() && global@[k] && (
                #[trigger] self.local_pointstamp@[k]).1 < 0),
    {
        if self.eager_progress_send {
            return true;
        }
        let entries = self.local_pointstamp.entries();
        let mut i: usize = 0;
        while i < entries.len()
            invariant
                i <= entries@.len(),
                entries@ == self.local_pointstamp@,
                global@.len() == entries@.len(),
                !self.eager_progress_send,
                forall|k: int|
                    0 <= k < i ==> !(global@[k] && (#[trigger] self.local_pointstamp@[k]).1 < 0),
            decreases entries@.len() - i,
        {
            if global[i] && entries[i].1 < 0 {
                assert(self.local_pointstamp@[i as int].1 < 0);
                return true;
            }
            i += 1;
        }
        false
    }

    /// Takes out the local changes where other workers must be told of them.
    pub fn send_progress(&mut self, global: &Vec<bool>) -> (r: Option<
        Vec<(Pointstamp<TInner>, i64)>,
    >)
        requires
            !old(self).eager_progress_send ==> global@.len() == old(self).local_pointstamp@.len(),
        ensures
            *final(self) == (Subgraph {
                local_pointstamp: final(self).local_pointstamp,
                ..*old(self)
            }),
            r is Some <==> (old(self).eager_progress_send || exists|k: int|
                0 <= k < old(self).local_pointstamp@.len() && global@[k] && (#[trigger] old(
                    self,
                ).local_pointstamp@[k]).1 < 0),
            match r {
                Some(sent) => {
                    &&& sent@ == old(self).local_pointstamp@
                    &&& final(self).local_pointstamp@ == Seq::<(Pointstamp<TInner>, i64)>::empty()
                },
                None => final(self).local_pointstamp@ == old(self).local_pointstamp@,
            },
            forall|k: int|
                0 <= k < final(self).local_pointstamp@.len() ==> !(global@[k] && (
                #[trigger] final(self).local_pointstamp@[k]).1 < 0),
            old(self).wf() ==> final(self).wf(),
    {
        if self.must_send(global) {
            Some(self.local_pointstamp.drain())
        } else {
            None
        }
    }

    /// How a round ends: whether the scope is to be scheduled again at once, since operators
    /// have changed what all workers know, and whether it is incomplete, where `tracking`
    /// tells whether the tracker has outstanding pointstamps.
    pub fn end_schedule(&self, tracking: bool) -> (r: (bool, bool))
        requires
            self.wf(),
        ensures
            r.0 == (self.final_pointstamp@.len() > 0),
            r.1 == (tracking || exists|i: int|
                0 <= i < self.children@.len() && #[trigger] self.incomplete@[i]),
    {
        proof {
            lemma_some_set(self.incomplete@);
        }
        let again = !self.final_pointstamp.is_empty();
        let incomplete = self.incomplete_count > 0;
        (again, incomplete || tracking)
    }
}

/// Whether nothing can reach the inputs of a node any more and it holds no capabilities.
pub open spec fn is_quiet<T: Timestamp>(state: &PerOperator<T>) -> bool {
    &&& forall|i: int|
        0 <= i < state.targets@.len() ==> (
        #[trigger] state.targets@[i]).implications.minimal().len() == 0
    &&& forall|i: int|
        0 <= i < state.sources@.len() ==> (
        #[trigger] state.sources@[i]).pointstamps.minimal().len() == 0
}

/// Decides whether nothing can reach a node any more and it holds no capabilities.
fn quiet<T: Timestamp>(state: &PerOperator<T>) -> (r: bool)
    ensures
        r == is_quiet(state),
{
    let mut i: usize = 0;
    while i < state.targets.len()
        invariant
            i <= state.targets@.len(),
            forall|k: int|
                0 <= k < i ==> (#[trigger] state.targets@[k]).implications.minimal().len() == 0,
        decreases state.targets@.len() - i,
    {
        if !state.targets[i].implications.is_empty() {
            assert(state.targets@[i as int].implications.minimal().len() != 0);
            return false;
        }
        i += 1;
    }
    let mut j: usize = 0;
    while j < state.sources.len()
        invariant
            j <= state.sources@.len(),
            forall|k: int|
                0 <= k < j ==> (#[trigger] state.sources@[k]).pointstamps.minimal().len() == 0,
        decreases state.sources@.len() - j,
    {
        if !state.sources[j].pointstamps.is_empty() {
            assert(state.sources@[j as int].pointstamps.minimal().len() != 0);
            return false;
        }
        j += 1;
    }
    true
}

/// Setting one flag changes the number of set flags by one, or not at all.
proof fn lemma_set_count(flags: Seq<bool>, i: int, value: bool)
    requires
        0 <= i < flags.len(),
    ensures
        set_count(flags.update(i, value)) == set_count(flags) + (if value && !flags[i] {
            1int
        } else if !value && flags[i] {
            -1int
        } else {
            0
        }),
    decreases flags.len(),
{
    let next = flags.update(i, value);
    if i == flags.len() - 1 {
        assert(next.drop_last() =~= flags.drop_last());
    } else {
        assert(next.drop_last() =~= flags.drop_last().update(i, value));
        lemma_set_count(flags.drop_last(), i, value);
    }
}

/// What the children of a scope hold is not too much to be counted.
proof fn lemma_countable<T: Timestamp>(p: SharedProgress<T>, ghosts: Seq<usize>)
    requires
        has_nodes(p@, ghosts),
    ensures
        countable(p@, ghosts),
        p@.consumeds.len() <= usize::MAX,
        p@.internals.len() <= usize::MAX,
{
    lemma_contents_len(p);
    assert(p.consumeds@.len() == p.consumeds.len());
    assert(p.internals@.len() == p.internals.len());
    assert forall|i: int| 0 <= i < ghosts.len() implies {
        &&& p@.wrapper_consumeds[#[trigger] ghosts[i]].len() <= usize::MAX
        &&& p@.wrapper_internals[ghosts[i]].len() <= usize::MAX
        &&& p@.wrapper_produceds[ghosts[i]].len() <= usize::MAX
    } by {
        let g = ghosts[i];
        assert(p.wrapper_consumeds@[g]@.len() == p.wrapper_consumeds@[g].len());
        assert(p.wrapper_internals@[g]@.len() == p.wrapper_internals@[g].len());
        assert(p.wrapper_produceds@[g]@.len() == p.wrapper_produceds@[g].len());
    }
}

/// Places for reports stay when reports are taken out.
proof fn lemma_nodes_after<T>(p: ProgressContents<T>, taken: Seq<usize>, ghosts: Seq<usize>)
    requires
        has_nodes(p, ghosts),
    ensures
        has_nodes(without_own(without_nodes(p, taken)), ghosts),
    decreases taken.len(),
{
    if taken.len() > 0 {
        lemma_nodes_after(crate::per_operator::without_node(p, taken[0]), taken.drop_first(), ghosts);
    }
}

impl<TOuter: Timestamp, TInner: Refines<TOuter>> Subgraph<TOuter, TInner> {
    /// The reports of child `i` concern ports that the scope has.
    proof fn lemma_child_ports(&self, i: int)
        requires
            self.wf(),
            0 <= i < self.children@.len(),
        ensures
            at_ports(
                self.children@[i].statements(self.wrapper_ghost@, self.wrapper_ghost_edges@),
                self.inputs as nat,
                self.outputs as nat,
            ),
    {
        let child = self.children@[i];
        let ghosts = child.ghosts(self.wrapper_ghost@);
        lemma_countable(child.shared_progress, ghosts);
        lemma_contents_len(child.shared_progress);
        let edges = crate::per_operator::ghost_edges_at(self.wrapper_ghost_edges@, child.index);
        assert(ghosts.len() > 0 ==> edges_ok(edges, self.outputs as nat));
        if ghosts.len() == 0 {
            lemma_ports_statements(
                child.shared_progress@,
                ghosts,
                Seq::empty(),
                child.index,
                route_targets(child.ghost_edges@),
                self.inputs as nat,
                self.outputs as nat,
            );
        } else {
            lemma_ports_statements(
                child.shared_progress@,
                ghosts,
                edges,
                child.index,
                route_targets(child.ghost_edges@),
                self.inputs as nat,
                self.outputs as nat,
            );
        }
    }

    /// Takes the reports out of child `i`, into the changes that all workers know where
    /// `known` says so, else into those to tell them.
    fn extract_child(&mut self, i: usize, known: bool)
        requires
            old(self).wf(),
            i < old(self).children@.len(),
        ensures
            final(self).wf(),
            *final(self) == (Subgraph {
                children: final(self).children,
                temp_active: final(self).temp_active,
                local_pointstamp: final(self).local_pointstamp,
                final_pointstamp: final(self).final_pointstamp,
                ..*old(self)
            }),
            final(self).children@.len() == old(self).children@.len(),
            forall|k: int|
                0 <= k < old(self).children@.len() && k != i ==> #[trigger] final(self).children@[k]
                    == old(self).children@[k],
            final(self).children@[i as int].same_operator(&old(self).children@[i as int]),
            final(self).children@[i as int].shared_progress@ == without_own(
                without_nodes(
                    old(self).children@[i as int].shared_progress@,
                    old(self).children@[i as int].ghosts(old(self).wrapper_ghost@),
                ),
            ),
            known ==> final(self).local_pointstamp == old(self).local_pointstamp,
            !known ==> final(self).final_pointstamp == old(self).final_pointstamp,
            (if known {
                final(self).final_pointstamp@
            } else {
                final(self).local_pointstamp@
            }) == extended(
                if known {
                    old(self).final_pointstamp@
                } else {
                    old(self).local_pointstamp@
                },
                old(self).children@[i as int].statements(
                    old(self).wrapper_ghost@,
                    old(self).wrapper_ghost_edges@,
                ),
            ),
            final(self).temp_active@ == old(self).temp_active@.add(
                old(self).children@[i as int].woken(
                    old(self).wrapper_ghost@,
                    old(self).wrapper_ghost_edges@,
                ).to_multiset(),
            ),
    {
        let ghost said = self.children@[i as int].statements(
            self.wrapper_ghost@,
            self.wrapper_ghost_edges@,
        );
        let ghost nodes = self.children@[i as int].ghosts(self.wrapper_ghost@);
        proof {
            self.lemma_child_ports(i as int);
            lemma_nodes_after(self.children@[i as int].shared_progress@, nodes, nodes);
            lemma_ports_extended(
                self.local_pointstamp@,
                said,
                self.inputs as nat,
                self.outputs as nat,
            );
            lemma_ports_extended(
                self.final_pointstamp@,
                said,
                self.inputs as nat,
                self.outputs as nat,
            );
        }
        if known {
            self.children[i].extract_progress(
                &self.wrapper_ghost,
                &self.wrapper_ghost_edges,
                &mut self.final_pointstamp,
                &mut self.temp_active,
            );
        } else {
            self.children[i].extract_progress(
                &self.wrapper_ghost,
                &self.wrapper_ghost_edges,
                &mut self.local_pointstamp,
                &mut self.temp_active,
            );
        }
        assert forall|k: int|
            0 <= k < old(self).children@.len() && k != i implies #[trigger] self.children@[k]
            == old(self).children@[k] by {}
    }

    /// Whether the outcome of scheduling a child can be taken: no frontier change waits for a
    /// closed operator, and the state tracked at an incomplete operator covers its outputs.
    pub open spec fn may_activate(
        &self,
        child_index: usize,
        answer: bool,
        child_state: &PerOperator<TInner>,
    ) -> bool {
        let child = self.children@[child_index as int];
        let incomplete = child.running && answer;
        &&& !child.running ==> forall|i: int|
            0 <= i < child.shared_progress@.frontiers.len()
                ==> #[trigger] child.shared_progress@.frontiers[i] == Seq::<(TInner, i64)>::empty()
        &&& incomplete ==> child.outputs <= child_state.sources@.len()
    }

    /// Takes the outcome of scheduling child `child_index`: `answer` is what a running operator
    /// said of being incomplete, and `child_state` what is tracked at its ports.
    ///
    /// A complete operator that stands for no device-side nodes, that nothing can reach any
    /// more and that holds no capabilities, is closed. Of an incomplete operator the reports
    /// are tested: the second result is what is wrong with them. Then the reports are taken
    /// out. The first result tells whether the operator is incomplete; the third announces that
    /// it was closed.
    pub fn activate_child(
        &mut self,
        child_index: usize,
        answer: bool,
        child_state: &PerOperator<TInner>,
    ) -> (r: (bool, Option<ProgressError<TInner>>, Option<ShutdownEvent>))
        requires
            old(self).wf(),
            child_index < old(self).children@.len(),
            old(self).may_activate(child_index, answer, child_state),
        ensures
            final(self).wf(),
            *final(self) == (Subgraph {
                children: final(self).children,
                incomplete: final(self).incomplete,
                incomplete_count: final(self).incomplete_count,
                temp_active: final(self).temp_active,
                local_pointstamp: final(self).local_pointstamp,
                final_pointstamp: final(self).final_pointstamp,
                ..*old(self)
            }),
            r.0 == (old(self).children@[child_index as int].running && answer),
            r.1 == (if r.0 {
                progress_error(
                    old(self).children@[child_index as int].shared_progress@,
                    implied_at(child_state),
                )
            } else {
                None
            }),
            r.2 == (if old(self).children@[child_index as int].running
                && !final(self).children@[child_index as int].running {
                Some(ShutdownEvent { id: old(self).children@[child_index as int].id })
            } else {
                None
            }),
            final(self).incomplete@ == old(self).incomplete@.update(child_index as int, r.0),
            final(self).incomplete_count == set_count(final(self).incomplete@),
            final(self).children@.len() == old(self).children@.len(),
            forall|k: int|
                0 <= k < old(self).children@.len() && k != child_index
                    ==> #[trigger] final(self).children@[k] == old(self).children@[k],
            final(self).children@[child_index as int].closed_if(
                &old(self).children@[child_index as int],
                !r.0 && !old(self).wrapper_ghost@.contains_key(child_index) && is_quiet(
                    child_state,
                ),
            ),
            final(self).children@[child_index as int].shared_progress@ == without_own(
                without_nodes(
                    old(self).children@[child_index as int].shared_progress@,
                    old(self).children@[child_index as int].ghosts(old(self).wrapper_ghost@),
                ),
            ),
            final(self).local_pointstamp@ == (if old(self).children@[child_index as int].local {
                extended(
                    old(self).local_pointstamp@,
                    old(self).children@[child_index as int].statements(
                        old(self).wrapper_ghost@,
                        old(self).wrapper_ghost_edges@,
                    ),
                )
            } else {
                old(self).local_pointstamp@
            }),
            final(self).final_pointstamp@ == (if old(self).children@[child_index as int].local {
                old(self).final_pointstamp@
            } else {
                extended(
                    old(self).final_pointstamp@,
                    old(self).children@[child_index as int].statements(
                        old(self).wrapper_ghost@,
                        old(self).wrapper_ghost_edges@,
                    ),
                )
            }),
            final(self).temp_active@ == old(self).temp_active@.add(
                old(self).children@[child_index as int].woken(
                    old(self).wrapper_ghost@,
                    old(self).wrapper_ghost_edges@,
                ).to_multiset(),
            ),
    {
        let ghost start = self.children@[child_index as int];
        proof {
            lemma_contents_len(start.shared_progress);
        }
        let incomplete = self.children[child_index].schedule(answer);
        proof {
            assert(self.incomplete.len() == self.incomplete@.len());
            lemma_some_set(self.incomplete@);
            lemma_some_set(self.incomplete@.update(child_index as int, incomplete));
            lemma_set_count(self.incomplete@, child_index as int, incomplete);
            assert(self.incomplete@.update(child_index as int, self.incomplete@[child_index as int])
                =~= self.incomplete@);
        }
        if incomplete != self.incomplete[child_index] {
            if incomplete {
                self.incomplete_count += 1;
            } else {
                self.incomplete_count -= 1;
            }
            self.incomplete.set(child_index, incomplete);
        }
        let mut error: Option<ProgressError<TInner>> = None;
        let mut closed: Option<ShutdownEvent> = None;
        if !incomplete {
            if !self.wrapper_ghost.contains_key(&child_index) {
                if quiet(child_state) {
                    closed = self.children[child_index].shut_down();
                }
            }
        } else {
            match self.children[child_index].validate_progress(child_state) {
                Ok(_) => {},
                Err(e) => {
                    error = Some(e);
                },
            }
        }
        proof {
            assert(self.children@[child_index as int].shared_progress == start.shared_progress);
            assert(self.wf());
        }
        let known = !self.children[child_index].local;
        self.extract_child(child_index, known);
        (incomplete, error, closed)
    }
}

/// The antichain of what inner paths do to outer times.
pub open spec fn summarized<TOuter: Timestamp, TInner: Refines<TOuter>>(
    paths: Seq<TInner::Summary>,
) -> Seq<TOuter::Summary> {
    all_inserted(
        Seq::<TOuter::Summary>::empty(),
        paths.map_values(|s: TInner::Summary| TInner::summary_of(s)),
    )
}

/// By input and output of a scope, what the paths between them do to outer times.
pub open spec fn scope_paths<TOuter: Timestamp, TInner: Refines<TOuter>>(
    paths: Seq<Seq<Seq<TInner::Summary>>>,
    inputs: nat,
    outputs: nat,
) -> Seq<Seq<Seq<TOuter::Summary>>> {
    Seq::new(
        inputs,
        |i: int|
            Seq::new(
                outputs,
                |o: int|
                    if i < paths.len() && o < paths[i].len() {
                        summarized::<TOuter, TInner>(paths[i][o])
                    } else {
                        Seq::<TOuter::Summary>::empty()
                    },
            ),
    )
}

/// The antichain of what inner paths do to outer times.
fn summarize_paths<TOuter: Timestamp, TInner: Refines<TOuter>>(
    paths: &Antichain<TInner::Summary>,
) -> (r: Antichain<TOuter::Summary>)
    ensures
        r@ == summarized::<TOuter, TInner>(paths@),
{
    let ghost list = paths@.map_values(|s: TInner::Summary| TInner::summary_of(s));
    let ghost goal = summarized::<TOuter, TInner>(paths@);
    let elements = paths.elements();
    let mut r: Antichain<TOuter::Summary> = Antichain::new();
    let mut i: usize = 0;
    assert(list.skip(0) =~= list);
    while i < elements.len()
        invariant
            i <= elements@.len(),
            elements@ == paths@,
            list == paths@.map_values(|s: TInner::Summary| TInner::summary_of(s)),
            all_inserted(r@, list.skip(i as int)) == goal,
        decreases elements@.len() - i,
    {
        assert(list.skip(i as int)[0] == list[i as int]);
        assert(list.skip(i as int).drop_first() =~= list.skip(i + 1));
        r.insert(TInner::summarize(elements[i]));
        i += 1;
    }
    assert(list.skip(i as int).len() == 0);
    r
}

/// By input and output of a scope, what the paths between them do to outer times.
fn summarize_scope<TOuter: Timestamp, TInner: Refines<TOuter>>(
    scope_summary: &Vec<Vec<Antichain<TInner::Summary>>>,
    inputs: usize,
    outputs: usize,
) -> (r: Vec<Vec<Antichain<TOuter::Summary>>>)
    ensures
        summary_elements(r@) == scope_paths::<TOuter, TInner>(
            summary_elements(scope_summary@),
            inputs as nat,
            outputs as nat,
        ),
{
    let ghost paths = summary_elements(scope_summary@);
    let ghost goal = scope_paths::<TOuter, TInner>(paths, inputs as nat, outputs as nat);
    let mut r: Vec<Vec<Antichain<TOuter::Summary>>> = Vec::new();
    let mut i: usize = 0;
    while i < inputs
        invariant
            i <= inputs,
            r@.len() == i,
            paths == summary_elements(scope_summary@),
            goal == scope_paths::<TOuter, TInner>(paths, inputs as nat, outputs as nat),
            forall|k: int| 0 <= k < i ==> row_elements((#[trigger] r@[k])@) == goal[k],
        decreases inputs - i,
    {
        let mut row: Vec<Antichain<TOuter::Summary>> = Vec::new();
        let mut o: usize = 0;
        while o < outputs
            invariant
                i < inputs,
                o <= outputs,
                row@.len() == o,
                paths == summary_elements(scope_summary@),
                goal == scope_paths::<TOuter, TInner>(paths, inputs as nat, outputs as nat),
                forall|k: int| 0 <= k < o ==> (#[trigger] row@[k])@ == goal[i as int][k],
            decreases outputs - o,
        {
            let cell = if i < scope_summary.len() && o < scope_summary[i].len() {
                assert(paths[i as int] == row_elements(scope_summary@[i as int]@));
                assert(paths[i as int][o as int] == scope_summary@[i as int]@[o as int]@);
                summarize_paths::<TOuter, TInner>(&scope_summary[i][o])
            } else {
                assert(i < paths.len() ==> paths[i as int] == row_elements(
                    scope_summary@[i as int]@,
                ));
                Antichain::new()
            };
            row.push(cell);
            o += 1;
        }
        assert(row_elements(row@) =~= goal[i as int]);
        r.push(row);
        i += 1;
    }
    assert(summary_elements(r@) =~= goal);
    r
}

/// All that the operators from `from` on report, device-side nodes left out.
pub open spec fn all_statements<T: Timestamp>(
    children: Seq<PerOperatorState<T>>,
    ghost_wrapper: Map<usize, usize>,
    wrapper_ghost: Map<usize, Vec<usize>>,
    wrapper_ghost_edges: Map<usize, Vec<(usize, usize)>>,
    from: nat,
) -> Seq<(Pointstamp<T>, i64)>
    decreases children.len() - from,
{
    if from >= children.len() {
        Seq::empty()
    } else {
        let rest = all_statements(
            children,
            ghost_wrapper,
            wrapper_ghost,
            wrapper_ghost_edges,
            from + 1,
        );
        let child = children[from as int];
        if ghost_wrapper.contains_key(child.index) {
            rest
        } else {
            child.statements(wrapper_ghost, wrapper_ghost_edges) + rest
        }
    }
}

/// The operators that what the operators from `from` on produced wakes.
pub open spec fn all_woken<T: Timestamp>(
    children: Seq<PerOperatorState<T>>,
    ghost_wrapper: Map<usize, usize>,
    wrapper_ghost: Map<usize, Vec<usize>>,
    wrapper_ghost_edges: Map<usize, Vec<(usize, usize)>>,
    from: nat,
) -> Seq<usize>
    decreases children.len() - from,
{
    if from >= children.len() {
        Seq::empty()
    } else {
        let rest = all_woken(
            children,
            ghost_wrapper,
            wrapper_ghost,
            wrapper_ghost_edges,
            from + 1,
        );
        let child = children[from as int];
        if ghost_wrapper.contains_key(child.index) {
            rest
        } else {
            child.woken(wrapper_ghost, wrapper_ghost_edges) + rest
        }
    }
}

/// The progress information of a child once its reports were taken out. Those of a device-side
/// node stay.
pub open spec fn emptied<T: Timestamp>(
    child: PerOperatorState<T>,
    ghost_wrapper: Map<usize, usize>,
    wrapper_ghost: Map<usize, Vec<usize>>,
) -> ProgressContents<T> {
    if ghost_wrapper.contains_key(child.index) {
        child.shared_progress@
    } else {
        without_own(without_nodes(child.shared_progress@, child.ghosts(wrapper_ghost)))
    }
}

impl<TOuter: Timestamp, TInner: Refines<TOuter>> Subgraph<TOuter, TInner> {
    /// Takes out what the operators report at first, as changes that all workers know.
    fn extract_children(&mut self)
        requires
            old(self).wf(),
        ensures
            final(self).wf(),
            *final(self) == (Subgraph {
                children: final(self).children,
                temp_active: final(self).temp_active,
                final_pointstamp: final(self).final_pointstamp,
                ..*old(self)
            }),
            same_operators(final(self).children@, old(self).children@),
            forall|k: int|
                0 <= k < old(self).children@.len() ==> (#[trigger] final(
                    self).children@[k]).shared_progress@ == emptied(
                    old(self).children@[k],
                    old(self).ghost_wrapper@,
                    old(self).wrapper_ghost@,
                ),
            final(self).final_pointstamp@ == extended(
                old(self).final_pointstamp@,
                all_statements(
                    old(self).children@,
                    old(self).ghost_wrapper@,
                    old(self).wrapper_ghost@,
                    old(self).wrapper_ghost_edges@,
                    0,
                ),
            ),
            final(self).temp_active@ == old(self).temp_active@.add(
                all_woken(
                    old(self).children@,
                    old(self).ghost_wrapper@,
                    old(self).wrapper_ghost@,
                    old(self).wrapper_ghost_edges@,
                    0,
                ).to_multiset(),
            ),
    {
        let ghost children = self.children@;
        let ghost gw = self.ghost_wrapper@;
        let ghost wg = self.wrapper_ghost@;
        let ghost wge = self.wrapper_ghost_edges@;
        let ghost goal = extended(
            self.final_pointstamp@,
            all_statements(children, gw, wg, wge, 0),
        );
        let ghost woken = self.temp_active@.add(
            all_woken(children, gw, wg, wge, 0).to_multiset(),
        );
        let mut i: usize = 0;
        while i < self.children.len()
            invariant
                i <= self.children@.len(),
                self.wf(),
                *self == (Subgraph {
                    children: self.children,
                    temp_active: self.temp_active,
                    final_pointstamp: self.final_pointstamp,
                    ..*old(self)
                }),
                children == old(self).children@,
                gw == self.ghost_wrapper@,
                wg == self.wrapper_ghost@,
                wge == self.wrapper_ghost_edges@,
                same_operators(self.children@, children),
                forall|k: int|
                    0 <= k < i ==> (#[trigger] self.children@[k]).shared_progress@ == emptied(
                        children[k],
                        gw,
                        wg,
                    ),
                forall|k: int| i <= k < children.len() ==> #[trigger] self.children@[k]
                    == children[k],
                extended(
                    self.final_pointstamp@,
                    all_statements(children, gw, wg, wge, i as nat),
                ) == goal,
                self.temp_active@.add(
                    all_woken(children, gw, wg, wge, i as nat).to_multiset(),
                ) == woken,
            decreases self.children@.len() - i,
        {
            assert(self.children@[i as int] == children[i as int]);
            if !self.ghost_wrapper.contains_key(&self.children[i].index) {
                let ghost bag = self.temp_active@;
                let ghost own = children[i as int].woken(wg, wge);
                let ghost rest = all_woken(children, gw, wg, wge, (i + 1) as nat);
                proof {
                    law_extend_in_parts(
                        self.final_pointstamp@,
                        children[i as int].statements(wg, wge),
                        all_statements(children, gw, wg, wge, (i + 1) as nat),
                    );
                    crate::active::lemma_bag_join(own, rest);
                }
                self.extract_child(i, true);
                assert(self.temp_active@.add(rest.to_multiset()) =~= bag.add(
                    (own + rest).to_multiset(),
                ));
            }
            i += 1;
        }
        proof {
            lemma_small_bags();
            assert(self.temp_active@ =~= self.temp_active@.add(Multiset::<usize>::empty()));
        }
    }

    /// What the paths through the scope do to outer times, where `scope_summary` is what they
    /// do to inner times; and the initial capabilities of the operators, as changes that the
    /// tracker is to be told before it propagates.
    pub fn get_internal_summary(
        &mut self,
        scope_summary: &Vec<Vec<Antichain<TInner::Summary>>>,
    ) -> (r: (Vec<Vec<Antichain<TOuter::Summary>>>, Vec<(Pointstamp<TInner>, i64)>))
        requires
            old(self).wf(),
            scope_summary@.len() <= old(self).inputs,
            forall|i: int|
                0 <= i < scope_summary@.len() ==> (#[trigger] scope_summary@[i])@.len()
                    <= old(self).outputs,
        ensures
            final(self).wf(),
            *final(self) == (Subgraph {
                children: final(self).children,
                temp_active: final(self).temp_active,
                final_pointstamp: final(self).final_pointstamp,
                shared_progress: final(self).shared_progress,
                ..*old(self)
            }),
            summary_elements(r.0@) == scope_paths::<TOuter, TInner>(
                summary_elements(scope_summary@),
                old(self).inputs as nat,
                old(self).outputs as nat,
            ),
            same_operators(final(self).children@, old(self).children@),
            forall|k: int|
                0 <= k < old(self).children@.len() ==> (#[trigger] final(
                    self).children@[k]).shared_progress@ == emptied(
                    old(self).children@[k],
                    old(self).ghost_wrapper@,
                    old(self).wrapper_ghost@,
                ),
            final(self).final_pointstamp@ == Seq::<(Pointstamp<TInner>, i64)>::empty(),
            r.1@ == inside(old(self).initial_pointstamps()),
            final(self).shared_progress@ == committed(
                old(self).shared_progress@,
                old(self).initial_pointstamps(),
            ),
            final(self).temp_active@ == old(self).temp_active@.add(
                all_woken(
                    old(self).children@,
                    old(self).ghost_wrapper@,
                    old(self).wrapper_ghost@,
                    old(self).wrapper_ghost_edges@,
                    0,
                ).to_multiset(),
            ),
    {
        let internal_summary = summarize_scope::<TOuter, TInner>(
            scope_summary,
            self.inputs,
            self.outputs,
        );
        self.extract_children();
        let updates = self.commit_pointstamps();
        (internal_summary, updates)
    }

    /// The changes that all workers know once the operators have said what they hold at first.
    pub open spec fn initial_pointstamps(&self) -> Seq<(Pointstamp<TInner>, i64)> {
        extended(
            self.final_pointstamp@,
            all_statements(
                self.children@,
                self.ghost_wrapper@,
                self.wrapper_ghost@,
                self.wrapper_ghost_edges@,
                0,
            ),
        )
    }

    /// The operators that are to be told that the scope around is complete: those that run.
    pub fn running_children(&self) -> (r: Vec<usize>)
        ensures
            r@ == running_from(self.children@, self.children@.len()),
    {
        let mut r: Vec<usize> = Vec::new();
        let mut i: usize = 0;
        while i < self.children.len()
            invariant
                i <= self.children@.len(),
                r@ == running_from(self.children@, i as nat),
            decreases self.children@.len() - i,
        {
            if self.children[i].running {
                r.push(i);
            }
            i += 1;
        }
        r
    }

    /// The name of the scope.
    pub fn name(&self) -> (r: &String)
        ensures
            *r == self.name,
    {
        &self.name
    }

    /// Indexes that lead to the scope from the root.
    pub fn path(&self) -> (r: &Vec<usize>)
        ensures
            *r == self.path,
    {
        &self.path
    }

    /// Whether the scope exchanges no data with other workers. A scope may.
    pub fn local(&self) -> (r: bool)
        ensures
            !r,
    {
        false
    }

    /// Number of inputs.
    pub fn inputs(&self) -> (r: usize)
        ensures
            r == self.inputs,
    {
        self.inputs
    }

    /// Number of outputs.
    pub fn outputs(&self) -> (r: usize)
        ensures
            r == self.outputs,
    {
        self.outputs
    }
}

/// The indexes of the operators that run, of the first `n`.
pub open spec fn running_from<T: Timestamp>(children: Seq<PerOperatorState<T>>, n: nat) -> Seq<usize>
    decreases n,
{
    if n == 0 {
        Seq::empty()
    } else {
        let before = running_from(children, (n - 1) as nat);
        if children[n - 1].running {
            before.push((n - 1) as usize)
        } else {
            before
        }
    }
}

/// By how much `changes` change the count of outer time `t` at `location`.
pub open spec fn total_at<TOuter: Timestamp, TInner: Refines<TOuter>>(
    changes: Seq<(Pointstamp<TInner>, i64)>,
    location: Location,
    t: TOuter,
) -> int
    decreases changes.len(),
{
    if changes.len() == 0 {
        0
    } else {
        let here = changes[0].0.location == location && changes[0].0.time.outer_of() == t;
        (if here {
            changes[0].1 as int
        } else {
            0
        }) + total_at::<TOuter, TInner>(changes.drop_first(), location, t)
    }
}

/// What a scope commits, it tells the scope around exactly: the messages it says it produced at
/// an output are those that arrived at that input of child zero, and the messages it says it
/// consumed at an input are those that left that output of child zero. Counts are in two's
/// complement.
pub proof fn law_commit_reports_outside<TOuter: Timestamp, TInner: Refines<TOuter>>(
    p: ProgressContents<TOuter>,
    changes: Seq<(Pointstamp<TInner>, i64)>,
    port: usize,
    t: TOuter,
)
    requires
        at_ports(changes, p.consumeds.len(), p.produceds.len()),
        forall|k: int| 0 <= k < p.consumeds.len() ==> compacted(#[trigger] p.consumeds[k]),
        forall|k: int| 0 <= k < p.produceds.len() ==> compacted(#[trigger] p.produceds[k]),
    ensures
        committed(p, changes).consumeds.len() == p.consumeds.len(),
        committed(p, changes).produceds.len() == p.produceds.len(),
        port < p.produceds.len() ==> count(committed(p, changes).produceds[port as int], t)
            == wrapped(
            count(p.produceds[port as int], t) + total_at::<TOuter, TInner>(
                changes,
                Location { node: 0, port: Port::Target(port) },
                t,
            ),
        ),
        port < p.consumeds.len() ==> count(committed(p, changes).consumeds[port as int], t)
            == wrapped(
            count(p.consumeds[port as int], t) - total_at::<TOuter, TInner>(
                changes,
                Location { node: 0, port: Port::Source(port) },
                t,
            ),
        ),
    decreases changes.len(),
{
    if changes.len() > 0 {
        let change = changes[0];
        let q = committed_one(p, change);
        let rest = changes.drop_first();
        assert(port_ok(change.0.location, p.consumeds.len(), p.produceds.len()));
        if change.0.location.node == 0 {
            let outer = change.0.time.outer_of();
            match change.0.location.port {
                Port::Source(i) => {
                    law_update_counts(p.consumeds[i as int], outer, negated(change.1), t);
                },
                Port::Target(o) => {
                    law_update_counts(p.produceds[o as int], outer, change.1, t);
                },
            }
        }
        assert forall|k: int| 0 <= k < rest.len() implies port_ok(
            (#[trigger] rest[k]).0.location,
            q.consumeds.len(),
            q.produceds.len(),
        ) by {
            assert(rest[k] == changes[k + 1]);
        }
        law_commit_reports_outside(q, rest, port, t);
    }
}

/// What a scope hands to the tracker is inside the scope: messages that leave it are not
/// tracked any more.
pub proof fn law_outside_not_tracked<T>(changes: Seq<(Pointstamp<T>, i64)>, k: int)
    requires
        0 <= k < inside(changes).len(),
    ensures
        inside(changes)[k].0.location.node != 0,
        changes.contains(inside(changes)[k]),
{
    let keep = |c: (Pointstamp<T>, i64)| c.0.location.node != 0;
    changes.lemma_filter_pred(keep, k);
    assert(inside(changes).contains(inside(changes)[k]));
    changes.lemma_filter_contains_rev(keep, inside(changes)[k]);
}

/// A run of frontier changes at device-side nodes that do not ask to be scheduled wakes one
/// operator: that which stands for the first of them.
pub proof fn law_wrapper_woken_once<T>(
    notify: Seq<bool>,
    ghost_wrapper: Map<usize, usize>,
    changes: Seq<(Pointstamp<T>, i64)>,
)
    requires
        changes.len() > 0,
        forall|k: int|
            0 <= k < changes.len() ==> at_ghost(
                ghost_wrapper,
                (#[trigger] changes[k]).0.location,
            ) && !notify[changes[k].0.location.node as int],
    ensures
        roused(notify, ghost_wrapper, changes, false) == seq![
            ghost_wrapper[changes[0].0.location.node],
        ],
{
    let rest = changes.drop_first();
    assert(at_ghost(ghost_wrapper, changes[0].0.location));
    assert forall|k: int| 0 <= k < rest.len() implies at_ghost(
        ghost_wrapper,
        (#[trigger] rest[k]).0.location,
    ) && !notify[rest[k].0.location.node as int] by {
        assert(rest[k] == changes[k + 1]);
    }
    lemma_roused_no_more(notify, ghost_wrapper, rest);
    assert(roused(notify, ghost_wrapper, changes, false) =~= seq![
        ghost_wrapper[changes[0].0.location.node],
    ]);
}

proof fn lemma_roused_no_more<T>(
    notify: Seq<bool>,
    ghost_wrapper: Map<usize, usize>,
    changes: Seq<(Pointstamp<T>, i64)>,
)
    requires
        forall|k: int|
            0 <= k < changes.len() ==> at_ghost(
                ghost_wrapper,
                (#[trigger] changes[k]).0.location,
            ) && !notify[changes[k].0.location.node as int],
    ensures
        roused(notify, ghost_wrapper, changes, true) == Seq::<usize>::empty(),
    decreases changes.len(),
{
    if changes.len() > 0 {
        let rest = changes.drop_first();
        assert(at_ghost(ghost_wrapper, changes[0].0.location));
        assert forall|k: int| 0 <= k < rest.len() implies at_ghost(
            ghost_wrapper,
            (#[trigger] rest[k]).0.location,
        ) && !notify[rest[k].0.location.node as int] by {
            assert(rest[k] == changes[k + 1]);
        }
        lemma_roused_no_more(notify, ghost_wrapper, rest);
        assert(roused(notify, ghost_wrapper, changes, true) =~= Seq::<usize>::empty());
    }
}

/// All frontier changes at the inputs of a scope enter it, each at its input and with its time as
/// one inside: the changes at an input are those reported there, in their order.
pub proof fn law_frontiers_enter<TOuter: Timestamp, TInner: Refines<TOuter>>(
    frontiers: Seq<Seq<(TOuter, i64)>>,
    from: nat,
    port: nat,
)
    requires
        frontiers.len() <= usize::MAX,
        from <= port < frontiers.len(),
    ensures
        entering_from::<TOuter, TInner>(frontiers, from).filter(
            |e: (Source, TInner, i64)| e.0 == Source { node: 0, port: port as usize },
        ) == Seq::new(
            frontiers[port as int].len(),
            |k: int|
                (
                    Source { node: 0, port: port as usize },
                    TInner::inner_of(frontiers[port as int][k].0),
                    frontiers[port as int][k].1,
                ),
        ),
        forall|k: int|
            0 <= k < entering_from::<TOuter, TInner>(frontiers, from).len() ==> {
                let e = #[trigger] entering_from::<TOuter, TInner>(frontiers, from)[k];
                e.0.node == 0 && from <= e.0.port < frontiers.len()
            },
    decreases frontiers.len() - from,
{
    let here = Source { node: 0, port: port as usize };
    let keep = |e: (Source, TInner, i64)| e.0 == here;
    let first = frontiers[from as int].map_values(
        |c: (TOuter, i64)| (Source { node: 0, port: from as usize }, TInner::inner_of(c.0), c.1),
    );
    let rest = entering_from::<TOuter, TInner>(frontiers, from + 1);
    lemma_filter_join(first, rest, keep);
    if from + 1 < frontiers.len() {
        if from < port {
            law_frontiers_enter::<TOuter, TInner>(frontiers, from + 1, port);
        } else {
            law_frontiers_enter::<TOuter, TInner>(frontiers, from + 1, from + 1);
        }
    }
    if from == port {
        lemma_filter_all(first, keep);
        lemma_filter_none(rest, keep);
        assert(first + Seq::empty() =~= Seq::new(
            frontiers[port as int].len(),
            |k: int|
                (
                    here,
                    TInner::inner_of(frontiers[port as int][k].0),
                    frontiers[port as int][k].1,
                ),
        ));
    } else {
        lemma_filter_none(first, keep);
        assert(Seq::empty() + rest.filter(keep) =~= rest.filter(keep));
    }
}

proof fn lemma_filter_join<A>(a: Seq<A>, b: Seq<A>, keep: spec_fn(A) -> bool)
    ensures
        (a + b).filter(keep) == a.filter(keep) + b.filter(keep),
    decreases b.len(),
{
    reveal(Seq::filter);
    if b.len() == 0 {
        assert(a + b =~= a);
        assert(a.filter(keep) + b.filter(keep) =~= a.filter(keep));
    } else {
        assert((a + b).drop_last() =~= a + b.drop_last());
        lemma_filter_join(a, b.drop_last(), keep);
        assert((a + b).filter(keep) =~= a.filter(keep) + b.filter(keep));
    }
}

proof fn lemma_filter_all<A>(a: Seq<A>, keep: spec_fn(A) -> bool)
    requires
        forall|k: int| 0 <= k < a.len() ==> keep(#[trigger] a[k]),
    ensures
        a.filter(keep) == a,
    decreases a.len(),
{
    reveal(Seq::filter);
    if a.len() > 0 {
        let before = a.drop_last();
        assert forall|k: int| 0 <= k < before.len() implies keep(#[trigger] before[k]) by {
            assert(before[k] == a[k]);
        }
        lemma_filter_all(before, keep);
        assert(keep(a[a.len() - 1]));
    }
    assert(a.filter(keep) =~= a);
}

proof fn lemma_filter_none<A>(a: Seq<A>, keep: spec_fn(A) -> bool)
    requires
        forall|k: int| 0 <= k < a.len() ==> !keep(#[trigger] a[k]),
    ensures
        a.filter(keep) == Seq::<A>::empty(),
    decreases a.len(),
{
    reveal(Seq::filter);
    if a.len() > 0 {
        let before = a.drop_last();
        assert forall|k: int| 0 <= k < before.len() implies !keep(#[trigger] before[k]) by {
            assert(before[k] == a[k]);
        }
        lemma_filter_none(before, keep);
        assert(!keep(a[a.len() - 1]));
    }
}

proof fn lemma_total_harvested<T: Ordered>(
    input: usize,
    targets: Seq<Target>,
    changes: Seq<(T, i64)>,
    place: Location,
    time: T,
)
    ensures
        wrapped(
            total(harvested(input, targets, changes), Pointstamp { location: place, time }),
        ) == wrapped(
            times_reached(targets, place) * total(changes, time) - (if place
                == (Location { node: 0, port: Port::Source(input) }) {
                total(changes, time)
            } else {
                0
            }),
        ),
    decreases changes.len(),
{
    let n = times_reached(targets, place);
    let own = Location { node: 0, port: Port::Source(input) };
    let at = Pointstamp { location: place, time };
    if changes.len() > 0 {
        let rest = changes.drop_first();
        let d = changes[0].1;
        let sent = fan_out(targets, changes[0].0, d);
        let left = (Pointstamp { location: own, time: changes[0].0 }, negated(d));
        lemma_total_harvested(input, targets, rest, place, time);
        lemma_total_fan_out(targets, changes[0].0, d, place, time);
        lemma_total_join(sent.push(left), harvested(input, targets, rest), at);
        assert(sent.push(left) =~= sent + seq![left]);
        lemma_total_join(sent, seq![left], at);
        reveal_with_fuel(total, 2);
        assert(seq![left].drop_first() =~= Seq::<(Pointstamp<T>, i64)>::empty());
        let tail = total(rest, time);
        let later = total(harvested(input, targets, rest), at);
        let back = if place == own {
            tail
        } else {
            0
        };
        if changes[0].0 == time {
            assert(n * (d + tail) == n * d + n * tail) by (nonlinear_arith);
            let undone = if place == own {
                negated(d) as int
            } else {
                0
            };
            let taken = if place == own {
                -(d as int)
            } else {
                0
            };
            assert(wrapped(undone) == wrapped(taken));
            lemma_wrapped_sum(undone, taken, n * d + later);
            lemma_wrapped_sum(later, n * tail - back, n * d + taken);
        } else {
            assert(n * (0 + tail) == n * tail);
        }
    } else {
        assert(n * 0 == 0);
    }
}

/// What entered a scope is on its way inside: at each input that an edge leads to from an input of
/// the scope, each message counts once for each edge; and it leaves the input of the scope. Counts
/// are in two's complement.
pub proof fn law_inputs_harvested<T: Ordered>(
    routes: Seq<Seq<Target>>,
    messages: Seq<Seq<(T, i64)>>,
    target: Target,
    input: usize,
    time: T,
)
    requires
        messages.len() <= usize::MAX,
        input < messages.len(),
    ensures
        wrapped(
            total(
                harvested_from(routes, messages, 0),
                Pointstamp {
                    location: Location { node: target.node, port: Port::Target(target.port) },
                    time,
                },
            ),
        ) == wrapped(
            sum_over(
                messages.len(),
                |i: int| routes[i].to_multiset().count(target) * total(messages[i], time),
            ),
        ),
        wrapped(
            total(
                harvested_from(routes, messages, 0),
                Pointstamp { location: Location { node: 0, port: Port::Source(input) }, time },
            ),
        ) == wrapped(-total(messages[input as int], time)),
        forall|node: usize, port: usize|
            node != 0 ==> #[trigger] wrapped(
                total(
                    harvested_from(routes, messages, 0),
                    Pointstamp { location: Location { node, port: Port::Source(port) }, time },
                ),
            ) == 0,
{
    let inner = Location { node: target.node, port: Port::Target(target.port) };
    let outer = Location { node: 0, port: Port::Source(input) };
    lemma_total_all_harvested(routes, messages, 0, inner, time);
    lemma_total_all_harvested(routes, messages, 0, outer, time);
    let f = harvest_terms(routes, messages, inner, time);
    let g = |i: int| routes[i].to_multiset().count(target) * total(messages[i], time);
    lemma_sum_same(messages.len(), f, g);
    lemma_one_input(routes, messages, input as int, messages.len(), time);
    assert forall|node: usize, port: usize| node != 0 implies #[trigger] wrapped(
        total(
            harvested_from(routes, messages, 0),
            Pointstamp { location: Location { node, port: Port::Source(port) }, time },
        ),
    ) == 0 by {
        let here = Location { node, port: Port::Source(port) };
        lemma_total_all_harvested(routes, messages, 0, here, time);
        let h = harvest_terms(routes, messages, here, time);
        assert forall|i: int| 0 <= i < messages.len() implies #[trigger] h(i) == 0 by {
            assert(0 * total(messages[i], time) == 0);
        }
        lemma_sum_zero(messages.len(), h);
    }
}

/// What each input of a scope adds at a place when its messages are taken in.
spec fn harvest_terms<T: Ordered>(
    routes: Seq<Seq<Target>>,
    messages: Seq<Seq<(T, i64)>>,
    place: Location,
    time: T,
) -> spec_fn(int) -> int {
    |i: int|
        times_reached(routes[i], place) * total(messages[i], time) - (if place == (Location {
            node: 0,
            port: Port::Source(i as usize),
        }) {
            total(messages[i], time)
        } else {
            0
        })
}

proof fn lemma_one_input<T: Ordered>(
    routes: Seq<Seq<Target>>,
    messages: Seq<Seq<(T, i64)>>,
    input: int,
    n: nat,
    time: T,
)
    requires
        0 <= input < messages.len(),
        n <= messages.len() <= usize::MAX,
    ensures
        sum_over(
            n,
            harvest_terms(
                routes,
                messages,
                Location { node: 0, port: Port::Source(input as usize) },
                time,
            ),
        ) == (if input < n {
            -total(messages[input], time)
        } else {
            0
        }),
    decreases n,
{
    if n > 0 {
        lemma_one_input(routes, messages, input, (n - 1) as nat, time);
        assert(0 * total(messages[n - 1], time) == 0);
    }
}

proof fn lemma_total_all_harvested<T: Ordered>(
    routes: Seq<Seq<Target>>,
    messages: Seq<Seq<(T, i64)>>,
    from: nat,
    place: Location,
    time: T,
)
    requires
        from <= messages.len() <= usize::MAX,
    ensures
        ({
            let f = harvest_terms(routes, messages, place, time);
            wrapped(
                total(harvested_from(routes, messages, from), Pointstamp { location: place, time }),
            ) == wrapped(sum_over(messages.len(), f) - sum_over(from, f))
        }),
    decreases messages.len() - from,
{
    if from < messages.len() {
        let f = harvest_terms(routes, messages, place, time);
        let at = Pointstamp { location: place, time };
        let first = harvested(from as usize, routes[from as int], messages[from as int]);
        let rest = harvested_from(routes, messages, from + 1);
        lemma_total_all_harvested(routes, messages, from + 1, place, time);
        lemma_total_harvested(
            from as usize,
            routes[from as int],
            messages[from as int],
            place,
            time,
        );
        lemma_total_join(first, rest, at);
        lemma_wrapped_sum(total(first, at), f(from as int), total(rest, at));
        lemma_wrapped_sum(
            total(rest, at),
            sum_over(messages.len(), f) - sum_over(from + 1, f),
            f(from as int),
        );
    }
}

/// Telling the scope around what was committed changes nothing but what was consumed and produced.
pub proof fn law_commit_spares<TOuter: Timestamp, TInner: Refines<TOuter>>(
    p: ProgressContents<TOuter>,
    changes: Seq<(Pointstamp<TInner>, i64)>,
)
    ensures
        committed(p, changes).frontiers == p.frontiers,
        committed(p, changes).internals == p.internals,
        committed(p, changes).wrapper_frontiers == p.wrapper_frontiers,
        committed(p, changes).wrapper_consumeds == p.wrapper_consumeds,
        committed(p, changes).wrapper_internals == p.wrapper_internals,
        committed(p, changes).wrapper_produceds == p.wrapper_produceds,
    decreases changes.len(),
{
    if changes.len() > 0 {
        law_commit_spares(committed_one(p, changes[0]), changes.drop_first());
    }
}

/// What happens inside the scope is tracked in full, and nothing that happens at its outside.
pub proof fn law_inside_tracked<T: Ordered>(
    changes: Seq<(Pointstamp<T>, i64)>,
    at: Pointstamp<T>,
)
    ensures
        total(inside(changes), at) == (if at.location.node == 0 {
            0
        } else {
            total(changes, at)
        }),
    decreases changes.len(),
{
    let keep = |c: (Pointstamp<T>, i64)| c.0.location.node != 0;
    reveal(Seq::filter);
    if changes.len() > 0 {
        let before = changes.drop_last();
        let last = changes.last();
        law_inside_tracked(before, at);
        reveal_with_fuel(total, 2);
        assert(seq![last].drop_first() =~= Seq::<(Pointstamp<T>, i64)>::empty());
        lemma_total_join(before, seq![last], at);
        assert(changes =~= before + seq![last]);
        if keep(last) {
            lemma_total_join(before.filter(keep), seq![last], at);
            assert(changes.filter(keep) =~= before.filter(keep) + seq![last]);
        }
    }
}

/// Where progress information has a place for a change, it still has it once another is delivered.
proof fn lemma_delivered_one<T: Timestamp>(
    views: Seq<ProgressContents<T>>,
    ghost_wrapper: Map<usize, usize>,
    change: (Pointstamp<T>, i64),
    location: Location,
)
    requires
        deliverable(views, ghost_wrapper, change.0.location),
        deliverable(views, ghost_wrapper, location),
    ensures
        deliverable(delivered_one(views, ghost_wrapper, change), ghost_wrapper, location),
{
}

/// The changes kept for an input of a node: by the node itself, or by the operator that stands for
/// it.
spec fn kept_at<T: Timestamp>(
    views: Seq<ProgressContents<T>>,
    ghost_wrapper: Map<usize, usize>,
    node: usize,
    port: usize,
) -> Seq<(T, i64)> {
    if ghost_wrapper.contains_key(node) {
        views[ghost_wrapper[node] as int].wrapper_frontiers[node][port as int]
    } else {
        views[node as int].frontiers[port as int]
    }
}

/// One frontier change changes what is kept for its input, and for no other.
proof fn lemma_kept_at<T: Timestamp>(
    views: Seq<ProgressContents<T>>,
    ghost_wrapper: Map<usize, usize>,
    change: (Pointstamp<T>, i64),
    node: usize,
    port: usize,
)
    requires
        deliverable(views, ghost_wrapper, change.0.location),
        deliverable(views, ghost_wrapper, Location { node, port: Port::Target(port) }),
    ensures
        ({
            let next = delivered_one(views, ghost_wrapper, change);
            let held = kept_at(views, ghost_wrapper, node, port);
            &&& next.len() == views.len()
            &&& kept_at(next, ghost_wrapper, node, port) == (if change.0.location == (Location {
                node,
                port: Port::Target(port),
            }) {
                updated(held, change.0.time, change.1)
            } else {
                held
            })
            &&& ghost_wrapper.contains_key(node) ==> next[node as int].frontiers
                == views[node as int].frontiers
        }),
{
}

/// Frontier changes reach the operator that they concern: the frontier at an input changes by the
/// sum of the changes there. That of a device-side node is kept by the operator that stands for it.
/// Counts are in two's complement.
#[verifier::rlimit(40)]
pub proof fn law_frontiers_delivered<T: Timestamp>(
    views: Seq<ProgressContents<T>>,
    ghost_wrapper: Map<usize, usize>,
    changes: Seq<(Pointstamp<T>, i64)>,
    node: usize,
    port: usize,
    time: T,
)
    requires
        forall|k: int|
            0 <= k < changes.len() ==> deliverable(
                views,
                ghost_wrapper,
                (#[trigger] changes[k]).0.location,
            ),
        deliverable(views, ghost_wrapper, Location { node, port: Port::Target(port) }),
        !ghost_wrapper.contains_key(node) ==> compacted(
            views[node as int].frontiers[port as int],
        ),
        ghost_wrapper.contains_key(node) ==> compacted(
            views[ghost_wrapper[node] as int].wrapper_frontiers[node][port as int],
        ),
    ensures
        ({
            let after = delivered(views, ghost_wrapper, changes);
            let sum = total(
                changes,
                Pointstamp { location: Location { node, port: Port::Target(port) }, time },
            );
            let w = ghost_wrapper[node] as int;
            &&& after.len() == views.len()
            &&& !ghost_wrapper.contains_key(node) ==> count(
                after[node as int].frontiers[port as int],
                time,
            ) == wrapped(count(views[node as int].frontiers[port as int], time) + sum)
            &&& ghost_wrapper.contains_key(node) ==> count(
                after[w].wrapper_frontiers[node][port as int],
                time,
            ) == wrapped(count(views[w].wrapper_frontiers[node][port as int], time) + sum)
            &&& ghost_wrapper.contains_key(node) ==> after[node as int].frontiers
                == views[node as int].frontiers
        }),
    decreases changes.len(),
{
    if changes.len() > 0 {
        let rest = changes.drop_first();
        let first = changes[0];
        let here = Location { node, port: Port::Target(port) };
        let at = Pointstamp { location: here, time };
        let next = delivered_one(views, ghost_wrapper, first);
        assert(deliverable(views, ghost_wrapper, first.0.location));
        assert forall|k: int| 0 <= k < rest.len() implies deliverable(
            next,
            ghost_wrapper,
            (#[trigger] rest[k]).0.location,
        ) by {
            assert(rest[k] == changes[k + 1]);
            lemma_delivered_one(views, ghost_wrapper, first, rest[k].0.location);
        }
        lemma_delivered_one(views, ghost_wrapper, first, here);
        lemma_kept_at(views, ghost_wrapper, first, node, port);
        let held = kept_at(views, ghost_wrapper, node, port);
        let then = kept_at(next, ghost_wrapper, node, port);
        if first.0.location == here {
            law_update_counts(held, first.0.time, first.1, time);
        }
        law_frontiers_delivered(next, ghost_wrapper, rest, node, port, time);
        let tail = total(rest, at);
        let step = if first.0 == at {
            first.1 as int
        } else {
            0
        };
        assert(count(then, time) == wrapped(count(held, time) + step));
        lemma_wrapped_sum(count(then, time) as int, count(held, time) + step, tail);
    }
}

/// Delivering frontier changes changes frontiers alone.
pub proof fn law_delivery_spares<T: Timestamp>(
    views: Seq<ProgressContents<T>>,
    ghost_wrapper: Map<usize, usize>,
    changes: Seq<(Pointstamp<T>, i64)>,
    i: int,
)
    requires
        forall|k: int|
            0 <= k < changes.len() ==> deliverable(
                views,
                ghost_wrapper,
                (#[trigger] changes[k]).0.location,
            ),
        0 <= i < views.len(),
    ensures
        ({
            let after = delivered(views, ghost_wrapper, changes);
            &&& after.len() == views.len()
            &&& after[i].consumeds == views[i].consumeds
            &&& after[i].internals == views[i].internals
            &&& after[i].produceds == views[i].produceds
            &&& after[i].wrapper_consumeds == views[i].wrapper_consumeds
            &&& after[i].wrapper_internals == views[i].wrapper_internals
            &&& after[i].wrapper_produceds == views[i].wrapper_produceds
            &&& after[i].frontiers.len() == views[i].frontiers.len()
            &&& after[i].wrapper_frontiers.dom() == views[i].wrapper_frontiers.dom()
        }),
    decreases changes.len(),
{
    if changes.len() > 0 {
        let rest = changes.drop_first();
        let next = delivered_one(views, ghost_wrapper, changes[0]);
        assert(deliverable(views, ghost_wrapper, changes[0].0.location));
        assert forall|k: int| 0 <= k < rest.len() implies deliverable(
            next,
            ghost_wrapper,
            (#[trigger] rest[k]).0.location,
        ) by {
            assert(rest[k] == changes[k + 1]);
            lemma_delivered_one(views, ghost_wrapper, changes[0], rest[k].0.location);
        }
        law_delivery_spares(next, ghost_wrapper, rest, i);
        assert(next[i].wrapper_frontiers.dom() =~= views[i].wrapper_frontiers.dom());
    }
}

/// One for a change at an input of `node`, if that asks to be told of such changes.
pub open spec fn notified<T>(
    notify: Seq<bool>,
    changes: Seq<(Pointstamp<T>, i64)>,
    node: usize,
) -> spec_fn(int) -> int {
    |k: int|
        if changes[k].0.location.node == node && changes[k].0.location.port is Target
            && notify[node as int] {
            1
        } else {
            0
        }
}

proof fn lemma_roused_later<T>(
    notify: Seq<bool>,
    ghost_wrapper: Map<usize, usize>,
    changes: Seq<(Pointstamp<T>, i64)>,
    node: usize,
)
    ensures
        roused(notify, ghost_wrapper, changes, true).to_multiset().count(node) == sum_over(
            changes.len(),
            notified(notify, changes, node),
        ),
    decreases changes.len(),
{
    lemma_count_small(node, node);
    if changes.len() > 0 {
        let rest = changes.drop_first();
        let location = changes[0].0.location;
        let one = roused_one(notify, ghost_wrapper, location, true);
        lemma_roused_later(notify, ghost_wrapper, rest, node);
        lemma_count_join(one, roused(notify, ghost_wrapper, rest, true), node);
        lemma_count_small(location.node, node);
        let f = notified(notify, changes, node);
        let g = notified(notify, rest, node);
        assert forall|k: int| 0 <= k < changes.len() - 1 implies #[trigger] g(k) == f(k + 1) by {
            assert(rest[k] == changes[k + 1]);
        }
        lemma_sum_first(changes.len(), f, g);
    }
}

/// Whom frontier changes wake: an operator that asks for it, once for each change at one of its
/// inputs; and, at the first change at an input of a device-side node, if that node did not ask for
/// it, the operator that stands for the node. `first` is the place of that change, and the number
/// of changes where there is none.
pub proof fn law_concerned_woken<T>(
    notify: Seq<bool>,
    ghost_wrapper: Map<usize, usize>,
    changes: Seq<(Pointstamp<T>, i64)>,
    first: int,
    node: usize,
)
    requires
        0 <= first <= changes.len(),
        forall|k: int|
            0 <= k < first ==> !((#[trigger] changes[k]).0.location.port is Target
                && ghost_wrapper.contains_key(changes[k].0.location.node)),
        first < changes.len() ==> changes[first].0.location.port is Target
            && ghost_wrapper.contains_key(changes[first].0.location.node),
    ensures
        roused(notify, ghost_wrapper, changes, false).to_multiset().count(node) == sum_over(
            changes.len(),
            notified(notify, changes, node),
        ) + (if first < changes.len() && !notify[changes[first].0.location.node as int]
            && ghost_wrapper[changes[first].0.location.node] == node {
            1int
        } else {
            0
        }),
    decreases changes.len(),
{
    lemma_count_small(node, node);
    if changes.len() > 0 {
        let rest = changes.drop_first();
        let location = changes[0].0.location;
        let one = roused_one(notify, ghost_wrapper, location, false);
        lemma_count_small(location.node, node);
        lemma_count_small(ghost_wrapper[location.node], node);
        let f = notified(notify, changes, node);
        let g = notified(notify, rest, node);
        assert forall|k: int| 0 <= k < changes.len() - 1 implies #[trigger] g(k) == f(k + 1) by {
            assert(rest[k] == changes[k + 1]);
        }
        lemma_sum_first(changes.len(), f, g);
        if first == 0 {
            lemma_roused_later(notify, ghost_wrapper, rest, node);
            lemma_count_join(one, roused(notify, ghost_wrapper, rest, true), node);
        } else {
            assert(!at_ghost(ghost_wrapper, changes[0].0.location));
            assert forall|k: int| 0 <= k < first - 1 implies !((
            #[trigger] rest[k]).0.location.port is Target && ghost_wrapper.contains_key(
                rest[k].0.location.node,
            )) by {
                assert(rest[k] == changes[k + 1]);
            }
            if first < changes.len() {
                assert(rest[first - 1] == changes[first]);
            }
            law_concerned_woken(notify, ghost_wrapper, rest, first - 1, node);
            lemma_count_join(one, roused(notify, ghost_wrapper, rest, false), node);
        }
    }
}

proof fn lemma_leaving_total<TOuter: Timestamp, TInner: Refines<TOuter>>(
    v: Seq<(TInner, i64)>,
    t: TOuter,
)
    ensures
        total(leaving::<TOuter, TInner>(v), t) == sum_over(
            v.len(),
            |k: int|
                if v[k].0.outer_of() == t {
                    v[k].1 as int
                } else {
                    0
                },
        ),
    decreases v.len(),
{
    let f = |k: int|
        if v[k].0.outer_of() == t {
            v[k].1 as int
        } else {
            0
        };
    if v.len() > 0 {
        let before = v.drop_last();
        lemma_leaving_total::<TOuter, TInner>(before, t);
        let g = |k: int|
            if before[k].0.outer_of() == t {
                before[k].1 as int
            } else {
                0
            };
        lemma_sum_same(before.len(), g, f);
        let all = leaving::<TOuter, TInner>(v);
        let last = (v.last().0.outer_of(), v.last().1);
        reveal_with_fuel(total, 2);
        assert(seq![last].drop_first() =~= Seq::<(TOuter, i64)>::empty());
        assert(all =~= leaving::<TOuter, TInner>(before) + seq![last]);
        lemma_total_join(leaving::<TOuter, TInner>(before), seq![last], t);
    }
}

/// What surfaces at an output of a scope: the capabilities that the scope holds there change as
/// those inside do, at their times outside; and the scope reports each time that its frontier there
/// gained, and each that it lost.
pub proof fn law_capabilities_surface<TOuter: Timestamp, TInner: Refines<TOuter>>(
    held: &MutableAntichain<TOuter>,
    reported: Seq<(TOuter, i64)>,
    changes: Seq<(TInner, i64)>,
    held_after: &MutableAntichain<TOuter>,
    reported_after: Seq<(TOuter, i64)>,
    t: TOuter,
)
    requires
        surfaced::<TOuter, TInner>(held, reported, changes, held_after, reported_after),
        compacted(held.counts()),
        compacted(reported),
    ensures
        count(held_after.counts(), t) == wrapped(
            count(held.counts(), t) + sum_over(
                changes.len(),
                |k: int|
                    if changes[k].0.outer_of() == t {
                        changes[k].1 as int
                    } else {
                        0
                    },
            ),
        ),
        (exists|i: int|
            0 <= i < held_after.minimal().len() && (#[trigger] held_after.minimal()[i]).le(t)) <==> (
        exists|k: int|
            0 <= k < held_after.counts().len() && (#[trigger] held_after.counts()[k]).1 > 0
                && held_after.counts()[k].0.le(t)),
        is_antichain(held_after.minimal()),
        count(reported_after, t) == wrapped(
            count(reported, t) + held_after.minimal().to_multiset().count(t)
                - held.minimal().to_multiset().count(t),
        ),
{
    let moves = frontier_changes(held.minimal(), held_after.minimal());
    law_extend_counts(held.counts(), leaving::<TOuter, TInner>(changes), t);
    lemma_leaving_total::<TOuter, TInner>(changes, t);
    law_frontier(held_after.counts());
    law_frontier_reach(held_after.counts(), t);
    law_extend_counts(reported, moves, t);
    law_frontier_changes(held.minimal(), held_after.minimal(), t);
    law_total_is_count(moves, t);
    lemma_occurrences(held.minimal(), t);
    lemma_occurrences(held_after.minimal(), t);
    let gain = occurrences(held_after.minimal(), t) - occurrences(held.minimal(), t);
    assert(wrapped(wrapped(gain)) == wrapped(gain));
    lemma_wrapped_sum(total(moves, t), gain, count(reported, t) as int);
}

proof fn lemma_occurrences<T>(s: Seq<T>, t: T)
    ensures
        occurrences(s, t) == s.to_multiset().count(t),
    decreases s.len(),
{
    if s.len() > 0 {
        lemma_occurrences(s.drop_first(), t);
        lemma_count_ends(s, t);
    } else {
        lemma_count_small(t, t);
        assert(s =~= Seq::<T>::empty());
    }
}

/// The number of flags that are set.
pub proof fn law_flags_counted(flags: Seq<bool>)
    ensures
        set_count(flags) == flags.filter(|b: bool| b).len(),
    decreases flags.len(),
{
    reveal(Seq::filter);
    if flags.len() > 0 {
        law_flags_counted(flags.drop_last());
    }
}

/// When a scope is put to work, each of its operators but device-side nodes says what it reports at
/// first, and wakes whom it wakes; nobody else does.
pub proof fn law_initial_reports<T: Timestamp>(
    children: Seq<PerOperatorState<T>>,
    ghost_wrapper: Map<usize, usize>,
    wrapper_ghost: Map<usize, Vec<usize>>,
    wrapper_ghost_edges: Map<usize, Vec<(usize, usize)>>,
    at: Pointstamp<T>,
    node: usize,
)
    ensures
        total(
            all_statements(children, ghost_wrapper, wrapper_ghost, wrapper_ghost_edges, 0),
            at,
        ) == sum_over(
            children.len(),
            |i: int|
                if ghost_wrapper.contains_key(children[i].index) {
                    0
                } else {
                    total(children[i].statements(wrapper_ghost, wrapper_ghost_edges), at)
                },
        ),
        all_woken(
            children,
            ghost_wrapper,
            wrapper_ghost,
            wrapper_ghost_edges,
            0,
        ).to_multiset().count(node) == sum_over(
            children.len(),
            |i: int|
                if ghost_wrapper.contains_key(children[i].index) {
                    0
                } else {
                    children[i].woken(
                        wrapper_ghost,
                        wrapper_ghost_edges,
                    ).to_multiset().count(node) as int
                },
        ),
{
    lemma_initial_reports(
        children,
        ghost_wrapper,
        wrapper_ghost,
        wrapper_ghost_edges,
        0,
        at,
        node,
    );
}

proof fn lemma_initial_reports<T: Timestamp>(
    children: Seq<PerOperatorState<T>>,
    ghost_wrapper: Map<usize, usize>,
    wrapper_ghost: Map<usize, Vec<usize>>,
    wrapper_ghost_edges: Map<usize, Vec<(usize, usize)>>,
    from: nat,
    at: Pointstamp<T>,
    node: usize,
)
    requires
        from <= children.len(),
    ensures
        ({
            let f = |i: int|
                if ghost_wrapper.contains_key(children[i].index) {
                    0
                } else {
                    total(children[i].statements(wrapper_ghost, wrapper_ghost_edges), at)
                };
            let g = |i: int|
                if ghost_wrapper.contains_key(children[i].index) {
                    0
                } else {
                    children[i].woken(
                        wrapper_ghost,
                        wrapper_ghost_edges,
                    ).to_multiset().count(node) as int
                };
            &&& total(
                all_statements(children, ghost_wrapper, wrapper_ghost, wrapper_ghost_edges, from),
                at,
            ) == sum_over(children.len(), f) - sum_over(from, f)
            &&& all_woken(
                children,
                ghost_wrapper,
                wrapper_ghost,
                wrapper_ghost_edges,
                from,
            ).to_multiset().count(node) == sum_over(children.len(), g) - sum_over(from, g)
        }),
    decreases children.len() - from,
{
    lemma_count_small(node, node);
    if from < children.len() {
        lemma_initial_reports(
            children,
            ghost_wrapper,
            wrapper_ghost,
            wrapper_ghost_edges,
            from + 1,
            at,
            node,
        );
        let child = children[from as int];
        lemma_total_join(
            child.statements(wrapper_ghost, wrapper_ghost_edges),
            all_statements(children, ghost_wrapper, wrapper_ghost, wrapper_ghost_edges, from + 1),
            at,
        );
        lemma_count_join(
            child.woken(wrapper_ghost, wrapper_ghost_edges),
            all_woken(children, ghost_wrapper, wrapper_ghost, wrapper_ghost_edges, from + 1),
            node,
        );
    }
}

/// The children that run, in the order of their places.
pub proof fn law_running_found<T: Timestamp>(children: Seq<PerOperatorState<T>>, n: nat)
    requires
        n <= children.len(),
    ensures
        running_from(children, n) == Seq::new(n, |i: int| i).filter(
            |i: int| children[i].running,
        ).map_values(|i: int| i as usize),
    decreases n,
{
    let all = Seq::new(n, |i: int| i);
    let keep = |i: int| children[i].running;
    reveal(Seq::filter);
    if n > 0 {
        law_running_found(children, (n - 1) as nat);
        assert(all.drop_last() =~= Seq::new((n - 1) as nat, |i: int| i));
    }
    assert(running_from(children, n) =~= all.filter(keep).map_values(|i: int| i as usize));
}

/// The paths through a scope, as the scope around sees them: for each input and output, none of
/// them is below another, each stems from a path inside, and whatever a path inside leads to, one
/// of them leads to.
pub proof fn law_paths_summarized<TOuter: Timestamp, TInner: Refines<TOuter>>(
    paths: Seq<Seq<Seq<TInner::Summary>>>,
    inputs: nat,
    outputs: nat,
    i: int,
    o: int,
    x: TOuter::Summary,
)
    requires
        0 <= i < inputs,
        0 <= o < outputs,
    ensures
        ({
            let all = scope_paths::<TOuter, TInner>(paths, inputs, outputs);
            let here = all[i][o];
            let known = i < paths.len() && o < paths[i].len();
            &&& all.len() == inputs
            &&& all[i].len() == outputs
            &&& !known ==> here.len() == 0
            &&& known ==> {
                let inner = paths[i][o];
                &&& is_antichain(here)
                &&& here.contains(x) ==> exists|k: int|
                    0 <= k < inner.len() && TInner::summary_of(#[trigger] inner[k]) == x
                &&& (exists|k: int| 0 <= k < here.len() && (#[trigger] here[k]).le(x)) <==> (exists|
                    k: int,
                |
                    0 <= k < inner.len() && TInner::summary_of(#[trigger] inner[k]).le(x))
            }
        }),
{
    if i < paths.len() && o < paths[i].len() {
        let inner = paths[i][o];
        let seen = inner.map_values(|s: TInner::Summary| TInner::summary_of(s));
        let none = Seq::<TOuter::Summary>::empty();
        law_all_inserted(none, seen, x);
        let here = scope_paths::<TOuter, TInner>(paths, inputs, outputs)[i][o];
        assert(here == all_inserted(none, seen));
        if here.contains(x) {
            assert(!none.contains(x));
            let k = seen.index_of(x);
            assert(TInner::summary_of(inner[k]) == x);
        }
        if exists|k: int| 0 <= k < here.len() && (#[trigger] here[k]).le(x) {
            let k = choose|k: int| 0 <= k < seen.len() && (#[trigger] seen[k]).le(x);
            assert(TInner::summary_of(inner[k]).le(x));
        }
        if exists|k: int| 0 <= k < inner.len() && TInner::summary_of(#[trigger] inner[k]).le(x) {
            let k = choose|k: int|
                0 <= k < inner.len() && TInner::summary_of(#[trigger] inner[k]).le(x);
            assert(seen[k].le(x));
        }
    }
}

/// Nothing can reach an operator, and it holds nothing, exactly where no time is tracked as one that
/// may arrive at one of its inputs, nor as one held at one of its outputs.
pub proof fn law_quiet<T: Timestamp>(state: &PerOperator<T>)
    ensures
        !is_quiet(state) <==> {
            ||| exists|i: int|
                0 <= i < state.targets@.len() && (
                #[trigger] state.targets@[i]).implications.minimal().len() > 0
            ||| exists|o: int|
                0 <= o < state.sources@.len() && (
                #[trigger] state.sources@[o]).pointstamps.minimal().len() > 0
        },
{
}

/// Whether children ask to be told of frontier changes, and their progress information, are read
/// from them, in their order.
pub proof fn law_children_as_they_are<T: Timestamp>(children: Seq<PerOperatorState<T>>, i: int)
    ensures
        notify_flags(children).len() == children.len(),
        progress_views(children).len() == children.len(),
        0 <= i < children.len() ==> notify_flags(children)[i] == children[i].notify,
        0 <= i < children.len() ==> progress_views(children)[i] == children[i].shared_progress@,
{
}

/// When a scope is put to work, device-side nodes keep their reports, and all others hand theirs
/// over, which are added to what the scope is to commit.
pub proof fn law_reports_at_first<TOuter: Timestamp, TInner: Refines<TOuter>>(
    scope: &Subgraph<TOuter, TInner>,
    i: int,
    at: Pointstamp<TInner>,
)
    requires
        0 <= i < scope.children@.len(),
        compacted(scope.final_pointstamp@),
    ensures
        ({
            let child = scope.children@[i];
            let p = child.shared_progress@;
            let q = emptied(child, scope.ghost_wrapper@, scope.wrapper_ghost@);
            if scope.ghost_wrapper@.contains_key(child.index) {
                q == p
            } else {
                &&& q.frontiers == p.frontiers
                &&& forall|k: int| 0 <= k < q.consumeds.len() ==> (#[trigger] q.consumeds[k]).len()
                    == 0
                &&& forall|k: int| 0 <= k < q.internals.len() ==> (#[trigger] q.internals[k]).len()
                    == 0
                &&& forall|k: int| 0 <= k < q.produceds.len() ==> (#[trigger] q.produceds[k]).len()
                    == 0
            }
        }),
        count(scope.initial_pointstamps(), at) == wrapped(
            count(scope.final_pointstamp@, at) + sum_over(
                scope.children@.len(),
                |k: int|
                    if scope.ghost_wrapper@.contains_key(scope.children@[k].index) {
                        0
                    } else {
                        total(
                            scope.children@[k].statements(
                                scope.wrapper_ghost@,
                                scope.wrapper_ghost_edges@,
                            ),
                            at,
                        )
                    },
            ),
        ),
{
    let child = scope.children@[i];
    law_reports_taken(child.shared_progress@, child.ghosts(scope.wrapper_ghost@), 0);
    let list = all_statements(
        scope.children@,
        scope.ghost_wrapper@,
        scope.wrapper_ghost@,
        scope.wrapper_ghost_edges@,
        0,
    );
    law_extend_counts(scope.final_pointstamp@, list, at);
    law_initial_reports(
        scope.children@,
        scope.ghost_wrapper@,
        scope.wrapper_ghost@,
        scope.wrapper_ghost_edges@,
        at,
        0,
    );
}

/// An operator may be scheduled unless it was closed and a frontier of it changed since; and what it
/// reports can be tested where each of its outputs is tracked.
pub proof fn law_may_activate<TOuter: Timestamp, TInner: Refines<TOuter>>(
    scope: &Subgraph<TOuter, TInner>,
    i: usize,
    answer: bool,
    state: &PerOperator<TInner>,
)
    requires
        i < scope.children@.len(),
        scope.children@[i as int].running,
        scope.children@[i as int].outputs <= state.sources@.len(),
    ensures
        scope.may_activate(i, answer, state),
{
}

/// A frontier change has a place to go where its input is one of the operator, or one of a
/// device-side node for which the operator that stands for it has room. At an output there is
/// nothing to do.
pub proof fn law_deliverable<T: Timestamp>(
    views: Seq<ProgressContents<T>>,
    ghost_wrapper: Map<usize, usize>,
    node: usize,
    port: usize,
)
    requires
        node < views.len(),
    ensures
        deliverable(views, ghost_wrapper, Location { node, port: Port::Source(port) }),
        !ghost_wrapper.contains_key(node) ==> (deliverable(
            views,
            ghost_wrapper,
            Location { node, port: Port::Target(port) },
        ) <==> port < views[node as int].frontiers.len()),
        ghost_wrapper.contains_key(node) && ghost_wrapper[node] < views.len()
            && views[ghost_wrapper[node] as int].wrapper_frontiers.contains_key(node) && port
            < views[ghost_wrapper[node] as int].wrapper_frontiers[node].len() ==> deliverable(
            views,
            ghost_wrapper,
            Location { node, port: Port::Target(port) },
        ),
{
}

} // verus!
