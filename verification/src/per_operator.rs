//! What a scope keeps of each of its operators.

use std::collections::HashMap;

use vstd::multiset::Multiset;
use vstd::prelude::*;
use vstd::string::StringExecFns;

use crate::active::{lemma_bag_join, ActiveHeap};
use crate::change_batch::{
    extended, law_extend_in_parts, lemma_total_join, lemma_wrapped_sum, total, wrapped, ChangeBatch,
};
use crate::frontier::{dominates, Antichain, MutableAntichain};
use crate::location::{Location, Pointstamp, Port, Source, Target};
use crate::logging::{
    OperatorEvent, PushProgressEvent, ScheduleEvent, ShutdownEvent, StartStop,
};
use crate::order::{Ordered, Timestamp};
use crate::reachability::{PerOperator, PortInfo};
use crate::shared_progress::{
    contents, no_changes, node_contents, nothing_reported, ProgressContents, SharedProgress,
};
use crate::statements::{
    consumed_from, internal_from, law_produced_arrives, law_receivers_woken, lemma_total_consumed,
    produced_from, report_consumed, report_internal, report_produced, route_targets, woken_from,
};
use crate::sums::{
    lemma_count_ends, lemma_count_join, lemma_count_small, lemma_sum_first, lemma_sum_same,
    sum_over,
};

verus! {

broadcast use {
    vstd::std_specs::hash::group_hash_axioms,
    vstd::seq_lib::group_to_multiset_ensures,
};

/// What an operator says of itself when it is added to a scope.
pub struct OperatorInfo<T: Timestamp> {
    /// Its name.
    pub name: String,
    /// Whether it exchanges no data with other workers.
    pub local: bool,
    /// Whether it asks to be scheduled when a frontier changes.
    pub notify: bool,
    /// Number of inputs.
    pub inputs: usize,
    /// Number of outputs.
    pub outputs: usize,
    /// By input and output, what the paths between them do to times.
    pub internal_summary: Vec<Vec<Antichain<T::Summary>>>,
    /// Its initial progress information.
    pub shared_progress: SharedProgress<T>,
}

/// An operator as its scope sees it.
pub struct PerOperatorState<T: Timestamp> {
    /// Name of the operator.
    pub name: String,
    /// Index of the operator within its parent scope.
    pub index: usize,
    /// Worker-unique identifier.
    pub id: usize,
    /// Whether the operator exchanges no data with other workers.
    pub local: bool,
    /// Whether the operator asks to be scheduled when a frontier changes.
    pub notify: bool,
    /// Number of inputs.
    pub inputs: usize,
    /// Number of outputs.
    pub outputs: usize,
    /// Whether the operator counts as incomplete at first.
    pub count_for_incomplete: bool,
    /// Whether the operator exists and has not been shut down.
    pub running: bool,
    /// Whether the operator can stand for device-side nodes.
    pub sees_ghosts: bool,
    /// Edges from the outputs of the operator.
    pub edges: Vec<Vec<Target>>,
    /// Edges from the outputs of the operator, with device-side nodes in place of the operator
    /// that stands for them.
    pub ghost_edges: Vec<Vec<Target>>,
    /// Progress information shared with the operator.
    pub shared_progress: SharedProgress<T>,
    /// By input and output, what the paths between them do to times.
    pub internal_summary: Vec<Vec<Antichain<T::Summary>>>,
}

/// The targets to which `edges` leads from the device-side node `ghost`.
pub open spec fn successors(edges: Seq<(usize, usize)>, ghost_node: usize) -> Seq<Target>
    decreases edges.len(),
{
    if edges.len() == 0 {
        Seq::empty()
    } else {
        let before = successors(edges.drop_last(), ghost_node);
        if edges.last().0 == ghost_node {
            before.push(Target { node: edges.last().1, port: 0 })
        } else {
            before
        }
    }
}

/// The same targets for each of `n` outputs.
pub open spec fn same_routes(targets: Seq<Target>, n: nat) -> Seq<Seq<Target>> {
    Seq::new(n, |i: int| targets)
}

/// Progress information once the reports of the device-side node `g` were taken out.
pub open spec fn without_node<T>(p: ProgressContents<T>, g: usize) -> ProgressContents<T> {
    ProgressContents {
        wrapper_consumeds: p.wrapper_consumeds.insert(
            g,
            no_changes::<T>(p.wrapper_consumeds[g].len()),
        ),
        wrapper_internals: p.wrapper_internals.insert(
            g,
            no_changes::<T>(p.wrapper_internals[g].len()),
        ),
        wrapper_produceds: p.wrapper_produceds.insert(
            g,
            no_changes::<T>(p.wrapper_produceds[g].len()),
        ),
        ..p
    }
}

/// Progress information once the reports of each of `ghosts` were taken out.
pub open spec fn without_nodes<T>(p: ProgressContents<T>, ghosts: Seq<usize>) -> ProgressContents<T>
    decreases ghosts.len(),
{
    if ghosts.len() == 0 {
        p
    } else {
        without_nodes(without_node(p, ghosts[0]), ghosts.drop_first())
    }
}

/// Progress information once the operator's own reports were taken out.
pub open spec fn without_own<T>(p: ProgressContents<T>) -> ProgressContents<T> {
    ProgressContents {
        consumeds: no_changes::<T>(p.consumeds.len()),
        internals: no_changes::<T>(p.internals.len()),
        produceds: no_changes::<T>(p.produceds.len()),
        ..p
    }
}

/// The reports of the device-side node `g`: what it consumed, what changed in its
/// capabilities, and what it produced, at the nodes that `edges` leads to.
pub open spec fn node_statements<T>(
    p: ProgressContents<T>,
    g: usize,
    edges: Seq<(usize, usize)>,
) -> Seq<(Pointstamp<T>, i64)> {
    consumed_from(g, p.wrapper_consumeds[g], 0) + internal_from(g, p.wrapper_internals[g], 0)
        + produced_from(
        same_routes(successors(edges, g), p.wrapper_produceds[g].len()),
        p.wrapper_produceds[g],
        0,
    )
}

/// The nodes woken by what the device-side node `g` produced.
pub open spec fn node_woken<T>(
    p: ProgressContents<T>,
    g: usize,
    edges: Seq<(usize, usize)>,
) -> Seq<usize> {
    woken_from(
        same_routes(successors(edges, g), p.wrapper_produceds[g].len()),
        p.wrapper_produceds[g],
        0,
    )
}

/// The reports of each of `ghosts` in turn. A node that is named twice has nothing left to
/// report the second time.
pub open spec fn ghost_statements<T>(
    p: ProgressContents<T>,
    ghosts: Seq<usize>,
    edges: Seq<(usize, usize)>,
) -> Seq<(Pointstamp<T>, i64)>
    decreases ghosts.len(),
{
    if ghosts.len() == 0 {
        Seq::empty()
    } else {
        node_statements(p, ghosts[0], edges) + ghost_statements(
            without_node(p, ghosts[0]),
            ghosts.drop_first(),
            edges,
        )
    }
}

/// The nodes woken by what each of `ghosts` produced.
pub open spec fn ghost_woken<T>(
    p: ProgressContents<T>,
    ghosts: Seq<usize>,
    edges: Seq<(usize, usize)>,
) -> Seq<usize>
    decreases ghosts.len(),
{
    if ghosts.len() == 0 {
        Seq::empty()
    } else {
        node_woken(p, ghosts[0], edges) + ghost_woken(
            without_node(p, ghosts[0]),
            ghosts.drop_first(),
            edges,
        )
    }
}

/// The operator's own reports.
pub open spec fn own_statements<T>(
    p: ProgressContents<T>,
    index: usize,
    counted: Seq<Seq<Target>>,
) -> Seq<(Pointstamp<T>, i64)> {
    consumed_from(index, p.consumeds, 0) + internal_from(index, p.internals, 0) + produced_from(
        counted,
        p.produceds,
        0,
    )
}

/// Whether progress information has places for the reports of each of `ghosts`.
pub open spec fn has_nodes<T>(p: ProgressContents<T>, ghosts: Seq<usize>) -> bool {
    forall|i: int|
        0 <= i < ghosts.len() ==> {
            &&& p.wrapper_consumeds.contains_key(#[trigger] ghosts[i])
            &&& p.wrapper_internals.contains_key(ghosts[i])
            &&& p.wrapper_produceds.contains_key(ghosts[i])
        }
}

/// An increment that no report and no capability supports.
#[derive(Debug, PartialEq, Eq)]
pub enum ProgressError<T> {
    /// A capability that came from nowhere.
    Internal {
        /// The output it is for.
        output: usize,
        /// Its time.
        time: T,
    },
    /// A message that came from nowhere.
    Produced {
        /// The output it was produced at.
        output: usize,
        /// Its time.
        time: T,
    },
}

impl<T: Timestamp> PerOperatorState<T> {
    /// Edges and progress information fit the numbers of inputs and outputs.
    pub open spec fn wf(&self) -> bool {
        &&& self.edges@.len() == self.outputs
        &&& self.ghost_edges@.len() == self.outputs
        &&& self.shared_progress.frontiers@.len() == self.inputs
        &&& self.shared_progress.consumeds@.len() == self.inputs
        &&& self.shared_progress.internals@.len() == self.outputs
        &&& self.shared_progress.produceds@.len() == self.outputs
    }

    /// The same operator in all but its shared progress information.
    pub open spec fn same_operator(&self, other: &Self) -> bool {
        &&& self.name == other.name
        &&& self.index == other.index
        &&& self.id == other.id
        &&& self.local == other.local
        &&& self.notify == other.notify
        &&& self.inputs == other.inputs
        &&& self.outputs == other.outputs
        &&& self.count_for_incomplete == other.count_for_incomplete
        &&& self.running == other.running
        &&& self.sees_ghosts == other.sees_ghosts
        &&& self.edges == other.edges
        &&& self.ghost_edges == other.ghost_edges
        &&& self.internal_summary == other.internal_summary
    }

    /// The same operator in all but its shared progress information, and closed where `close`
    /// says so: the name of an operator that was running tells that it is gone.
    pub open spec fn closed_if(&self, other: &Self, close: bool) -> bool {
        &&& self.running == (other.running && !close)
        &&& self.name@ == (if other.running && close {
            other.name@ + "(tombstone)"@
        } else {
            other.name@
        })
        &&& self.index == other.index
        &&& self.id == other.id
        &&& self.local == other.local
        &&& self.notify == other.notify
        &&& self.inputs == other.inputs
        &&& self.outputs == other.outputs
        &&& self.count_for_incomplete == other.count_for_incomplete
        &&& self.sees_ghosts == other.sees_ghosts
        &&& self.edges == other.edges
        &&& self.ghost_edges == other.ghost_edges
        &&& self.internal_summary == other.internal_summary
    }

    /// The state of the operator described by `scope`, as it is when the operator is added.
    pub open spec fn describes(
        &self,
        scope: &OperatorInfo<T>,
        index: usize,
        identifier: usize,
        incomplete: bool,
    ) -> bool {
        &&& self.name == scope.name
        &&& self.index == index
        &&& self.id == identifier
        &&& self.local == scope.local
        &&& self.notify == scope.notify
        &&& self.inputs == scope.inputs
        &&& self.outputs == scope.outputs
        &&& self.count_for_incomplete == incomplete
        &&& self.running
        &&& self.sees_ghosts
        &&& route_targets(self.edges@) == same_routes(Seq::empty(), scope.outputs as nat)
        &&& route_targets(self.ghost_edges@) == same_routes(Seq::empty(), scope.outputs as nat)
        &&& self.shared_progress == scope.shared_progress
        &&& self.internal_summary == scope.internal_summary
    }

    /// The placeholder that stands for the outside of a scope, whatever its edges.
    pub open spec fn is_external(&self, inputs: nat, outputs: nat) -> bool {
        &&& self.name@ == "External"@
        &&& self.index == 0
        &&& self.id == usize::MAX
        &&& !self.local
        &&& self.notify
        &&& self.inputs == inputs
        &&& self.outputs == outputs
        &&& self.count_for_incomplete
        &&& !self.running
        &&& !self.sees_ghosts
        &&& self.shared_progress@ == nothing_reported::<T>(inputs, outputs)
        &&& self.internal_summary@.len() == 0
    }

    /// The placeholder that stands for the outside of a scope.
    pub fn empty(inputs: usize, outputs: usize) -> (r: Self)
        ensures
            r.is_external(inputs as nat, outputs as nat),
            route_targets(r.edges@) == same_routes(Seq::empty(), outputs as nat),
            route_targets(r.ghost_edges@) == same_routes(Seq::empty(), outputs as nat),
            r.wf(),
    {
        let r = PerOperatorState {
            name: "External".to_string(),
            count_for_incomplete: true,
            running: false,
            sees_ghosts: false,
            index: 0,
            id: usize::MAX,
            local: false,
            notify: true,
            inputs,
            outputs,
            edges: no_edges(outputs),
            ghost_edges: no_edges(outputs),
            shared_progress: SharedProgress::new(inputs, outputs),
            internal_summary: Vec::new(),
        };
        proof {
            lemma_contents_len(r.shared_progress);
        }
        r
    }

    /// The state of the operator described by `scope`, at `index` of its scope.
    pub fn new(scope: OperatorInfo<T>, index: usize, identifier: usize, incomplete: bool) -> (r: Self)
        requires
            scope.internal_summary@.len() == scope.inputs,
            forall|i: int|
                0 <= i < scope.inputs ==> (#[trigger] scope.internal_summary@[i])@.len()
                    == scope.outputs,
        ensures
            r.describes(&scope, index, identifier, incomplete),
            r.edges@.len() == scope.outputs,
            r.ghost_edges@.len() == scope.outputs,
    {
        let outputs: usize = scope.outputs;
        PerOperatorState {
            name: scope.name,
            count_for_incomplete: incomplete,
            running: true,
            sees_ghosts: true,
            index,
            id: identifier,
            local: scope.local,
            notify: scope.notify,
            inputs: scope.inputs,
            outputs,
            edges: no_edges(outputs),
            ghost_edges: no_edges(outputs),
            shared_progress: scope.shared_progress,
            internal_summary: scope.internal_summary,
        }
    }

    /// What announces that the operator is closed: nothing, where it is closed already.
    pub open spec fn closing(&self) -> Option<ShutdownEvent> {
        if self.running {
            Some(ShutdownEvent { id: self.id })
        } else {
            None
        }
    }

    /// Closes the operator. Only a running operator changes: its name tells that it is gone.
    /// Returns what announces that, where there is something to announce.
    pub fn shut_down(&mut self) -> (r: Option<ShutdownEvent>)
        ensures
            final(self).closed_if(old(self), true),
            final(self).shared_progress == old(self).shared_progress,
            r == old(self).closing(),
    {
        if self.running {
            self.running = false;
            self.name.append("(tombstone)");
            Some(ShutdownEvent { id: self.id })
        } else {
            None
        }
    }

    /// What there is to log before the operator is scheduled: that frontier changes wait for it,
    /// if they do, and that it starts to work. Of a closed operator there is nothing to log.
    pub open spec fn starting(&self) -> Seq<OperatorEvent> {
        if !self.running {
            Seq::empty()
        } else if forall|i: int|
            0 <= i < self.shared_progress@.frontiers.len()
                ==> #[trigger] self.shared_progress@.frontiers[i] == Seq::<(T, i64)>::empty() {
            seq![
                OperatorEvent::Schedule(
                    ScheduleEvent { id: self.id, start_stop: StartStop::Start },
                ),
            ]
        } else {
            seq![
                OperatorEvent::PushProgress(PushProgressEvent { op_id: self.id }),
                OperatorEvent::Schedule(
                    ScheduleEvent { id: self.id, start_stop: StartStop::Start },
                ),
            ]
        }
    }

    /// What there is to log before the operator is scheduled.
    pub fn before_schedule(&self) -> (r: Vec<OperatorEvent>)
        ensures
            r@ == self.starting(),
    {
        let mut r: Vec<OperatorEvent> = Vec::new();
        if self.running {
            if !self.frontiers_settled() {
                r.push(OperatorEvent::PushProgress(PushProgressEvent { op_id: self.id }));
            }
            r.push(
                OperatorEvent::Schedule(
                    ScheduleEvent { id: self.id, start_stop: StartStop::Start },
                ),
            );
        }
        assert(r@ =~= self.starting());
        r
    }

    /// What there is to log once the operator was scheduled.
    pub fn after_schedule(&self) -> (r: Option<ScheduleEvent>)
        ensures
            r == (if self.running {
                Some(ScheduleEvent { id: self.id, start_stop: StartStop::Stop })
            } else {
                None
            }),
    {
        if self.running {
            Some(ScheduleEvent { id: self.id, start_stop: StartStop::Stop })
        } else {
            None
        }
    }

    /// Whether no frontier change waits for the operator.
    pub fn frontiers_settled(&self) -> (r: bool)
        ensures
            r == (forall|i: int|
                0 <= i < self.shared_progress@.frontiers.len()
                    ==> #[trigger] self.shared_progress@.frontiers[i] == Seq::<(T, i64)>::empty()),
    {
        let ghost all = self.shared_progress@.frontiers;
        let mut i: usize = 0;
        while i < self.shared_progress.frontiers.len()
            invariant
                i <= self.shared_progress.frontiers@.len(),
                all == contents(self.shared_progress.frontiers@),
                forall|k: int| 0 <= k < i ==> #[trigger] all[k] == Seq::<(T, i64)>::empty(),
            decreases self.shared_progress.frontiers@.len() - i,
        {
            assert(all[i as int] == self.shared_progress.frontiers@[i as int]@);
            if !self.shared_progress.frontiers[i].is_empty() {
                assert(self.shared_progress@.frontiers[i as int] == all[i as int]);
                return false;
            }
            assert(all[i as int] =~= Seq::<(T, i64)>::empty());
            i += 1;
        }
        true
    }

    /// Whether the operator is still incomplete, where `incomplete` is what a running operator
    /// answered when it was scheduled. A closed operator keeps nothing open; a frontier change
    /// for one is an error of the host.
    pub fn schedule(&self, incomplete: bool) -> (r: bool)
        requires
            !self.running ==> forall|i: int|
                0 <= i < self.shared_progress@.frontiers.len()
                    ==> #[trigger] self.shared_progress@.frontiers[i] == Seq::<(T, i64)>::empty(),
        ensures
            r == (self.running && incomplete),
    {
        if self.running {
            incomplete
        } else {
            false
        }
    }
}

/// Closing an operator again changes nothing and announces nothing: its name tells once that it
/// is gone.
pub proof fn law_closed_once<T: Timestamp>(
    running: &PerOperatorState<T>,
    closed: &PerOperatorState<T>,
    again: &PerOperatorState<T>,
)
    requires
        closed.closed_if(running, true),
        again.closed_if(closed, true),
    ensures
        again.closed_if(running, true),
        again.name@ == closed.name@,
        closed.closing() is None,
{
}

/// Lists of no targets, as many as `n`.
fn no_edges(n: usize) -> (r: Vec<Vec<Target>>)
    ensures
        r@.len() == n,
        route_targets(r@) == same_routes(Seq::empty(), n as nat),
{
    let mut r: Vec<Vec<Target>> = Vec::new();
    let mut i: usize = 0;
    while i < n
        invariant
            i <= n,
            r@.len() == i,
            forall|k: int| 0 <= k < i ==> (#[trigger] r@[k])@ == Seq::<Target>::empty(),
        decreases n - i,
    {
        r.push(Vec::new());
        i += 1;
    }
    assert(route_targets(r@) =~= same_routes(Seq::empty(), n as nat));
    r
}

/// The numbers of batches are the numbers of their contents.
pub proof fn lemma_contents_len<T: Timestamp>(p: SharedProgress<T>)
    ensures
        p@.frontiers.len() == p.frontiers@.len(),
        p@.consumeds.len() == p.consumeds@.len(),
        p@.internals.len() == p.internals@.len(),
        p@.produceds.len() == p.produceds@.len(),
{
}

/// The targets to which `edges` leads from the device-side node `ghost_node`, once for each of
/// `n` outputs.
fn successor_routes(edges: &Vec<(usize, usize)>, ghost_node: usize, n: usize) -> (r: Vec<Vec<Target>>)
    ensures
        route_targets(r@) == same_routes(successors(edges@, ghost_node), n as nat),
        r@.len() == n,
{
    let ghost targets = successors(edges@, ghost_node);
    let mut r: Vec<Vec<Target>> = Vec::new();
    let mut i: usize = 0;
    while i < n
        invariant
            i <= n,
            r@.len() == i,
            targets == successors(edges@, ghost_node),
            forall|k: int| 0 <= k < i ==> (#[trigger] r@[k])@ == targets,
        decreases n - i,
    {
        let mut row: Vec<Target> = Vec::new();
        let mut j: usize = 0;
        assert(edges@.take(0) =~= Seq::<(usize, usize)>::empty());
        while j < edges.len()
            invariant
                j <= edges@.len(),
                row@ == successors(edges@.take(j as int), ghost_node),
            decreases edges@.len() - j,
        {
            let edge: (usize, usize) = edges[j];
            assert(edges@.take(j + 1).drop_last() =~= edges@.take(j as int));
            assert(edges@.take(j + 1).last() == edge);
            if edge.0 == ghost_node {
                row.push(Target::new(edge.1, 0));
            }
            j += 1;
        }
        assert(edges@.take(j as int) =~= edges@);
        r.push(row);
        i += 1;
    }
    assert(route_targets(r@) =~= same_routes(targets, n as nat));
    r
}

/// Drains what the device-side node `g` consumed into `pointstamps`.
fn report_node_consumed<T: Timestamp>(
    batches: &mut HashMap<usize, Vec<ChangeBatch<T>>>,
    g: usize,
    pointstamps: &mut ChangeBatch<Pointstamp<T>>,
)
    requires
        old(batches)@.contains_key(g),
    ensures
        node_contents(final(batches)@) == node_contents(old(batches)@).insert(
            g,
            no_changes::<T>(node_contents(old(batches)@)[g].len()),
        ),
        final(pointstamps)@ == extended(
            old(pointstamps)@,
            consumed_from(g, node_contents(old(batches)@)[g], 0),
        ),
{
    let ghost before = batches@;
    match batches.remove(&g) {
        Some(mut own) => {
            report_consumed(&mut own, g, pointstamps);
            batches.insert(g, own);
            assert(node_contents(batches@) =~= node_contents(before).insert(g, contents(own@)));
        },
        None => {},
    }
}

/// Drains the changes to the capabilities of the device-side node `g` into `pointstamps`.
fn report_node_internal<T: Timestamp>(
    batches: &mut HashMap<usize, Vec<ChangeBatch<T>>>,
    g: usize,
    pointstamps: &mut ChangeBatch<Pointstamp<T>>,
)
    requires
        old(batches)@.contains_key(g),
    ensures
        node_contents(final(batches)@) == node_contents(old(batches)@).insert(
            g,
            no_changes::<T>(node_contents(old(batches)@)[g].len()),
        ),
        final(pointstamps)@ == extended(
            old(pointstamps)@,
            internal_from(g, node_contents(old(batches)@)[g], 0),
        ),
{
    let ghost before = batches@;
    match batches.remove(&g) {
        Some(mut own) => {
            report_internal(&mut own, g, pointstamps);
            batches.insert(g, own);
            assert(node_contents(batches@) =~= node_contents(before).insert(g, contents(own@)));
        },
        None => {},
    }
}

/// Drains what the device-side node `g` produced: counts the messages at the nodes that `edges`
/// leads to, and wakes these.
fn report_node_produced<T: Timestamp>(
    batches: &mut HashMap<usize, Vec<ChangeBatch<T>>>,
    g: usize,
    edges: &Vec<(usize, usize)>,
    pointstamps: &mut ChangeBatch<Pointstamp<T>>,
    active: &mut ActiveHeap,
)
    requires
        old(batches)@.contains_key(g),
    ensures
        node_contents(final(batches)@) == node_contents(old(batches)@).insert(
            g,
            no_changes::<T>(node_contents(old(batches)@)[g].len()),
        ),
        final(pointstamps)@ == extended(
            old(pointstamps)@,
            produced_from(
                same_routes(successors(edges@, g), node_contents(old(batches)@)[g].len()),
                node_contents(old(batches)@)[g],
                0,
            ),
        ),
        final(active)@ == old(active)@.add(
            woken_from(
                same_routes(successors(edges@, g), node_contents(old(batches)@)[g].len()),
                node_contents(old(batches)@)[g],
                0,
            ).to_multiset(),
        ),
{
    let ghost before = batches@;
    match batches.remove(&g) {
        Some(mut own) => {
            let routes = successor_routes(edges, g, own.len());
            report_produced(&mut own, &routes, &routes, pointstamps, active);
            batches.insert(g, own);
            assert(node_contents(batches@) =~= node_contents(before).insert(g, contents(own@)));
        },
        None => {},
    }
}

/// Drains the reports of each of `ghosts` in turn.
fn extract_ghosts<T: Timestamp>(
    progress: &mut SharedProgress<T>,
    ghosts: &Vec<usize>,
    edges: &Vec<(usize, usize)>,
    pointstamps: &mut ChangeBatch<Pointstamp<T>>,
    active: &mut ActiveHeap,
)
    requires
        has_nodes(old(progress)@, ghosts@),
    ensures
        final(progress)@ == without_nodes(old(progress)@, ghosts@),
        final(pointstamps)@ == extended(
            old(pointstamps)@,
            ghost_statements(old(progress)@, ghosts@, edges@),
        ),
        final(active)@ == old(active)@.add(
            ghost_woken(old(progress)@, ghosts@, edges@).to_multiset(),
        ),
{
    let ghost end = without_nodes(progress@, ghosts@);
    let ghost goal = extended(pointstamps@, ghost_statements(progress@, ghosts@, edges@));
    let ghost woken = active@.add(ghost_woken(progress@, ghosts@, edges@).to_multiset());
    let mut i: usize = 0;
    assert(ghosts@.skip(0) =~= ghosts@);
    while i < ghosts.len()
        invariant
            i <= ghosts@.len(),
            has_nodes(progress@, ghosts@.skip(i as int)),
            without_nodes(progress@, ghosts@.skip(i as int)) == end,
            extended(
                pointstamps@,
                ghost_statements(progress@, ghosts@.skip(i as int), edges@),
            ) == goal,
            active@.add(
                ghost_woken(progress@, ghosts@.skip(i as int), edges@).to_multiset(),
            ) == woken,
        decreases ghosts@.len() - i,
    {
        let g: usize = ghosts[i];
        let ghost p = progress@;
        let ghost bag = active@;
        let ghost rest = ghosts@.skip(i + 1);
        let ghost consumed = consumed_from(g, p.wrapper_consumeds[g], 0);
        let ghost internal = internal_from(g, p.wrapper_internals[g], 0);
        let ghost produced = produced_from(
            same_routes(successors(edges@, g), p.wrapper_produceds[g].len()),
            p.wrapper_produceds[g],
            0,
        );
        let ghost later = ghost_statements(without_node(p, g), rest, edges@);
        proof {
            assert(ghosts@.skip(i as int)[0] == g);
            assert(ghosts@.skip(i as int).drop_first() =~= rest);
            law_extend_in_parts(pointstamps@, consumed + internal + produced, later);
            law_extend_in_parts(pointstamps@, consumed + internal, produced);
            law_extend_in_parts(pointstamps@, consumed, internal);
            lemma_bag_join(node_woken(p, g, edges@), ghost_woken(without_node(p, g), rest, edges@));
        }
        report_node_consumed(&mut progress.wrapper_consumeds, g, pointstamps);
        report_node_internal(&mut progress.wrapper_internals, g, pointstamps);
        report_node_produced(&mut progress.wrapper_produceds, g, edges, pointstamps, active);
        proof {
            assert(progress@ == without_node(p, g));
            assert forall|k: int| 0 <= k < rest.len() implies {
                &&& progress@.wrapper_consumeds.contains_key(#[trigger] rest[k])
                &&& progress@.wrapper_internals.contains_key(rest[k])
                &&& progress@.wrapper_produceds.contains_key(rest[k])
            } by {
                assert(ghosts@.skip(i as int)[k + 1] == rest[k]);
            }
            assert(active@.add(
                ghost_woken(without_node(p, g), rest, edges@).to_multiset(),
            ) =~= bag.add(ghost_woken(p, ghosts@.skip(i as int), edges@).to_multiset()));
        }
        i += 1;
    }
    proof {
        let none = ghosts@.skip(i as int);
        assert(ghost_woken(progress@, none, edges@) =~= Seq::<usize>::empty());
        assert(ghost_woken(progress@, none, edges@).to_multiset() =~= Multiset::<usize>::empty());
        assert(active@ =~= active@.add(Multiset::<usize>::empty()));
    }
}

/// Taking out the reports of device-side nodes leaves the operator's own alone.
pub proof fn lemma_own_kept<T>(p: ProgressContents<T>, ghosts: Seq<usize>)
    ensures
        without_nodes(p, ghosts).frontiers == p.frontiers,
        without_nodes(p, ghosts).consumeds == p.consumeds,
        without_nodes(p, ghosts).internals == p.internals,
        without_nodes(p, ghosts).produceds == p.produceds,
        without_nodes(p, ghosts).wrapper_frontiers == p.wrapper_frontiers,
    decreases ghosts.len(),
{
    if ghosts.len() > 0 {
        lemma_own_kept(without_node(p, ghosts[0]), ghosts.drop_first());
    }
}

/// The device-side nodes that the operator at `index` stands for.
pub open spec fn ghosts_at(wrapper_ghost: Map<usize, Vec<usize>>, index: usize) -> Seq<usize> {
    if wrapper_ghost.contains_key(index) {
        wrapper_ghost[index]@
    } else {
        Seq::empty()
    }
}

/// The edges between these device-side nodes.
pub open spec fn ghost_edges_at(
    wrapper_ghost_edges: Map<usize, Vec<(usize, usize)>>,
    index: usize,
) -> Seq<(usize, usize)> {
    if wrapper_ghost_edges.contains_key(index) {
        wrapper_ghost_edges[index]@
    } else {
        Seq::empty()
    }
}

impl<T: Timestamp> PerOperatorState<T> {
    /// The device-side nodes that the operator stands for.
    pub open spec fn ghosts(&self, wrapper_ghost: Map<usize, Vec<usize>>) -> Seq<usize> {
        if self.sees_ghosts {
            ghosts_at(wrapper_ghost, self.index)
        } else {
            Seq::empty()
        }
    }

    /// All that the operator reports: what the device-side nodes report in turn, then what it
    /// consumed, what changed in its capabilities, and what it produced.
    pub open spec fn statements(
        &self,
        wrapper_ghost: Map<usize, Vec<usize>>,
        wrapper_ghost_edges: Map<usize, Vec<(usize, usize)>>,
    ) -> Seq<(Pointstamp<T>, i64)> {
        ghost_statements(
            self.shared_progress@,
            self.ghosts(wrapper_ghost),
            ghost_edges_at(wrapper_ghost_edges, self.index),
        ) + own_statements(
            self.shared_progress@,
            self.index,
            route_targets(self.ghost_edges@),
        )
    }

    /// The nodes that what was produced wakes.
    pub open spec fn woken(
        &self,
        wrapper_ghost: Map<usize, Vec<usize>>,
        wrapper_ghost_edges: Map<usize, Vec<(usize, usize)>>,
    ) -> Seq<usize> {
        ghost_woken(
            self.shared_progress@,
            self.ghosts(wrapper_ghost),
            ghost_edges_at(wrapper_ghost_edges, self.index),
        ) + woken_from(route_targets(self.edges@), self.shared_progress@.produceds, 0)
    }

    /// Takes out what the operator reports, as changes in the counts of `pointstamps`, and
    /// wakes the nodes that have messages to come.
    pub fn extract_progress(
        &mut self,
        wrapper_ghost: &HashMap<usize, Vec<usize>>,
        wrapper_ghost_edges: &HashMap<usize, Vec<(usize, usize)>>,
        pointstamps: &mut ChangeBatch<Pointstamp<T>>,
        active: &mut ActiveHeap,
    )
        requires
            old(self).wf(),
            old(self).sees_ghosts && wrapper_ghost@.contains_key(old(self).index)
                ==> wrapper_ghost_edges@.contains_key(old(self).index),
            has_nodes(old(self).shared_progress@, old(self).ghosts(wrapper_ghost@)),
        ensures
            final(self).wf(),
            final(self).same_operator(old(self)),
            final(self).shared_progress@ == without_own(
                without_nodes(old(self).shared_progress@, old(self).ghosts(wrapper_ghost@)),
            ),
            final(pointstamps)@ == extended(
                old(pointstamps)@,
                old(self).statements(wrapper_ghost@, wrapper_ghost_edges@),
            ),
            final(active)@ == old(active)@.add(
                old(self).woken(wrapper_ghost@, wrapper_ghost_edges@).to_multiset(),
            ),
    {
        let ghost p = self.shared_progress@;
        let ghost nodes = self.ghosts(wrapper_ghost@);
        let ghost inner = ghost_edges_at(wrapper_ghost_edges@, self.index);
        let ghost first = ghost_statements(p, nodes, inner);
        let ghost start = pointstamps@;
        let ghost bag = active@;
        if self.sees_ghosts {
            if let Some(ghosts) = wrapper_ghost.get(&self.index) {
                if let Some(edges) = wrapper_ghost_edges.get(&self.index) {
                    extract_ghosts(&mut self.shared_progress, ghosts, edges, pointstamps, active);
                }
            }
        }
        let ghost q = self.shared_progress@;
        proof {
            if nodes.len() == 0 {
                assert(ghost_woken(p, nodes, inner).to_multiset() =~= Multiset::<usize>::empty());
                assert(bag =~= bag.add(Multiset::<usize>::empty()));
            }
            assert(pointstamps@ == extended(start, first));
            assert(active@ == bag.add(ghost_woken(p, nodes, inner).to_multiset()));
            lemma_own_kept(p, nodes);
            lemma_contents_len(self.shared_progress);
            let counted = route_targets(self.ghost_edges@);
            let consumed = consumed_from(self.index, p.consumeds, 0);
            let internal = internal_from(self.index, p.internals, 0);
            let produced = produced_from(counted, p.produceds, 0);
            law_extend_in_parts(start, first, consumed + internal + produced);
            law_extend_in_parts(pointstamps@, consumed + internal, produced);
            law_extend_in_parts(pointstamps@, consumed, internal);
            lemma_bag_join(
                ghost_woken(p, nodes, inner),
                woken_from(route_targets(self.edges@), p.produceds, 0),
            );
        }
        let ghost bag2 = active@;
        report_consumed(&mut self.shared_progress.consumeds, self.index, pointstamps);
        report_internal(&mut self.shared_progress.internals, self.index, pointstamps);
        report_produced(
            &mut self.shared_progress.produceds,
            &self.edges,
            &self.ghost_edges,
            pointstamps,
            active,
        );
        proof {
            lemma_contents_len(self.shared_progress);
            assert(self.shared_progress@ == without_own(q));
            let own = woken_from(route_targets(self.edges@), p.produceds, 0);
            assert(bag.add(
                ghost_woken(p, nodes, inner).to_multiset().add(own.to_multiset()),
            ) =~= bag2.add(own.to_multiset()));
        }
    }
}

/// Whether an increment at `time` is supported: by a message consumed no later, or by the
/// times `implied` that may still reach the output.
pub open spec fn supported<T: Timestamp>(
    consumeds: Seq<Seq<(T, i64)>>,
    implied: Seq<T>,
    time: T,
) -> bool {
    ||| exists|i: int, k: int|
        0 <= i < consumeds.len() && 0 <= k < consumeds[i].len() && (
        #[trigger] consumeds[i][k]).1 > 0 && consumeds[i][k].0.le(time)
    ||| dominates(implied, time)
}

/// The time of the first of `changes` that is an increment with no support.
pub open spec fn unsupported_in<T: Timestamp>(
    changes: Seq<(T, i64)>,
    consumeds: Seq<Seq<(T, i64)>>,
    implied: Seq<T>,
) -> Option<T>
    decreases changes.len(),
{
    if changes.len() == 0 {
        None
    } else if changes[0].1 > 0 && !supported(consumeds, implied, changes[0].0) {
        Some(changes[0].0)
    } else {
        unsupported_in(changes.drop_first(), consumeds, implied)
    }
}

/// The first increment with no support at the outputs from `port` on, with its output.
pub open spec fn first_unsupported<T: Timestamp>(
    batches: Seq<Seq<(T, i64)>>,
    consumeds: Seq<Seq<(T, i64)>>,
    implied: Seq<Seq<T>>,
    port: nat,
) -> Option<(usize, T)>
    decreases batches.len() - port,
{
    if port >= batches.len() {
        None
    } else {
        match unsupported_in(batches[port as int], consumeds, implied[port as int]) {
            Some(t) => Some((port as usize, t)),
            None => first_unsupported(batches, consumeds, implied, port + 1),
        }
    }
}

/// The times that may still reach each output of a node.
pub open spec fn implied_at<T: Timestamp>(state: &PerOperator<T>) -> Seq<Seq<T>> {
    state.sources@.map_values(|p: PortInfo<T>| p.implications.minimal())
}

/// What is wrong with the reports `p`.
pub open spec fn progress_error<T: Timestamp>(
    p: ProgressContents<T>,
    implied: Seq<Seq<T>>,
) -> Option<ProgressError<T>> {
    match first_unsupported(p.internals, p.consumeds, implied, 0) {
        Some((output, time)) => Some(ProgressError::Internal { output, time }),
        None => match first_unsupported(p.produceds, p.consumeds, implied, 0) {
            Some((output, time)) => Some(ProgressError::Produced { output, time }),
            None => None,
        },
    }
}

/// Whether every increment of `batches` is supported.
pub open spec fn all_supported<T: Timestamp>(
    batches: Seq<Seq<(T, i64)>>,
    consumeds: Seq<Seq<(T, i64)>>,
    implied: Seq<Seq<T>>,
) -> bool {
    forall|i: int, k: int|
        0 <= i < batches.len() && 0 <= k < batches[i].len() && (#[trigger] batches[i][k]).1 > 0
            ==> supported(consumeds, implied[i], batches[i][k].0)
}

proof fn lemma_unsupported_in<T: Timestamp>(
    changes: Seq<(T, i64)>,
    consumeds: Seq<Seq<(T, i64)>>,
    implied: Seq<T>,
)
    ensures
        unsupported_in(changes, consumeds, implied) is None <==> forall|k: int|
            0 <= k < changes.len() && (#[trigger] changes[k]).1 > 0 ==> supported(
                consumeds,
                implied,
                changes[k].0,
            ),
    decreases changes.len(),
{
    if changes.len() > 0 {
        let rest = changes.drop_first();
        lemma_unsupported_in(rest, consumeds, implied);
        assert forall|k: int| 0 <= k < rest.len() implies #[trigger] rest[k] == changes[k + 1] by {}
        if unsupported_in(changes, consumeds, implied) is None {
            assert forall|k: int|
                0 <= k < changes.len() && (#[trigger] changes[k]).1 > 0 implies supported(
                consumeds,
                implied,
                changes[k].0,
            ) by {
                if k > 0 {
                    assert(rest[k - 1] == changes[k]);
                }
            }
        }
    }
}

proof fn lemma_first_unsupported<T: Timestamp>(
    batches: Seq<Seq<(T, i64)>>,
    consumeds: Seq<Seq<(T, i64)>>,
    implied: Seq<Seq<T>>,
    port: nat,
)
    ensures
        first_unsupported(batches, consumeds, implied, port) is None <==> forall|i: int, k: int|
            port <= i < batches.len() && 0 <= k < batches[i].len() && (#[trigger] batches[i][k]).1
                > 0 ==> supported(consumeds, implied[i], batches[i][k].0),
    decreases batches.len() - port,
{
    if port < batches.len() {
        lemma_first_unsupported(batches, consumeds, implied, port + 1);
        lemma_unsupported_in(batches[port as int], consumeds, implied[port as int]);
    }
}

/// Reports are in order exactly where each increment of a capability and each message produced
/// is supported by a message consumed no later or by a time that may still reach the output.
pub proof fn law_progress_error<T: Timestamp>(p: ProgressContents<T>, implied: Seq<Seq<T>>)
    ensures
        progress_error(p, implied) is None <==> (all_supported(p.internals, p.consumeds, implied)
            && all_supported(p.produceds, p.consumeds, implied)),
{
    lemma_first_unsupported(p.internals, p.consumeds, implied, 0);
    lemma_first_unsupported(p.produceds, p.consumeds, implied, 0);
}

/// Decides whether an increment is supported.
fn is_supported<T: Timestamp>(
    consumeds: &Vec<ChangeBatch<T>>,
    implied: &MutableAntichain<T>,
    time: &T,
) -> (r: bool)
    ensures
        r == supported(contents(consumeds@), implied.minimal(), *time),
{
    let ghost all = contents(consumeds@);
    let mut i: usize = 0;
    while i < consumeds.len()
        invariant
            i <= consumeds@.len(),
            all == contents(consumeds@),
            forall|a: int, k: int|
                0 <= a < i && 0 <= k < all[a].len() ==> !((#[trigger] all[a][k]).1 > 0
                    && all[a][k].0.le(*time)),
        decreases consumeds@.len() - i,
    {
        let entries = consumeds[i].entries();
        assert(entries@ == all[i as int]);
        let mut j: usize = 0;
        while j < entries.len()
            invariant
                j <= entries@.len(),
                i < consumeds@.len(),
                all == contents(consumeds@),
                entries@ == all[i as int],
                forall|k: int|
                    0 <= k < j ==> !((#[trigger] all[i as int][k]).1 > 0 && all[i as int][k].0.le(
                        *time,
                    )),
            decreases entries@.len() - j,
        {
            let (t, d) = entries[j];
            assert(all[i as int][j as int] == (t, d));
            if d > 0 && t.less_equal(time) {
                return true;
            }
            j += 1;
        }
        i += 1;
    }
    implied.less_equal(time)
}

/// Finds the first increment of `batches` with no support.
fn find_unsupported<T: Timestamp>(
    batches: &Vec<ChangeBatch<T>>,
    consumeds: &Vec<ChangeBatch<T>>,
    state: &PerOperator<T>,
) -> (r: Option<(usize, T)>)
    requires
        batches@.len() <= state.sources@.len(),
    ensures
        r == first_unsupported(contents(batches@), contents(consumeds@), implied_at(state), 0),
{
    let ghost all = contents(batches@);
    let ghost taken = contents(consumeds@);
    let ghost implied = implied_at(state);
    let ghost goal = first_unsupported(all, taken, implied, 0);
    let mut port: usize = 0;
    while port < batches.len()
        invariant
            port <= batches@.len(),
            batches@.len() <= state.sources@.len(),
            all == contents(batches@),
            taken == contents(consumeds@),
            implied == implied_at(state),
            goal == first_unsupported(all, taken, implied, 0),
            first_unsupported(all, taken, implied, port as nat) == goal,
        decreases batches@.len() - port,
    {
        let entries = batches[port].entries();
        let source = &state.sources[port].implications;
        assert(entries@ == all[port as int]);
        assert(source.minimal() == implied[port as int]);
        assert(entries@.skip(0) =~= entries@);
        let mut j: usize = 0;
        while j < entries.len()
            invariant
                j <= entries@.len(),
                port < batches@.len(),
                all == contents(batches@),
                taken == contents(consumeds@),
                entries@ == all[port as int],
                source.minimal() == implied[port as int],
                implied == implied_at(state),
                goal == first_unsupported(all, taken, implied, 0),
                first_unsupported(all, taken, implied, port as nat) == goal,
                unsupported_in(entries@.skip(j as int), taken, implied[port as int])
                    == unsupported_in(entries@, taken, implied[port as int]),
            decreases entries@.len() - j,
        {
            let (time, diff) = entries[j];
            assert(entries@.skip(j as int)[0] == (time, diff));
            assert(entries@.skip(j as int).drop_first() =~= entries@.skip(j + 1));
            if diff > 0 && !is_supported(consumeds, source, &time) {
                return Some((port, time));
            }
            j += 1;
        }
        assert(entries@.skip(j as int).len() == 0);
        port += 1;
    }
    None
}

impl<T: Timestamp> PerOperatorState<T> {
    /// Tests the reports of the operator against the times that may reach its outputs, and
    /// returns the first increment that nothing supports.
    pub fn validate_progress(&self, child_state: &PerOperator<T>) -> (r: Result<
        (),
        ProgressError<T>,
    >)
        requires
            self.shared_progress.internals@.len() <= child_state.sources@.len(),
            self.shared_progress.produceds@.len() <= child_state.sources@.len(),
        ensures
            match progress_error(self.shared_progress@, implied_at(child_state)) {
                Some(e) => r == Err::<(), ProgressError<T>>(e),
                None => r == Ok::<(), ProgressError<T>>(()),
            },
    {
        let progress = &self.shared_progress;
        if let Some((output, time)) = find_unsupported(
            &progress.internals,
            &progress.consumeds,
            child_state,
        ) {
            return Err(ProgressError::Internal { output, time });
        }
        if let Some((output, time)) = find_unsupported(
            &progress.produceds,
            &progress.consumeds,
            child_state,
        ) {
            return Err(ProgressError::Produced { output, time });
        }
        Ok(())
    }
}

/// No changes make no statements.
proof fn lemma_nothing_said<T>(node: usize, routes: Seq<Seq<Target>>, n: nat, port: nat)
    ensures
        consumed_from(node, no_changes::<T>(n), port) == Seq::<(Pointstamp<T>, i64)>::empty(),
        internal_from(node, no_changes::<T>(n), port) == Seq::<(Pointstamp<T>, i64)>::empty(),
        produced_from(routes, no_changes::<T>(n), port) == Seq::<(Pointstamp<T>, i64)>::empty(),
        woken_from(routes, no_changes::<T>(n), port) == Seq::<usize>::empty(),
    decreases n - port,
{
    if port < n {
        lemma_nothing_said::<T>(node, routes, n, port + 1);
        assert(no_changes::<T>(n)[port as int] =~= Seq::<(T, i64)>::empty());
        let nothing = Seq::<(Pointstamp<T>, i64)>::empty();
        assert(consumed_from(node, no_changes::<T>(n), port) =~= nothing);
        assert(internal_from(node, no_changes::<T>(n), port) =~= nothing);
        assert(produced_from(routes, no_changes::<T>(n), port) =~= nothing);
        assert(woken_from(routes, no_changes::<T>(n), port) =~= Seq::<usize>::empty());
    }
}

/// Whether nothing is left to report of the device-side node `g`.
spec fn is_reported<T>(p: ProgressContents<T>, g: usize) -> bool {
    &&& p.wrapper_consumeds[g] == no_changes::<T>(p.wrapper_consumeds[g].len())
    &&& p.wrapper_internals[g] == no_changes::<T>(p.wrapper_internals[g].len())
    &&& p.wrapper_produceds[g] == no_changes::<T>(p.wrapper_produceds[g].len())
}

proof fn lemma_reported_kept<T>(p: ProgressContents<T>, ghosts: Seq<usize>, g: usize)
    requires
        is_reported(p, g),
    ensures
        is_reported(without_nodes(p, ghosts), g),
    decreases ghosts.len(),
{
    if ghosts.len() > 0 {
        let q = without_node(p, ghosts[0]);
        assert(no_changes::<T>(p.wrapper_consumeds[ghosts[0]].len()) =~= no_changes::<T>(
            q.wrapper_consumeds[ghosts[0]].len(),
        ));
        assert(is_reported(q, g));
        lemma_reported_kept(q, ghosts.drop_first(), g);
    }
}

proof fn lemma_all_reported<T>(p: ProgressContents<T>, ghosts: Seq<usize>)
    ensures
        forall|k: int|
            0 <= k < ghosts.len() ==> is_reported(without_nodes(p, ghosts), #[trigger] ghosts[k]),
    decreases ghosts.len(),
{
    if ghosts.len() > 0 {
        let q = without_node(p, ghosts[0]);
        let rest = ghosts.drop_first();
        lemma_all_reported(q, rest);
        assert(is_reported(q, ghosts[0]));
        lemma_reported_kept(q, rest, ghosts[0]);
        assert forall|k: int| 0 <= k < ghosts.len() implies is_reported(
            without_nodes(p, ghosts),
            #[trigger] ghosts[k],
        ) by {
            if k > 0 {
                assert(rest[k - 1] == ghosts[k]);
            }
        }
    }
}

proof fn lemma_silent_ghosts<T>(
    p: ProgressContents<T>,
    ghosts: Seq<usize>,
    edges: Seq<(usize, usize)>,
)
    requires
        forall|k: int| 0 <= k < ghosts.len() ==> is_reported(p, #[trigger] ghosts[k]),
    ensures
        ghost_statements(p, ghosts, edges) == Seq::<(Pointstamp<T>, i64)>::empty(),
        ghost_woken(p, ghosts, edges) == Seq::<usize>::empty(),
    decreases ghosts.len(),
{
    if ghosts.len() > 0 {
        let g = ghosts[0];
        let q = without_node(p, g);
        let rest = ghosts.drop_first();
        assert(is_reported(p, g));
        assert forall|k: int| 0 <= k < rest.len() implies is_reported(q, #[trigger] rest[k]) by {
            assert(rest[k] == ghosts[k + 1]);
            assert(is_reported(p, ghosts[k + 1]));
        }
        lemma_silent_ghosts(q, rest, edges);
        let routes = same_routes(successors(edges, g), p.wrapper_produceds[g].len());
        lemma_nothing_said::<T>(g, routes, p.wrapper_consumeds[g].len(), 0);
        lemma_nothing_said::<T>(g, routes, p.wrapper_internals[g].len(), 0);
        lemma_nothing_said::<T>(g, routes, p.wrapper_produceds[g].len(), 0);
        assert(node_statements(p, g, edges) =~= Seq::<(Pointstamp<T>, i64)>::empty());
        assert(ghost_statements(p, ghosts, edges) =~= Seq::<(Pointstamp<T>, i64)>::empty());
        assert(ghost_woken(p, ghosts, edges) =~= Seq::<usize>::empty());
    }
}

/// What was reported is reported once: progress information whose reports were taken out makes
/// no statements and wakes no one, until there is something new.
pub proof fn law_reported_once<T>(
    p: ProgressContents<T>,
    ghosts: Seq<usize>,
    edges: Seq<(usize, usize)>,
    index: usize,
    counted: Seq<Seq<Target>>,
    routes: Seq<Seq<Target>>,
)
    ensures
        ({
            let q = without_own(without_nodes(p, ghosts));
            &&& ghost_statements(q, ghosts, edges) + own_statements(q, index, counted) == Seq::<
                (Pointstamp<T>, i64),
            >::empty()
            &&& ghost_woken(q, ghosts, edges) + woken_from(routes, q.produceds, 0) == Seq::<
                usize,
            >::empty()
        }),
{
    let r = without_nodes(p, ghosts);
    let q = without_own(r);
    lemma_all_reported(p, ghosts);
    assert forall|k: int| 0 <= k < ghosts.len() implies is_reported(q, #[trigger] ghosts[k]) by {
        assert(is_reported(r, ghosts[k]));
    }
    lemma_silent_ghosts(q, ghosts, edges);
    lemma_nothing_said::<T>(index, counted, r.consumeds.len(), 0);
    lemma_nothing_said::<T>(index, counted, r.internals.len(), 0);
    lemma_nothing_said::<T>(index, counted, r.produceds.len(), 0);
    lemma_nothing_said::<T>(index, routes, r.produceds.len(), 0);
    assert(ghost_statements(q, ghosts, edges) + own_statements(q, index, counted) =~= Seq::<
        (Pointstamp<T>, i64),
    >::empty());
    assert(ghost_woken(q, ghosts, edges) + woken_from(routes, q.produceds, 0) =~= Seq::<
        usize,
    >::empty());
}

/// What a device-side node produces goes to the first input of each node that an edge leads to from
/// it, as often as there are such edges.
pub proof fn law_successors_counted(edges: Seq<(usize, usize)>, g: usize, target: Target)
    ensures
        successors(edges, g).to_multiset().count(target) == (if target.port == 0 {
            edges.to_multiset().count((g, target.node))
        } else {
            0
        }),
    decreases edges.len(),
{
    let pair = (g, target.node);
    if edges.len() > 0 {
        let before = edges.drop_last();
        law_successors_counted(before, g, target);
        lemma_count_ends(edges, pair);
        if edges.last().0 == g {
            let all = successors(edges, g);
            assert(all.drop_last() =~= successors(before, g));
            assert(all.last() == (Target { node: edges.last().1, port: 0 }));
            lemma_count_ends(all, target);
        }
    } else {
        lemma_count_small(target, target);
        lemma_count_small(pair, pair);
        assert(edges =~= Seq::<(usize, usize)>::empty());
    }
}

/// By how much the count of messages at an input changes where `node` reports what it consumed and
/// produced, and `reach` tells how many edges lead from each of its outputs to the input.
pub open spec fn change_at_input<T: Ordered>(
    node: usize,
    consumeds: Seq<Seq<(T, i64)>>,
    produceds: Seq<Seq<(T, i64)>>,
    reach: spec_fn(int) -> int,
    target: Target,
    time: T,
) -> int {
    (if target.node == node && target.port < consumeds.len() {
        -total(consumeds[target.port as int], time)
    } else {
        0
    }) + sum_over(produceds.len(), |o: int| reach(o) * total(produceds[o], time))
}

/// By how much the count of capabilities at an output changes where `node` reports on its own.
pub open spec fn change_at_output<T: Ordered>(
    node: usize,
    internals: Seq<Seq<(T, i64)>>,
    source: Source,
    time: T,
) -> int {
    if source.node == node && source.port < internals.len() {
        total(internals[source.port as int], time)
    } else {
        0
    }
}

proof fn lemma_three_parts<T: Ordered>(
    node: usize,
    consumeds: Seq<Seq<(T, i64)>>,
    internals: Seq<Seq<(T, i64)>>,
    produceds: Seq<Seq<(T, i64)>>,
    routes: Seq<Seq<Target>>,
    place: Location,
    time: T,
)
    requires
        consumeds.len() <= usize::MAX,
        internals.len() <= usize::MAX,
    ensures
        ({
            let list = consumed_from(node, consumeds, 0) + internal_from(node, internals, 0)
                + produced_from(routes, produceds, 0);
            wrapped(total(list, Pointstamp { location: place, time })) == (match place.port {
                Port::Target(port) => wrapped(
                    change_at_input(
                        node,
                        consumeds,
                        produceds,
                        |o: int|
                            routes[o].to_multiset().count(
                                Target { node: place.node, port },
                            ) as int,
                        Target { node: place.node, port },
                        time,
                    ),
                ),
                Port::Source(port) => wrapped(
                    change_at_output(node, internals, Source { node: place.node, port }, time),
                ),
            })
        }),
{
    let at = Pointstamp { location: place, time };
    let a = consumed_from(node, consumeds, 0);
    let b = internal_from(node, internals, 0);
    let c = produced_from(routes, produceds, 0);
    lemma_total_join(a + b, c, at);
    lemma_total_join(a, b, at);
    lemma_total_consumed(node, consumeds, 0, place, time);
    lemma_total_consumed(node, internals, 0, place, time);
    match place.port {
        Port::Target(port) => {
            let target = Target { node: place.node, port };
            let reach = |o: int| routes[o].to_multiset().count(target) as int;
            let f = |o: int| routes[o].to_multiset().count(target) * total(produceds[o], time);
            let g = |o: int| reach(o) * total(produceds[o], time);
            law_produced_arrives(routes, produceds, target, time);
            lemma_sum_same(produceds.len(), f, g);
            let own = if target.node == node && target.port < consumeds.len() {
                -total(consumeds[target.port as int], time)
            } else {
                0
            };
            assert(wrapped(total(a, at)) == wrapped(own));
            lemma_wrapped_sum(total(a, at), own, total(c, at));
        },
        Port::Source(port) => {
            law_produced_arrives(routes, produceds, Target { node: 0, port: 0 }, time);
            let here = Location { node: place.node, port: Port::Source(port) };
            assert(total(c, Pointstamp { location: here, time }) == 0);
            assert(wrapped(total(a, at)) == wrapped(0));
            lemma_wrapped_sum(total(a, at), 0, total(b, at));
        },
    }
}

/// What an operator reports of itself changes counts so: at each of its inputs, what it consumed is
/// no more; at each input that an edge leads to from one of its outputs, what it produced there is
/// on its way, once for each edge; at each of its outputs, its capabilities change as it says. No
/// other count changes. Counts are in two's complement.
pub proof fn law_own_reports_counted<T: Ordered>(
    p: ProgressContents<T>,
    index: usize,
    counted: Seq<Seq<Target>>,
    target: Target,
    source: Source,
    time: T,
)
    requires
        p.consumeds.len() <= usize::MAX,
        p.internals.len() <= usize::MAX,
    ensures
        wrapped(
            total(
                own_statements(p, index, counted),
                Pointstamp {
                    location: Location { node: target.node, port: Port::Target(target.port) },
                    time,
                },
            ),
        ) == wrapped(
            change_at_input(
                index,
                p.consumeds,
                p.produceds,
                |o: int| counted[o].to_multiset().count(target) as int,
                target,
                time,
            ),
        ),
        wrapped(
            total(
                own_statements(p, index, counted),
                Pointstamp {
                    location: Location { node: source.node, port: Port::Source(source.port) },
                    time,
                },
            ),
        ) == wrapped(change_at_output(index, p.internals, source, time)),
{
    let input = Location { node: target.node, port: Port::Target(target.port) };
    let output = Location { node: source.node, port: Port::Source(source.port) };
    lemma_three_parts(index, p.consumeds, p.internals, p.produceds, counted, input, time);
    lemma_three_parts(index, p.consumeds, p.internals, p.produceds, counted, output, time);
}

/// What is reported of a device-side node changes counts as what an operator reports of itself,
/// with the edges between device-side nodes in place of its own: all its outputs lead to the first
/// input of each node that such an edge leads to.
pub proof fn law_node_reports_counted<T: Ordered>(
    p: ProgressContents<T>,
    g: usize,
    edges: Seq<(usize, usize)>,
    target: Target,
    source: Source,
    time: T,
)
    requires
        p.wrapper_consumeds[g].len() <= usize::MAX,
        p.wrapper_internals[g].len() <= usize::MAX,
    ensures
        wrapped(
            total(
                node_statements(p, g, edges),
                Pointstamp {
                    location: Location { node: target.node, port: Port::Target(target.port) },
                    time,
                },
            ),
        ) == wrapped(
            change_at_input(
                g,
                p.wrapper_consumeds[g],
                p.wrapper_produceds[g],
                |o: int|
                    if target.port == 0 {
                        edges.to_multiset().count((g, target.node)) as int
                    } else {
                        0
                    },
                target,
                time,
            ),
        ),
        wrapped(
            total(
                node_statements(p, g, edges),
                Pointstamp {
                    location: Location { node: source.node, port: Port::Source(source.port) },
                    time,
                },
            ),
        ) == wrapped(change_at_output(g, p.wrapper_internals[g], source, time)),
{
    let input = Location { node: target.node, port: Port::Target(target.port) };
    let output = Location { node: source.node, port: Port::Source(source.port) };
    let consumeds = p.wrapper_consumeds[g];
    let internals = p.wrapper_internals[g];
    let produceds = p.wrapper_produceds[g];
    let routes = same_routes(successors(edges, g), produceds.len());
    lemma_three_parts(g, consumeds, internals, produceds, routes, input, time);
    lemma_three_parts(g, consumeds, internals, produceds, routes, output, time);
    law_successors_counted(edges, g, target);
    let a = |o: int| routes[o].to_multiset().count(target) as int;
    let b = |o: int|
        if target.port == 0 {
            edges.to_multiset().count((g, target.node)) as int
        } else {
            0
        };
    let f = |o: int| a(o) * total(produceds[o], time);
    let h = |o: int| b(o) * total(produceds[o], time);
    assert forall|o: int| 0 <= o < produceds.len() implies #[trigger] f(o) == h(o) by {
        assert(routes[o] == successors(edges, g));
    }
    lemma_sum_same(produceds.len(), f, h);
}

/// Taking out what is reported of one node leaves what is reported of another.
proof fn lemma_other_node_kept<T>(
    p: ProgressContents<T>,
    g: usize,
    other: usize,
    edges: Seq<(usize, usize)>,
)
    requires
        g != other,
    ensures
        node_statements(without_node(p, g), other, edges) == node_statements(p, other, edges),
        node_woken(without_node(p, g), other, edges) == node_woken(p, other, edges),
{
}

/// What is reported of several device-side nodes changes each count by the sum of what is reported
/// of each, and wakes whom each of them wakes.
pub proof fn law_nodes_add_up<T: Ordered>(
    p: ProgressContents<T>,
    ghosts: Seq<usize>,
    edges: Seq<(usize, usize)>,
    at: Pointstamp<T>,
    node: usize,
)
    requires
        ghosts.no_duplicates(),
    ensures
        total(ghost_statements(p, ghosts, edges), at) == sum_over(
            ghosts.len(),
            |k: int| total(node_statements(p, ghosts[k], edges), at),
        ),
        ghost_woken(p, ghosts, edges).to_multiset().count(node) == sum_over(
            ghosts.len(),
            |k: int| node_woken(p, ghosts[k], edges).to_multiset().count(node) as int,
        ),
    decreases ghosts.len(),
{
    if ghosts.len() > 0 {
        let g = ghosts[0];
        let rest = ghosts.drop_first();
        let q = without_node(p, g);
        assert(rest.no_duplicates()) by {
            assert forall|i: int, j: int|
                0 <= i < rest.len() && 0 <= j < rest.len() && i != j implies rest[i] != rest[j] by {
                assert(rest[i] == ghosts[i + 1] && rest[j] == ghosts[j + 1]);
            }
        }
        law_nodes_add_up(q, rest, edges, at, node);
        lemma_total_join(node_statements(p, g, edges), ghost_statements(q, rest, edges), at);
        lemma_count_join(node_woken(p, g, edges), ghost_woken(q, rest, edges), node);
        let f = |k: int| total(node_statements(p, ghosts[k], edges), at);
        let f1 = |k: int| total(node_statements(q, rest[k], edges), at);
        let h = |k: int| node_woken(p, ghosts[k], edges).to_multiset().count(node) as int;
        let h1 = |k: int| node_woken(q, rest[k], edges).to_multiset().count(node) as int;
        assert forall|k: int| 0 <= k < ghosts.len() - 1 implies #[trigger] f1(k) == f(k + 1) by {
            assert(rest[k] == ghosts[k + 1]);
            assert(ghosts[k + 1] != ghosts[0]);
            lemma_other_node_kept(p, g, rest[k], edges);
        }
        assert forall|k: int| 0 <= k < ghosts.len() - 1 implies #[trigger] h1(k) == h(k + 1) by {
            assert(rest[k] == ghosts[k + 1]);
            assert(ghosts[k + 1] != ghosts[0]);
            lemma_other_node_kept(p, g, rest[k], edges);
        }
        lemma_sum_first(ghosts.len(), f, f1);
        lemma_sum_first(ghosts.len(), h, h1);
    } else {
        lemma_count_small(node, node);
    }
}

/// Whom a device-side node wakes: each node that an edge leads to from it, once for each such edge
/// and each change among what it produced.
pub proof fn law_node_wakes<T>(
    p: ProgressContents<T>,
    g: usize,
    edges: Seq<(usize, usize)>,
    node: usize,
)
    ensures
        node_woken(p, g, edges).to_multiset().count(node) == sum_over(
            p.wrapper_produceds[g].len(),
            |o: int|
                (edges.to_multiset().count((g, node)) * p.wrapper_produceds[g][o].len()) as int,
        ),
{
    let produceds = p.wrapper_produceds[g];
    let routes = same_routes(successors(edges, g), produceds.len());
    law_receivers_woken(routes, produceds, node);
    lemma_successors_of(edges, g, node);
    let f = |o: int|
        (routes[o].filter(|t: Target| t.node == node).len() * produceds[o].len()) as int;
    let h = |o: int| (edges.to_multiset().count((g, node)) * produceds[o].len()) as int;
    assert forall|o: int| 0 <= o < produceds.len() implies #[trigger] f(o) == h(o) by {
        assert(routes[o] == successors(edges, g));
    }
    lemma_sum_same(produceds.len(), f, h);
}

proof fn lemma_successors_of(edges: Seq<(usize, usize)>, g: usize, node: usize)
    ensures
        successors(edges, g).filter(|t: Target| t.node == node).len() == edges.to_multiset().count(
            (g, node),
        ),
    decreases edges.len(),
{
    reveal(Seq::filter);
    if edges.len() > 0 {
        lemma_successors_of(edges.drop_last(), g, node);
        lemma_count_ends(edges, (g, node));
        if edges.last().0 == g {
            let all = successors(edges, g);
            assert(all.drop_last() =~= successors(edges.drop_last(), g));
        }
    } else {
        lemma_count_small((g, node), (g, node));
        assert(edges =~= Seq::<(usize, usize)>::empty());
    }
}

/// What a child reports is what is reported of each device-side node that it stands for, if it
/// stands for any, and what it reports of itself, counted along the edges along which progress is
/// tracked. It wakes whom these nodes wake, and those that its messages travel to.
pub proof fn law_child_reports<T: Timestamp>(
    child: &PerOperatorState<T>,
    wrapper_ghost: Map<usize, Vec<usize>>,
    wrapper_ghost_edges: Map<usize, Vec<(usize, usize)>>,
    at: Pointstamp<T>,
    node: usize,
)
    requires
        wrapper_ghost.contains_key(child.index) ==> {
            &&& wrapper_ghost[child.index]@.no_duplicates()
            &&& wrapper_ghost_edges.contains_key(child.index)
        },
    ensures
        ({
            let p = child.shared_progress@;
            let nodes = wrapper_ghost[child.index]@;
            let edges = wrapper_ghost_edges[child.index]@;
            let stands = child.sees_ghosts && wrapper_ghost.contains_key(child.index);
            let tracks = Seq::new(child.ghost_edges@.len(), |o: int| child.ghost_edges@[o]@);
            let routes = Seq::new(child.edges@.len(), |o: int| child.edges@[o]@);
            &&& total(child.statements(wrapper_ghost, wrapper_ghost_edges), at) == total(
                own_statements(p, child.index, tracks),
                at,
            ) + (if stands {
                sum_over(nodes.len(), |k: int| total(node_statements(p, nodes[k], edges), at))
            } else {
                0
            })
            &&& child.woken(wrapper_ghost, wrapper_ghost_edges).to_multiset().count(node)
                == sum_over(
                p.produceds.len(),
                |o: int|
                    (routes[o].filter(|t: Target| t.node == node).len()
                        * p.produceds[o].len()) as int,
            ) + (if stands {
                sum_over(
                    nodes.len(),
                    |k: int| node_woken(p, nodes[k], edges).to_multiset().count(node) as int,
                )
            } else {
                0
            })
        }),
{
    let p = child.shared_progress@;
    let ghosts = child.ghosts(wrapper_ghost);
    let edges = ghost_edges_at(wrapper_ghost_edges, child.index);
    let tracks = Seq::new(child.ghost_edges@.len(), |o: int| child.ghost_edges@[o]@);
    let routes = Seq::new(child.edges@.len(), |o: int| child.edges@[o]@);
    assert(route_targets(child.ghost_edges@) =~= tracks);
    assert(route_targets(child.edges@) =~= routes);
    lemma_total_join(
        ghost_statements(p, ghosts, edges),
        own_statements(p, child.index, tracks),
        at,
    );
    lemma_count_join(ghost_woken(p, ghosts, edges), woken_from(routes, p.produceds, 0), node);
    law_receivers_woken(routes, p.produceds, node);
    law_nodes_add_up(p, ghosts, edges, at, node);
}

/// Once reports are taken out, none is left: each batch of the operator and of each node that it
/// stands for is empty. Frontiers, and what is known of other nodes, stay.
pub proof fn law_reports_taken<T>(p: ProgressContents<T>, ghosts: Seq<usize>, g: usize)
    ensures
        ({
            let q = without_own(without_nodes(p, ghosts));
            &&& q.frontiers == p.frontiers
            &&& q.wrapper_frontiers == p.wrapper_frontiers
            &&& q.consumeds.len() == p.consumeds.len()
            &&& q.internals.len() == p.internals.len()
            &&& q.produceds.len() == p.produceds.len()
            &&& forall|i: int| 0 <= i < q.consumeds.len() ==> (#[trigger] q.consumeds[i]).len() == 0
            &&& forall|i: int| 0 <= i < q.internals.len() ==> (#[trigger] q.internals[i]).len() == 0
            &&& forall|i: int| 0 <= i < q.produceds.len() ==> (#[trigger] q.produceds[i]).len() == 0
            &&& if ghosts.contains(g) {
                &&& q.wrapper_consumeds[g].len() == p.wrapper_consumeds[g].len()
                &&& q.wrapper_internals[g].len() == p.wrapper_internals[g].len()
                &&& q.wrapper_produceds[g].len() == p.wrapper_produceds[g].len()
                &&& forall|i: int|
                    0 <= i < q.wrapper_consumeds[g].len() ==> (
                    #[trigger] q.wrapper_consumeds[g][i]).len() == 0
                &&& forall|i: int|
                    0 <= i < q.wrapper_internals[g].len() ==> (
                    #[trigger] q.wrapper_internals[g][i]).len() == 0
                &&& forall|i: int|
                    0 <= i < q.wrapper_produceds[g].len() ==> (
                    #[trigger] q.wrapper_produceds[g][i]).len() == 0
            } else {
                &&& q.wrapper_consumeds[g] == p.wrapper_consumeds[g]
                &&& q.wrapper_internals[g] == p.wrapper_internals[g]
                &&& q.wrapper_produceds[g] == p.wrapper_produceds[g]
            }
        }),
{
    lemma_own_kept(p, ghosts);
    lemma_nodes_taken(p, ghosts, g);
}

proof fn lemma_nodes_taken<T>(p: ProgressContents<T>, ghosts: Seq<usize>, g: usize)
    ensures
        ({
            let q = without_nodes(p, ghosts);
            if ghosts.contains(g) {
                &&& q.wrapper_consumeds[g] == no_changes::<T>(p.wrapper_consumeds[g].len())
                &&& q.wrapper_internals[g] == no_changes::<T>(p.wrapper_internals[g].len())
                &&& q.wrapper_produceds[g] == no_changes::<T>(p.wrapper_produceds[g].len())
            } else {
                &&& q.wrapper_consumeds[g] == p.wrapper_consumeds[g]
                &&& q.wrapper_internals[g] == p.wrapper_internals[g]
                &&& q.wrapper_produceds[g] == p.wrapper_produceds[g]
            }
        }),
    decreases ghosts.len(),
{
    if ghosts.len() > 0 {
        let rest = ghosts.drop_first();
        let r = without_node(p, ghosts[0]);
        lemma_nodes_taken(r, rest, g);
        if ghosts.contains(g) && g != ghosts[0] {
            let k = ghosts.index_of(g);
            assert(rest[k - 1] == g);
        }
        if rest.contains(g) {
            let k = rest.index_of(g);
            assert(ghosts[k + 1] == g);
        }
        if g == ghosts[0] {
            assert(r.wrapper_consumeds[g].len() == p.wrapper_consumeds[g].len());
        }
    }
}

/// Whether a time at which an operator claims something is justified: it consumed a message at a
/// time that is not later, or a time that it may still see is not later.
pub open spec fn is_justified<T: Timestamp>(
    consumeds: Seq<Seq<(T, i64)>>,
    implied: Seq<T>,
    time: T,
) -> bool {
    ||| exists|i: int, k: int|
        0 <= i < consumeds.len() && 0 <= k < consumeds[i].len() && 0 < (
        #[trigger] consumeds[i][k]).1 && consumeds[i][k].0.le(time)
    ||| exists|j: int| 0 <= j < implied.len() && (#[trigger] implied[j]).le(time)
}

/// Progress is wrong exactly where an operator claims more capabilities, or more messages, at a
/// time that is not justified. The error names the lowest output with such a time, and the time, and
/// names capabilities first.
pub proof fn law_error_is_unjustified<T: Timestamp>(p: ProgressContents<T>, implied: Seq<Seq<T>>)
    requires
        p.internals.len() <= usize::MAX,
        p.produceds.len() <= usize::MAX,
    ensures
        progress_error(p, implied) is None <==> {
            &&& forall|i: int, k: int|
                0 <= i < p.internals.len() && 0 <= k < p.internals[i].len() && 0 < (
                #[trigger] p.internals[i][k]).1 ==> is_justified(
                    p.consumeds,
                    implied[i],
                    p.internals[i][k].0,
                )
            &&& forall|i: int, k: int|
                0 <= i < p.produceds.len() && 0 <= k < p.produceds[i].len() && 0 < (
                #[trigger] p.produceds[i][k]).1 ==> is_justified(
                    p.consumeds,
                    implied[i],
                    p.produceds[i][k].0,
                )
        },
        match progress_error(p, implied) {
            None => true,
            Some(ProgressError::Internal { output, time }) => {
                &&& output < p.internals.len()
                &&& !is_justified(p.consumeds, implied[output as int], time)
                &&& forall|i: int, k: int|
                    0 <= i < output && 0 <= k < p.internals[i].len() && 0 < (
                    #[trigger] p.internals[i][k]).1 ==> is_justified(
                        p.consumeds,
                        implied[i],
                        p.internals[i][k].0,
                    )
                &&& exists|k: int|
                    0 <= k < p.internals[output as int].len() && (
                    #[trigger] p.internals[output as int][k]).0 == time && 0
                        < p.internals[output as int][k].1
            },
            Some(ProgressError::Produced { output, time }) => {
                &&& output < p.produceds.len()
                &&& !is_justified(p.consumeds, implied[output as int], time)
                &&& forall|i: int, k: int|
                    0 <= i < output && 0 <= k < p.produceds[i].len() && 0 < (
                    #[trigger] p.produceds[i][k]).1 ==> is_justified(
                        p.consumeds,
                        implied[i],
                        p.produceds[i][k].0,
                    )
                &&& exists|k: int|
                    0 <= k < p.produceds[output as int].len() && (
                    #[trigger] p.produceds[output as int][k]).0 == time && 0
                        < p.produceds[output as int][k].1
                &&& forall|i: int, k: int|
                    0 <= i < p.internals.len() && 0 <= k < p.internals[i].len() && 0 < (
                    #[trigger] p.internals[i][k]).1 ==> is_justified(
                        p.consumeds,
                        implied[i],
                        p.internals[i][k].0,
                    )
            },
        },
{
    lemma_first_unsupported(p.internals, p.consumeds, implied, 0);
    lemma_first_unsupported(p.produceds, p.consumeds, implied, 0);
    lemma_first_found(p.internals, p.consumeds, implied, 0);
    lemma_first_found(p.produceds, p.consumeds, implied, 0);
    assert forall|list: Seq<T>, time: T| #[trigger]
        supported(p.consumeds, list, time) == is_justified(p.consumeds, list, time) by {
        if dominates(list, time) {
            let j = choose|j: int| 0 <= j < list.len() && (#[trigger] list[j]).le(time);
            assert(list[j].le(time));
        }
    }
    match first_unsupported(p.internals, p.consumeds, implied, 0) {
        Some((output, time)) => {
            assert(!supported(p.consumeds, implied[output as int], time));
            assert forall|i: int, k: int|
                0 <= i < output && 0 <= k < p.internals[i].len() && 0 < (
                #[trigger] p.internals[i][k]).1 implies is_justified(
                p.consumeds,
                implied[i],
                p.internals[i][k].0,
            ) by {
                assert(supported(p.consumeds, implied[i], p.internals[i][k].0));
            }
        },
        None => match first_unsupported(p.produceds, p.consumeds, implied, 0) {
            Some((output, time)) => {
                assert(!supported(p.consumeds, implied[output as int], time));
                assert forall|i: int, k: int|
                    0 <= i < p.internals.len() && 0 <= k < p.internals[i].len() && 0 < (
                    #[trigger] p.internals[i][k]).1 implies is_justified(
                    p.consumeds,
                    implied[i],
                    p.internals[i][k].0,
                ) by {
                    assert(supported(p.consumeds, implied[i], p.internals[i][k].0));
                }
                assert forall|i: int, k: int|
                    0 <= i < output && 0 <= k < p.produceds[i].len() && 0 < (
                    #[trigger] p.produceds[i][k]).1 implies is_justified(
                    p.consumeds,
                    implied[i],
                    p.produceds[i][k].0,
                ) by {
                    assert(supported(p.consumeds, implied[i], p.produceds[i][k].0));
                }
            },
            None => {},
        },
    }
}

proof fn lemma_first_found<T: Timestamp>(
    batches: Seq<Seq<(T, i64)>>,
    consumeds: Seq<Seq<(T, i64)>>,
    implied: Seq<Seq<T>>,
    port: nat,
)
    requires
        batches.len() <= usize::MAX,
    ensures
        match first_unsupported(batches, consumeds, implied, port) {
            None => true,
            Some((output, time)) => {
                &&& port <= output < batches.len()
                &&& !supported(consumeds, implied[output as int], time)
                &&& forall|i: int, k: int|
                    port <= i < output && 0 <= k < batches[i].len() && (#[trigger] batches[i][k]).1
                        > 0 ==> supported(consumeds, implied[i], batches[i][k].0)
                &&& exists|k: int|
                    0 <= k < batches[output as int].len() && (
                    #[trigger] batches[output as int][k]).0 == time && 0
                        < batches[output as int][k].1
            },
        },
    decreases batches.len() - port,
{
    if port < batches.len() {
        lemma_unsupported_found(batches[port as int], consumeds, implied[port as int]);
        lemma_unsupported_in(batches[port as int], consumeds, implied[port as int]);
        lemma_first_found(batches, consumeds, implied, port + 1);
    }
}

proof fn lemma_unsupported_found<T: Timestamp>(
    changes: Seq<(T, i64)>,
    consumeds: Seq<Seq<(T, i64)>>,
    implied: Seq<T>,
)
    ensures
        match unsupported_in(changes, consumeds, implied) {
            None => true,
            Some(time) => {
                &&& !supported(consumeds, implied, time)
                &&& exists|k: int|
                    0 <= k < changes.len() && (#[trigger] changes[k]).0 == time && 0 < changes[k].1
            },
        },
    decreases changes.len(),
{
    if changes.len() > 0 {
        let rest = changes.drop_first();
        lemma_unsupported_found(rest, consumeds, implied);
        if changes[0].1 > 0 && !supported(consumeds, implied, changes[0].0) {
            assert(changes[0].0 == changes[0].0);
        } else {
            match unsupported_in(rest, consumeds, implied) {
                None => {},
                Some(time) => {
                    let k = choose|k: int|
                        0 <= k < rest.len() && (#[trigger] rest[k]).0 == time && 0 < rest[k].1;
                    assert(changes[k + 1] == rest[k]);
                },
            }
        }
    }
}

/// What is logged when an operator is about to run: that it starts, and before that, if some of its
/// frontiers changed, that progress was pushed to it. Of one that does not run, nothing.
pub proof fn law_start_logged<T: Timestamp>(child: &PerOperatorState<T>)
    ensures
        !child.running ==> child.starting().len() == 0,
        child.running ==> {
            let events = child.starting();
            let pushed = exists|i: int|
                0 <= i < child.shared_progress@.frontiers.len() && (
                #[trigger] child.shared_progress@.frontiers[i]).len() > 0;
            &&& events.len() == (if pushed {
                2nat
            } else {
                1
            })
            &&& events.last() == OperatorEvent::Schedule(
                ScheduleEvent { id: child.id, start_stop: StartStop::Start },
            )
            &&& pushed ==> events[0] == OperatorEvent::PushProgress(
                PushProgressEvent { op_id: child.id },
            )
        },
{
    let frontiers = child.shared_progress@.frontiers;
    if child.running {
        if exists|i: int| 0 <= i < frontiers.len() && (#[trigger] frontiers[i]).len() > 0 {
            let i = choose|i: int| 0 <= i < frontiers.len() && (#[trigger] frontiers[i]).len() > 0;
            assert(frontiers[i] != Seq::<(T, i64)>::empty());
        } else {
            assert forall|i: int| 0 <= i < frontiers.len() implies #[trigger] frontiers[i] == Seq::<
                (T, i64),
            >::empty() by {
                assert(frontiers[i] =~= Seq::<(T, i64)>::empty());
            }
        }
    }
}

/// An operator that is added is known by what it says of itself, runs, may stand for device-side
/// nodes, and has no edges yet.
pub proof fn law_operator_described<T: Timestamp>(
    child: &PerOperatorState<T>,
    info: &OperatorInfo<T>,
    index: usize,
    identifier: usize,
    incomplete: bool,
    o: int,
)
    requires
        child.describes(info, index, identifier, incomplete),
        0 <= o < info.outputs,
    ensures
        child.name == info.name,
        child.index == index,
        child.id == identifier,
        child.local == info.local,
        child.notify == info.notify,
        child.inputs == info.inputs,
        child.outputs == info.outputs,
        child.count_for_incomplete == incomplete,
        child.running && child.sees_ghosts,
        child.edges@.len() == info.outputs,
        child.ghost_edges@.len() == info.outputs,
        child.edges@[o]@.len() == 0,
        child.ghost_edges@[o]@.len() == 0,
        child.shared_progress == info.shared_progress,
        child.internal_summary == info.internal_summary,
{
    assert(route_targets(child.edges@).len() == info.outputs);
    assert(route_targets(child.ghost_edges@).len() == info.outputs);
    assert(route_targets(child.edges@)[o].len() == 0);
    assert(route_targets(child.ghost_edges@)[o].len() == 0);
}

/// The place of the outside of a scope does not run, is not of one worker alone, and stands for no
/// nodes; nothing is reported there.
pub proof fn law_outside_described<T: Timestamp>(
    child: &PerOperatorState<T>,
    inputs: nat,
    outputs: nat,
)
    requires
        child.is_external(inputs, outputs),
    ensures
        child.name@ == "External"@,
        child.index == 0,
        child.id == usize::MAX,
        !child.local && child.notify && !child.running && !child.sees_ghosts,
        child.count_for_incomplete,
        child.inputs == inputs,
        child.outputs == outputs,
        child.internal_summary@.len() == 0,
        child.shared_progress@.frontiers.len() == inputs,
        child.shared_progress@.consumeds.len() == inputs,
        child.shared_progress@.internals.len() == outputs,
        child.shared_progress@.produceds.len() == outputs,
        forall|i: int|
            0 <= i < inputs ==> (#[trigger] child.shared_progress@.consumeds[i]).len() == 0,
        forall|i: int|
            0 <= i < inputs ==> (#[trigger] child.shared_progress@.frontiers[i]).len() == 0,
        forall|o: int|
            0 <= o < outputs ==> (#[trigger] child.shared_progress@.internals[o]).len() == 0,
        forall|o: int|
            0 <= o < outputs ==> (#[trigger] child.shared_progress@.produceds[o]).len() == 0,
{
}

/// What a time may still be seen at an output is read from what is tracked there.
pub proof fn law_implied_as_tracked<T: Timestamp>(state: &PerOperator<T>, o: int)
    ensures
        implied_at(state).len() == state.sources@.len(),
        0 <= o < state.sources@.len() ==> implied_at(state)[o]
            == state.sources@[o].implications.minimal(),
{
}

/// Closing an operator that runs stops it and marks its name. Where it does not run, or is not to
/// be closed, it stays as it is. All else of it stays in any case.
pub proof fn law_closing_marks<T: Timestamp>(
    before: &PerOperatorState<T>,
    after: &PerOperatorState<T>,
    close: bool,
)
    requires
        after.closed_if(before, close),
    ensures
        before.running && close ==> !after.running && after.name@ == before.name@
            + "(tombstone)"@,
        !(before.running && close) ==> after.running == before.running && after.name@
            == before.name@,
        before.running ==> before.closing() == Some(ShutdownEvent { id: before.id }),
        !before.running ==> before.closing() is None,
        after.index == before.index,
        after.id == before.id,
        after.local == before.local,
        after.notify == before.notify,
        after.inputs == before.inputs,
        after.outputs == before.outputs,
        after.count_for_incomplete == before.count_for_incomplete,
        after.sees_ghosts == before.sees_ghosts,
        after.edges == before.edges,
        after.ghost_edges == before.ghost_edges,
        after.internal_summary == before.internal_summary,
{
}

/// An operator that stays the same keeps all but its progress information.
pub proof fn law_same_operator<T: Timestamp>(a: &PerOperatorState<T>, b: &PerOperatorState<T>)
    requires
        a.same_operator(b),
        a.shared_progress == b.shared_progress,
    ensures
        *a == *b,
{
}

/// The device-side nodes that a child stands for, and the edges between them.
pub proof fn law_nodes_of_child<T: Timestamp>(
    child: &PerOperatorState<T>,
    wrapper_ghost: Map<usize, Vec<usize>>,
    wrapper_ghost_edges: Map<usize, Vec<(usize, usize)>>,
)
    ensures
        child.sees_ghosts && wrapper_ghost.contains_key(child.index) ==> child.ghosts(wrapper_ghost)
            == wrapper_ghost[child.index]@,
        !(child.sees_ghosts && wrapper_ghost.contains_key(child.index)) ==> child.ghosts(
            wrapper_ghost,
        ).len() == 0,
        wrapper_ghost_edges.contains_key(child.index) ==> ghost_edges_at(
            wrapper_ghost_edges,
            child.index,
        ) == wrapper_ghost_edges[child.index]@,
{
}

} // verus!
