//! Progress reports of operators, restated as changes at locations of the graph.

use vstd::multiset::Multiset;
use vstd::prelude::*;

use crate::active::{lemma_bag_join, ActiveHeap};
use crate::change_batch::{
    compacted, count, extended, law_extend_counts, law_extend_in_parts, lemma_total_join,
    lemma_wrapped_sum, total, wrapped, ChangeBatch,
};
use crate::location::{at_source, at_target, Location, Pointstamp, Port, Target};
use crate::order::{Ordered, Timestamp};
use crate::shared_progress::{contents, drain_batch, no_changes};
use crate::sums::{lemma_count_ends, lemma_count_join, lemma_count_small, sum_over};

verus! {

broadcast use vstd::seq_lib::group_to_multiset_ensures;

/// The change of count that undoes `delta`.
pub open spec fn negated(delta: i64) -> i64 {
    i64::wrapping_sub(0, delta)
}

/// Each of `changes`, at `location`.
pub open spec fn stamped<T>(location: Location, changes: Seq<(T, i64)>) -> Seq<(Pointstamp<T>, i64)> {
    changes.map_values(|c: (T, i64)| (Pointstamp { location, time: c.0 }, c.1))
}

/// Each of `changes` undone, at `location`.
pub open spec fn stamped_negated<T>(location: Location, changes: Seq<(T, i64)>) -> Seq<
    (Pointstamp<T>, i64),
> {
    changes.map_values(|c: (T, i64)| (Pointstamp { location, time: c.0 }, negated(c.1)))
}

/// What is consumed at the inputs of `node` from `port` on, as messages that are no more.
pub open spec fn consumed_from<T>(node: usize, batches: Seq<Seq<(T, i64)>>, port: nat) -> Seq<
    (Pointstamp<T>, i64),
>
    decreases batches.len() - port,
{
    if port >= batches.len() {
        Seq::empty()
    } else {
        stamped_negated(at_target(node, port as usize), batches[port as int]) + consumed_from(
            node,
            batches,
            port + 1,
        )
    }
}

/// What changes in the capabilities of `node` for its outputs from `port` on.
pub open spec fn internal_from<T>(node: usize, batches: Seq<Seq<(T, i64)>>, port: nat) -> Seq<
    (Pointstamp<T>, i64),
>
    decreases batches.len() - port,
{
    if port >= batches.len() {
        Seq::empty()
    } else {
        stamped(at_source(node, port as usize), batches[port as int]) + internal_from(
            node,
            batches,
            port + 1,
        )
    }
}

/// A message of `time`, counted `delta` times, at each of `targets`.
pub open spec fn fan_out<T>(targets: Seq<Target>, time: T, delta: i64) -> Seq<(Pointstamp<T>, i64)> {
    targets.map_values(
        |t: Target| (Pointstamp { location: at_target(t.node, t.port), time }, delta),
    )
}

/// Each of `changes` at each of `targets`.
pub open spec fn produced_at<T>(targets: Seq<Target>, changes: Seq<(T, i64)>) -> Seq<
    (Pointstamp<T>, i64),
>
    decreases changes.len(),
{
    if changes.len() == 0 {
        Seq::empty()
    } else {
        fan_out(targets, changes[0].0, changes[0].1) + produced_at(targets, changes.drop_first())
    }
}

/// What is produced at the outputs from `port` on, as messages at the targets of each output.
pub open spec fn produced_from<T>(
    routes: Seq<Seq<Target>>,
    batches: Seq<Seq<(T, i64)>>,
    port: nat,
) -> Seq<(Pointstamp<T>, i64)>
    decreases batches.len() - port,
{
    if port >= batches.len() {
        Seq::empty()
    } else {
        produced_at(routes[port as int], batches[port as int]) + produced_from(
            routes,
            batches,
            port + 1,
        )
    }
}

/// The nodes of `targets`.
pub open spec fn nodes_of(targets: Seq<Target>) -> Seq<usize> {
    targets.map_values(|t: Target| t.node)
}

/// The nodes of `targets`, as many times as `n`.
pub open spec fn nodes_repeated(targets: Seq<Target>, n: nat) -> Seq<usize>
    decreases n,
{
    if n == 0 {
        Seq::empty()
    } else {
        nodes_of(targets) + nodes_repeated(targets, (n - 1) as nat)
    }
}

/// The nodes that messages produced at the outputs from `port` on wake: those of the targets
/// of an output, once for each of its changes.
pub open spec fn woken_from<T>(
    routes: Seq<Seq<Target>>,
    batches: Seq<Seq<(T, i64)>>,
    port: nat,
) -> Seq<usize>
    decreases batches.len() - port,
{
    if port >= batches.len() {
        Seq::empty()
    } else {
        nodes_repeated(routes[port as int], batches[port as int].len()) + woken_from(
            routes,
            batches,
            port + 1,
        )
    }
}

/// The targets of each list of `routes`.
pub open spec fn route_targets(routes: Seq<Vec<Target>>) -> Seq<Seq<Target>> {
    routes.map_values(|v: Vec<Target>| v@)
}

/// The change of count that undoes `delta`.
pub fn negate(delta: i64) -> (r: i64)
    ensures
        r == negated(delta),
{
    let zero: i64 = 0;
    zero.wrapping_sub(delta)
}

/// Draining one port more.
proof fn lemma_drained_step<T>(all: Seq<Seq<(T, i64)>>, here: Seq<Seq<(T, i64)>>, p: int)
    requires
        0 <= p < all.len(),
        here.len() == all.len(),
        forall|k: int| 0 <= k < p ==> #[trigger] here[k] == Seq::<(T, i64)>::empty(),
        forall|k: int| p <= k < all.len() ==> #[trigger] here[k] == all[k],
    ensures
        forall|k: int|
            0 <= k < p + 1 ==> #[trigger] here.update(p, Seq::<(T, i64)>::empty())[k] == Seq::<
                (T, i64),
            >::empty(),
        forall|k: int|
            p + 1 <= k < all.len() ==> #[trigger] here.update(p, Seq::<(T, i64)>::empty())[k]
                == all[k],
{
}

/// Drains what was consumed at each input of `node` into `pointstamps`, as messages that are
/// no more.
pub fn report_consumed<T: Timestamp>(
    batches: &mut Vec<ChangeBatch<T>>,
    node: usize,
    pointstamps: &mut ChangeBatch<Pointstamp<T>>,
)
    ensures
        contents(final(batches)@) == no_changes::<T>(old(batches)@.len()),
        final(pointstamps)@ == extended(
            old(pointstamps)@,
            consumed_from(node, contents(old(batches)@), 0),
        ),
{
    let ghost all = contents(batches@);
    let ghost goal = extended(pointstamps@, consumed_from(node, all, 0));
    let mut port: usize = 0;
    while port < batches.len()
        invariant
            port <= batches@.len(),
            batches@.len() == all.len(),
            forall|k: int|
                0 <= k < port ==> #[trigger] contents(batches@)[k] == Seq::<(T, i64)>::empty(),
            forall|k: int| port <= k < all.len() ==> #[trigger] contents(batches@)[k] == all[k],
            extended(pointstamps@, consumed_from(node, all, port as nat)) == goal,
        decreases batches@.len() - port,
    {
        let ghost here = contents(batches@);
        let changes = drain_batch(batches, port);
        proof {
            lemma_drained_step(all, here, port as int);
            law_extend_in_parts(
                pointstamps@,
                stamped_negated(at_target(node, port), changes@),
                consumed_from(node, all, (port + 1) as nat),
            );
        }
        apply_stamped(&changes, Location::new_target(node, port), true, pointstamps);
        port += 1;
    }
    assert(contents(batches@) =~= no_changes::<T>(all.len()));
}

/// Drains the changes to the capabilities of `node` into `pointstamps`.
pub fn report_internal<T: Timestamp>(
    batches: &mut Vec<ChangeBatch<T>>,
    node: usize,
    pointstamps: &mut ChangeBatch<Pointstamp<T>>,
)
    ensures
        contents(final(batches)@) == no_changes::<T>(old(batches)@.len()),
        final(pointstamps)@ == extended(
            old(pointstamps)@,
            internal_from(node, contents(old(batches)@), 0),
        ),
{
    let ghost all = contents(batches@);
    let ghost goal = extended(pointstamps@, internal_from(node, all, 0));
    let mut port: usize = 0;
    while port < batches.len()
        invariant
            port <= batches@.len(),
            batches@.len() == all.len(),
            forall|k: int|
                0 <= k < port ==> #[trigger] contents(batches@)[k] == Seq::<(T, i64)>::empty(),
            forall|k: int| port <= k < all.len() ==> #[trigger] contents(batches@)[k] == all[k],
            extended(pointstamps@, internal_from(node, all, port as nat)) == goal,
        decreases batches@.len() - port,
    {
        let ghost here = contents(batches@);
        let changes = drain_batch(batches, port);
        proof {
            lemma_drained_step(all, here, port as int);
            law_extend_in_parts(
                pointstamps@,
                stamped(at_source(node, port), changes@),
                internal_from(node, all, (port + 1) as nat),
            );
        }
        apply_stamped(&changes, Location::new_source(node, port), false, pointstamps);
        port += 1;
    }
    assert(contents(batches@) =~= no_changes::<T>(all.len()));
}

/// Makes each of `changes` at `location`, undone where `undo` says so.
fn apply_stamped<T: Timestamp>(
    changes: &Vec<(T, i64)>,
    location: Location,
    undo: bool,
    pointstamps: &mut ChangeBatch<Pointstamp<T>>,
)
    ensures
        final(pointstamps)@ == extended(
            old(pointstamps)@,
            if undo {
                stamped_negated(location, changes@)
            } else {
                stamped(location, changes@)
            },
        ),
{
    let ghost list = if undo {
        stamped_negated(location, changes@)
    } else {
        stamped(location, changes@)
    };
    let ghost goal = extended(pointstamps@, list);
    let mut i: usize = 0;
    assert(list.skip(0) =~= list);
    while i < changes.len()
        invariant
            i <= changes@.len(),
            list == (if undo {
                stamped_negated(location, changes@)
            } else {
                stamped(location, changes@)
            }),
            extended(pointstamps@, list.skip(i as int)) == goal,
        decreases changes@.len() - i,
    {
        let (time, delta) = changes[i];
        let change: i64 = if undo {
            negate(delta)
        } else {
            delta
        };
        assert(list.skip(i as int)[0] == list[i as int]);
        assert(list.skip(i as int).drop_first() =~= list.skip(i + 1));
        pointstamps.update(Pointstamp { location, time }, change);
        i += 1;
    }
    assert(list.skip(i as int).len() == 0);
}

/// Counts each of `changes` at each of `targets`.
fn apply_produced<T: Timestamp>(
    changes: &Vec<(T, i64)>,
    targets: &Vec<Target>,
    pointstamps: &mut ChangeBatch<Pointstamp<T>>,
)
    ensures
        final(pointstamps)@ == extended(old(pointstamps)@, produced_at(targets@, changes@)),
{
    let ghost goal = extended(pointstamps@, produced_at(targets@, changes@));
    let mut i: usize = 0;
    assert(changes@.skip(0) =~= changes@);
    while i < changes.len()
        invariant
            i <= changes@.len(),
            extended(pointstamps@, produced_at(targets@, changes@.skip(i as int))) == goal,
        decreases changes@.len() - i,
    {
        let (time, delta) = changes[i];
        let ghost rest = produced_at(targets@, changes@.skip(i + 1));
        let ghost list = fan_out(targets@, time, delta);
        assert(changes@.skip(i as int).drop_first() =~= changes@.skip(i + 1));
        assert(list.skip(0) =~= list);
        let mut j: usize = 0;
        while j < targets.len()
            invariant
                j <= targets@.len(),
                list == fan_out(targets@, time, delta),
                extended(pointstamps@, list.skip(j as int) + rest) == goal,
            decreases targets@.len() - j,
        {
            let target: Target = targets[j];
            assert((list.skip(j as int) + rest)[0] == list[j as int]);
            assert((list.skip(j as int) + rest).drop_first() =~= list.skip(j + 1) + rest);
            pointstamps.update(
                Pointstamp { location: Location::new_target(target.node, target.port), time },
                delta,
            );
            j += 1;
        }
        assert(list.skip(j as int) + rest =~= rest);
        i += 1;
    }
    assert(changes@.skip(i as int).len() == 0);
}

/// Wakes the nodes of `targets`, once for each of `changes`.
fn wake<T: Timestamp>(changes: &Vec<(T, i64)>, targets: &Vec<Target>, active: &mut ActiveHeap)
    ensures
        final(active)@ == old(active)@.add(
            nodes_repeated(targets@, changes@.len()).to_multiset(),
        ),
{
    let ghost n = changes@.len();
    let ghost goal = active@.add(nodes_repeated(targets@, n).to_multiset());
    let mut i: usize = 0;
    while i < changes.len()
        invariant
            i <= n,
            n == changes@.len(),
            active@.add(nodes_repeated(targets@, (n - i) as nat).to_multiset()) == goal,
        decreases n - i,
    {
        let ghost rest = nodes_repeated(targets@, (n - i - 1) as nat);
        let ghost nodes = nodes_of(targets@);
        let mut j: usize = 0;
        assert(nodes.skip(0) =~= nodes);
        while j < targets.len()
            invariant
                j <= targets@.len(),
                nodes == nodes_of(targets@),
                active@.add((nodes.skip(j as int) + rest).to_multiset()) == goal,
            decreases targets@.len() - j,
        {
            let ghost before = active@;
            active.push(targets[j].node);
            proof {
                let none = Seq::<usize>::empty();
                let one = none.push(nodes[j as int]);
                assert(none.to_multiset() =~= Multiset::<usize>::empty());
                let tail = nodes.skip(j + 1) + rest;
                assert(nodes.skip(j as int) + rest =~= one + tail);
                lemma_bag_join(one, tail);
                assert(one.to_multiset() =~= Multiset::<usize>::empty().insert(nodes[j as int]));
                assert(active@.add(tail.to_multiset()) =~= before.add((one + tail).to_multiset()));
            }
            j += 1;
        }
        assert(nodes.skip(j as int) + rest =~= rest);
        i += 1;
    }
    proof {
        assert(nodes_repeated(targets@, 0) =~= Seq::<usize>::empty());
        assert(nodes_repeated(targets@, 0).to_multiset() =~= Multiset::<usize>::empty());
        assert(active@ =~= active@.add(Multiset::<usize>::empty()));
    }
}

/// Drains what was produced at each output: wakes the nodes that `edges` leads to, and counts
/// the messages at the targets that `counted` leads to.
pub fn report_produced<T: Timestamp>(
    batches: &mut Vec<ChangeBatch<T>>,
    edges: &Vec<Vec<Target>>,
    counted: &Vec<Vec<Target>>,
    pointstamps: &mut ChangeBatch<Pointstamp<T>>,
    active: &mut ActiveHeap,
)
    requires
        old(batches)@.len() <= edges@.len(),
        old(batches)@.len() <= counted@.len(),
    ensures
        contents(final(batches)@) == no_changes::<T>(old(batches)@.len()),
        final(pointstamps)@ == extended(
            old(pointstamps)@,
            produced_from(route_targets(counted@), contents(old(batches)@), 0),
        ),
        final(active)@ == old(active)@.add(
            woken_from(route_targets(edges@), contents(old(batches)@), 0).to_multiset(),
        ),
{
    let ghost all = contents(batches@);
    let ghost counts = route_targets(counted@);
    let ghost wakes = route_targets(edges@);
    let ghost goal = extended(pointstamps@, produced_from(counts, all, 0));
    let ghost woken = active@.add(woken_from(wakes, all, 0).to_multiset());
    let mut port: usize = 0;
    while port < batches.len()
        invariant
            port <= batches@.len(),
            batches@.len() == all.len(),
            all.len() <= edges@.len(),
            all.len() <= counted@.len(),
            counts == route_targets(counted@),
            wakes == route_targets(edges@),
            forall|k: int|
                0 <= k < port ==> #[trigger] contents(batches@)[k] == Seq::<(T, i64)>::empty(),
            forall|k: int| port <= k < all.len() ==> #[trigger] contents(batches@)[k] == all[k],
            extended(pointstamps@, produced_from(counts, all, port as nat)) == goal,
            active@.add(woken_from(wakes, all, port as nat).to_multiset()) == woken,
        decreases batches@.len() - port,
    {
        let ghost here = contents(batches@);
        let ghost before = active@;
        let changes = drain_batch(batches, port);
        proof {
            lemma_drained_step(all, here, port as int);
            law_extend_in_parts(
                pointstamps@,
                produced_at(counts[port as int], changes@),
                produced_from(counts, all, (port + 1) as nat),
            );
            lemma_bag_join(
                nodes_repeated(wakes[port as int], changes@.len()),
                woken_from(wakes, all, (port + 1) as nat),
            );
        }
        wake(&changes, &edges[port], active);
        apply_produced(&changes, &counted[port], pointstamps);
        proof {
            assert(active@.add(woken_from(wakes, all, (port + 1) as nat).to_multiset())
                =~= before.add(woken_from(wakes, all, port as nat).to_multiset()));
        }
        port += 1;
    }
    proof {
        assert(contents(batches@) =~= no_changes::<T>(all.len()));
        assert(woken_from(wakes, all, port as nat).to_multiset() =~= Multiset::<usize>::empty());
        assert(active@ =~= active@.add(Multiset::<usize>::empty()));
    }
}

/// The sum of changes that are undone, up to two's complement.
proof fn lemma_total_stamped<T: Ordered>(
    location: Location,
    changes: Seq<(T, i64)>,
    place: Location,
    time: T,
)
    ensures
        total(stamped(location, changes), Pointstamp { location: place, time }) == (if place
            == location {
            total(changes, time)
        } else {
            0
        }),
        wrapped(total(stamped_negated(location, changes), Pointstamp { location: place, time }))
            == (if place == location {
            wrapped(-total(changes, time))
        } else {
            0
        }),
        place != location ==> total(
            stamped_negated(location, changes),
            Pointstamp { location: place, time },
        ) == 0,
    decreases changes.len(),
{
    if changes.len() > 0 {
        let rest = changes.drop_first();
        lemma_total_stamped(location, rest, place, time);
        let plain = stamped(location, changes);
        let undone = stamped_negated(location, changes);
        assert(plain.drop_first() =~= stamped(location, rest));
        assert(undone.drop_first() =~= stamped_negated(location, rest));
        assert(plain[0] == (Pointstamp { location, time: changes[0].0 }, changes[0].1));
        assert(undone[0] == (Pointstamp { location, time: changes[0].0 }, negated(changes[0].1)));
        let at = Pointstamp { location: place, time };
        if place == location && changes[0].0 == time {
            let d = changes[0].1 as int;
            let tail = total(stamped_negated(location, rest), at);
            assert(wrapped(negated(changes[0].1) as int) == wrapped(-d));
            lemma_wrapped_sum(negated(changes[0].1) as int, -d, tail);
            lemma_wrapped_sum(tail, -total(rest, time), -d);
        }
    }
}

/// What reports of consumed messages, and of capabilities, change at a place.
pub proof fn lemma_total_consumed<T: Ordered>(
    node: usize,
    batches: Seq<Seq<(T, i64)>>,
    from: nat,
    place: Location,
    time: T,
)
    requires
        batches.len() <= usize::MAX,
    ensures
        wrapped(total(consumed_from(node, batches, from), Pointstamp { location: place, time }))
            == (match place.port {
            Port::Target(port) => if place.node == node && from <= port < batches.len() {
                wrapped(-total(batches[port as int], time))
            } else {
                0
            },
            Port::Source(_) => 0,
        }),
        total(internal_from(node, batches, from), Pointstamp { location: place, time }) == (
        match place.port {
            Port::Source(port) => if place.node == node && from <= port < batches.len() {
                total(batches[port as int], time)
            } else {
                0
            },
            Port::Target(_) => 0,
        }),
    decreases batches.len() - from,
{
    if from < batches.len() {
        let at = Pointstamp { location: place, time };
        let target = at_target(node, from as usize);
        let source = at_source(node, from as usize);
        let changes = batches[from as int];
        lemma_total_consumed(node, batches, from + 1, place, time);
        lemma_total_stamped(target, changes, place, time);
        lemma_total_stamped(source, changes, place, time);
        let undone = stamped_negated(target, changes);
        let rest = consumed_from(node, batches, from + 1);
        lemma_total_join(undone, rest, at);
        lemma_total_join(stamped(source, changes), internal_from(node, batches, from + 1), at);
        if place == target {
            assert(wrapped(total(rest, at)) == wrapped(0));
            lemma_wrapped_sum(total(rest, at), 0, total(undone, at));
        }
    }
}

/// What an operator consumed is no longer on its way: at each of its inputs and at each time, the
/// count falls by what it consumed there. No other count changes. Counts are in two's complement.
pub proof fn law_consumed_leaves<T: Ordered>(
    s: Seq<(Pointstamp<T>, i64)>,
    node: usize,
    batches: Seq<Seq<(T, i64)>>,
    place: Location,
    time: T,
)
    requires
        compacted(s),
        batches.len() <= usize::MAX,
    ensures
        count(
            extended(s, consumed_from(node, batches, 0)),
            Pointstamp { location: place, time },
        ) == (match place.port {
            Port::Target(port) => if place.node == node && port < batches.len() {
                wrapped(
                    count(s, Pointstamp { location: place, time }) - total(
                        batches[port as int],
                        time,
                    ),
                )
            } else {
                count(s, Pointstamp { location: place, time }) as int
            },
            Port::Source(_) => count(s, Pointstamp { location: place, time }) as int,
        }),
{
    let at = Pointstamp { location: place, time };
    let list = consumed_from(node, batches, 0);
    let before = count(s, at) as int;
    law_extend_counts(s, list, at);
    lemma_total_consumed(node, batches, 0, place, time);
    match place.port {
        Port::Target(port) => {
            if place.node == node && port < batches.len() {
                lemma_wrapped_sum(total(list, at), -total(batches[port as int], time), before);
            } else {
                assert(wrapped(total(list, at)) == wrapped(0));
                lemma_wrapped_sum(total(list, at), 0, before);
            }
        },
        Port::Source(_) => {
            assert(wrapped(total(list, at)) == wrapped(0));
            lemma_wrapped_sum(total(list, at), 0, before);
        },
    }
}

/// The capabilities of an operator change at its outputs as it says. No other count changes.
pub proof fn law_internal_changes<T: Ordered>(
    s: Seq<(Pointstamp<T>, i64)>,
    node: usize,
    batches: Seq<Seq<(T, i64)>>,
    place: Location,
    time: T,
)
    requires
        compacted(s),
        batches.len() <= usize::MAX,
    ensures
        count(
            extended(s, internal_from(node, batches, 0)),
            Pointstamp { location: place, time },
        ) == (match place.port {
            Port::Source(port) => if place.node == node && port < batches.len() {
                wrapped(
                    count(s, Pointstamp { location: place, time }) + total(
                        batches[port as int],
                        time,
                    ),
                )
            } else {
                count(s, Pointstamp { location: place, time }) as int
            },
            Port::Target(_) => count(s, Pointstamp { location: place, time }) as int,
        }),
{
    law_extend_counts(s, internal_from(node, batches, 0), Pointstamp { location: place, time });
    lemma_total_consumed(node, batches, 0, place, time);
}

/// How often `place` is one of `targets`.
pub open spec fn times_reached(targets: Seq<Target>, place: Location) -> int {
    match place.port {
        Port::Target(port) => targets.to_multiset().count(Target { node: place.node, port }) as int,
        Port::Source(_) => 0,
    }
}

pub proof fn lemma_total_fan_out<T: Ordered>(
    targets: Seq<Target>,
    sent: T,
    delta: i64,
    place: Location,
    time: T,
)
    ensures
        total(fan_out(targets, sent, delta), Pointstamp { location: place, time }) == (if sent
            == time {
            times_reached(targets, place) * delta
        } else {
            0
        }),
    decreases targets.len(),
{
    let list = fan_out(targets, sent, delta);
    if targets.len() > 0 {
        let rest = targets.drop_first();
        let t = targets[0];
        lemma_total_fan_out(rest, sent, delta, place, time);
        assert(list.drop_first() =~= fan_out(rest, sent, delta));
        assert(list[0] == (
            Pointstamp { location: Location { node: t.node, port: Port::Target(t.port) }, time: sent },
            delta,
        ));
        let n = times_reached(rest, place);
        match place.port {
            Port::Target(port) => {
                lemma_count_ends(targets, Target { node: place.node, port });
            },
            Port::Source(_) => {},
        }
        assert((n + 1) * delta == n * delta + delta) by (nonlinear_arith);
    } else {
        lemma_count_small(Target { node: 0, port: 0 }, Target { node: 0, port: 0 });
        match place.port {
            Port::Target(port) => {
                let target = Target { node: place.node, port };
                lemma_count_small(target, target);
                assert(targets =~= Seq::<Target>::empty());
            },
            Port::Source(_) => {},
        }
        assert(times_reached(targets, place) == 0);
        assert(list.len() == 0);
        assert(0 * delta == 0);
    }
}

pub proof fn lemma_total_produced_at<T: Ordered>(
    targets: Seq<Target>,
    changes: Seq<(T, i64)>,
    place: Location,
    time: T,
)
    ensures
        total(produced_at(targets, changes), Pointstamp { location: place, time })
            == times_reached(targets, place) * total(changes, time),
    decreases changes.len(),
{
    let n = times_reached(targets, place);
    if changes.len() > 0 {
        let at = Pointstamp { location: place, time };
        let rest = changes.drop_first();
        let first = fan_out(targets, changes[0].0, changes[0].1);
        lemma_total_produced_at(targets, rest, place, time);
        lemma_total_fan_out(targets, changes[0].0, changes[0].1, place, time);
        lemma_total_join(first, produced_at(targets, rest), at);
        let d = changes[0].1 as int;
        let tail = total(rest, time);
        assert(n * (d + tail) == n * d + n * tail) by (nonlinear_arith);
        assert(n * (0 + tail) == n * tail);
    } else {
        assert(n * 0 == 0);
    }
}

proof fn lemma_total_produced<T: Ordered>(
    routes: Seq<Seq<Target>>,
    batches: Seq<Seq<(T, i64)>>,
    from: nat,
    place: Location,
    time: T,
)
    requires
        from <= batches.len(),
    ensures
        ({
            let f = |o: int| times_reached(routes[o], place) * total(batches[o], time);
            total(produced_from(routes, batches, from), Pointstamp { location: place, time })
                == sum_over(batches.len(), f) - sum_over(from, f)
        }),
    decreases batches.len() - from,
{
    if from < batches.len() {
        let f = |o: int| times_reached(routes[o], place) * total(batches[o], time);
        lemma_total_produced(routes, batches, from + 1, place, time);
        lemma_total_produced_at(routes[from as int], batches[from as int], place, time);
        lemma_total_join(
            produced_at(routes[from as int], batches[from as int]),
            produced_from(routes, batches, from + 1),
            Pointstamp { location: place, time },
        );
        assert(f(from as int) == times_reached(routes[from as int], place) * total(
            batches[from as int],
            time,
        ));
    }
}

/// Every message produced is on its way to every target of its output: at each input and at each
/// time, the change is the sum, over the outputs, of what the output produced at that time, once
/// for each edge from the output to the input.
pub proof fn law_produced_arrives<T: Ordered>(
    routes: Seq<Seq<Target>>,
    batches: Seq<Seq<(T, i64)>>,
    target: Target,
    time: T,
)
    ensures
        total(
            produced_from(routes, batches, 0),
            Pointstamp {
                location: Location { node: target.node, port: Port::Target(target.port) },
                time,
            },
        ) == sum_over(
            batches.len(),
            |o: int| routes[o].to_multiset().count(target) * total(batches[o], time),
        ),
        forall|node: usize, port: usize|
            #[trigger] total(
                produced_from(routes, batches, 0),
                Pointstamp { location: Location { node, port: Port::Source(port) }, time },
            ) == 0,
{
    let place = Location { node: target.node, port: Port::Target(target.port) };
    let f = |o: int| times_reached(routes[o], place) * total(batches[o], time);
    let g = |o: int| routes[o].to_multiset().count(target) * total(batches[o], time);
    lemma_total_produced(routes, batches, 0, place, time);
    assert(f =~= g) by {
        assert forall|o: int| #[trigger] f(o) == g(o) by {
            assert(times_reached(routes[o], place) == routes[o].to_multiset().count(target));
        }
    }
    assert forall|node: usize, port: usize| #[trigger]
        total(
            produced_from(routes, batches, 0),
            Pointstamp { location: Location { node, port: Port::Source(port) }, time },
        ) == 0 by {
        let here = Location { node, port: Port::Source(port) };
        let h = |o: int| times_reached(routes[o], here) * total(batches[o], time);
        lemma_total_produced(routes, batches, 0, here, time);
        assert forall|o: int| 0 <= o < batches.len() implies #[trigger] h(o) == 0 by {
            assert(0 * total(batches[o], time) == 0);
        }
        crate::sums::lemma_sum_zero(batches.len(), h);
    }
}

/// What an operator produced is counted at every target of its outputs, and its own counts stay:
/// the count at each input and time grows by what `law_produced_arrives` gives.
pub proof fn law_produced_is_counted<T: Ordered>(
    s: Seq<(Pointstamp<T>, i64)>,
    routes: Seq<Seq<Target>>,
    batches: Seq<Seq<(T, i64)>>,
    target: Target,
    time: T,
)
    requires
        compacted(s),
    ensures
        ({
            let at = Pointstamp {
                location: Location { node: target.node, port: Port::Target(target.port) },
                time,
            };
            count(extended(s, produced_from(routes, batches, 0)), at) == wrapped(
                count(s, at) + sum_over(
                    batches.len(),
                    |o: int| routes[o].to_multiset().count(target) * total(batches[o], time),
                ),
            )
        }),
{
    law_produced_arrives(routes, batches, target, time);
    law_extend_counts(
        s,
        produced_from(routes, batches, 0),
        Pointstamp {
            location: Location { node: target.node, port: Port::Target(target.port) },
            time,
        },
    );
}

/// How many of `targets` are inputs of `node`.
pub open spec fn inputs_reached(targets: Seq<Target>, node: usize) -> int {
    targets.filter(|t: Target| t.node == node).len() as int
}

proof fn lemma_nodes_count(targets: Seq<Target>, node: usize)
    ensures
        nodes_of(targets).to_multiset().count(node) == inputs_reached(targets, node),
    decreases targets.len(),
{
    let keep = |t: Target| t.node == node;
    reveal(Seq::filter);
    if targets.len() > 0 {
        let rest = targets.drop_last();
        lemma_nodes_count(rest, node);
        assert(nodes_of(targets).drop_last() =~= nodes_of(rest));
        assert(nodes_of(targets).last() == targets.last().node);
        lemma_count_ends(nodes_of(targets), node);
    } else {
        lemma_count_small(node, node);
        assert(nodes_of(targets) =~= Seq::<usize>::empty());
    }
}

proof fn lemma_repeated_count(targets: Seq<Target>, n: nat, node: usize)
    ensures
        nodes_repeated(targets, n).to_multiset().count(node) == inputs_reached(targets, node) * n,
    decreases n,
{
    let c = inputs_reached(targets, node);
    if n > 0 {
        lemma_repeated_count(targets, (n - 1) as nat, node);
        lemma_nodes_count(targets, node);
        lemma_count_join(nodes_of(targets), nodes_repeated(targets, (n - 1) as nat), node);
        assert(c * n == c + c * (n - 1)) by (nonlinear_arith);
    } else {
        lemma_count_small(node, node);
        assert(c * 0 == 0);
    }
}

proof fn lemma_woken_count<T>(
    routes: Seq<Seq<Target>>,
    batches: Seq<Seq<(T, i64)>>,
    from: nat,
    node: usize,
)
    requires
        from <= batches.len(),
    ensures
        ({
            let f = |o: int| inputs_reached(routes[o], node) * batches[o].len();
            woken_from(routes, batches, from).to_multiset().count(node) == sum_over(
                batches.len(),
                f,
            ) - sum_over(from, f)
        }),
    decreases batches.len() - from,
{
    if from < batches.len() {
        let f = |o: int| inputs_reached(routes[o], node) * batches[o].len();
        lemma_woken_count(routes, batches, from + 1, node);
        lemma_repeated_count(routes[from as int], batches[from as int].len(), node);
        lemma_count_join(
            nodes_repeated(routes[from as int], batches[from as int].len()),
            woken_from(routes, batches, from + 1),
            node,
        );
        assert(f(from as int) == inputs_reached(routes[from as int], node)
            * batches[from as int].len());
    } else {
        lemma_count_small(node, node);
    }
}

/// Whoever gets messages is woken: a node as often as, summed over the outputs, changes were
/// reported for the output, once for each edge from the output to the node. Nobody else is.
pub proof fn law_receivers_woken<T>(
    routes: Seq<Seq<Target>>,
    batches: Seq<Seq<(T, i64)>>,
    node: usize,
)
    ensures
        woken_from(routes, batches, 0).to_multiset().count(node) == sum_over(
            batches.len(),
            |o: int|
                (routes[o].filter(|t: Target| t.node == node).len() * batches[o].len()) as int,
        ),
{
    let f = |o: int| inputs_reached(routes[o], node) * batches[o].len();
    let g = |o: int|
        (routes[o].filter(|t: Target| t.node == node).len() * batches[o].len()) as int;
    lemma_woken_count(routes, batches, 0, node);
    assert(f =~= g) by {
        assert forall|o: int| #[trigger] f(o) == g(o) by {
            assert(inputs_reached(routes[o], node) == routes[o].filter(
                |t: Target| t.node == node,
            ).len());
        }
    }
}

/// Edges are taken as they are, by output, in their order.
pub proof fn law_routes_as_they_are(routes: Seq<Vec<Target>>, o: int)
    ensures
        route_targets(routes).len() == routes.len(),
        0 <= o < routes.len() ==> route_targets(routes)[o] == routes[o]@,
{
}

/// To undo a change is to make the opposite one, but for the least number, which has none.
pub proof fn law_undone_is_opposite(delta: i64)
    ensures
        delta != i64::MIN ==> negated(delta) == -delta,
        delta == i64::MIN ==> negated(delta) == delta,
{
}

} // verus!
