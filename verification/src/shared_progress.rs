//! What an operator and the scope that hosts it tell each other about progress.

use std::collections::HashMap;

use vstd::prelude::*;

use crate::change_batch::{updated, ChangeBatch};
use crate::order::{Ordered, Timestamp};

verus! {

broadcast use vstd::std_specs::hash::group_hash_axioms;

/// The changes that each of `v` holds.
pub open spec fn contents<T: Ordered>(v: Seq<ChangeBatch<T>>) -> Seq<Seq<(T, i64)>> {
    v.map_values(|b: ChangeBatch<T>| b@)
}

/// The changes that each batch of each node holds.
pub open spec fn node_contents<T: Ordered>(m: Map<usize, Vec<ChangeBatch<T>>>) -> Map<
    usize,
    Seq<Seq<(T, i64)>>,
> {
    m.map_values(|v: Vec<ChangeBatch<T>>| contents(v@))
}

/// As many batches of no changes as `n`.
pub open spec fn no_changes<T>(n: nat) -> Seq<Seq<(T, i64)>> {
    Seq::new(n, |i: int| Seq::<(T, i64)>::empty())
}

/// The contents of a `SharedProgress`.
pub struct ProgressContents<T> {
    /// Changes to the frontier of each input.
    pub frontiers: Seq<Seq<(T, i64)>>,
    /// Messages consumed at each input.
    pub consumeds: Seq<Seq<(T, i64)>>,
    /// Changes to the capabilities held for each output.
    pub internals: Seq<Seq<(T, i64)>>,
    /// Messages produced at each output.
    pub produceds: Seq<Seq<(T, i64)>>,
    /// Changes to the input frontiers of each device-side node.
    pub wrapper_frontiers: Map<usize, Seq<Seq<(T, i64)>>>,
    /// Messages consumed at the inputs of each device-side node.
    pub wrapper_consumeds: Map<usize, Seq<Seq<(T, i64)>>>,
    /// Changes to the capabilities of each device-side node.
    pub wrapper_internals: Map<usize, Seq<Seq<(T, i64)>>>,
    /// Messages produced at the outputs of each device-side node.
    pub wrapper_produceds: Map<usize, Seq<Seq<(T, i64)>>>,
}

/// Nothing to report, for an operator with `inputs` inputs and `outputs` outputs that stands for
/// no device-side nodes.
pub open spec fn nothing_reported<T>(inputs: nat, outputs: nat) -> ProgressContents<T> {
    ProgressContents {
        frontiers: no_changes::<T>(inputs),
        consumeds: no_changes::<T>(inputs),
        internals: no_changes::<T>(outputs),
        produceds: no_changes::<T>(outputs),
        wrapper_frontiers: Map::empty(),
        wrapper_consumeds: Map::empty(),
        wrapper_internals: Map::empty(),
        wrapper_produceds: Map::empty(),
    }
}

/// Progress information shared by an operator and its host. An operator that stands for
/// device-side nodes also holds theirs, by node.
pub struct SharedProgress<T: Timestamp> {
    /// Changes to the frontier of each input, written by the host.
    pub frontiers: Vec<ChangeBatch<T>>,
    /// Messages consumed at each input.
    pub consumeds: Vec<ChangeBatch<T>>,
    /// Changes to the capabilities held for each output.
    pub internals: Vec<ChangeBatch<T>>,
    /// Messages produced at each output.
    pub produceds: Vec<ChangeBatch<T>>,
    /// Changes to the input frontiers of each device-side node, written by the host.
    pub wrapper_frontiers: HashMap<usize, Vec<ChangeBatch<T>>>,
    /// Messages consumed at the inputs of each device-side node.
    pub wrapper_consumeds: HashMap<usize, Vec<ChangeBatch<T>>>,
    /// Changes to the capabilities of each device-side node.
    pub wrapper_internals: HashMap<usize, Vec<ChangeBatch<T>>>,
    /// Messages produced at the outputs of each device-side node.
    pub wrapper_produceds: HashMap<usize, Vec<ChangeBatch<T>>>,
}

impl<T: Timestamp> View for SharedProgress<T> {
    type V = ProgressContents<T>;

    open spec fn view(&self) -> ProgressContents<T> {
        ProgressContents {
            frontiers: contents(self.frontiers@),
            consumeds: contents(self.consumeds@),
            internals: contents(self.internals@),
            produceds: contents(self.produceds@),
            wrapper_frontiers: node_contents(self.wrapper_frontiers@),
            wrapper_consumeds: node_contents(self.wrapper_consumeds@),
            wrapper_internals: node_contents(self.wrapper_internals@),
            wrapper_produceds: node_contents(self.wrapper_produceds@),
        }
    }
}

/// As many batches of no changes as `n`.
fn empty_batches<T: Timestamp>(n: usize) -> (r: Vec<ChangeBatch<T>>)
    ensures
        contents(r@) == no_changes::<T>(n as nat),
{
    let mut r: Vec<ChangeBatch<T>> = Vec::new();
    let mut i: usize = 0;
    while i < n
        invariant
            i <= n,
            r@.len() == i,
            contents(r@) == no_changes::<T>(i as nat),
        decreases n - i,
    {
        let ghost prior = r@;
        r.push(ChangeBatch::new());
        assert forall|k: int| 0 <= k <= i implies contents(r@)[k] == no_changes::<T>(
            (i + 1) as nat,
        )[k] by {
            if k < i {
                assert(r@[k] == prior[k]);
                assert(contents(prior)[k] == no_changes::<T>(i as nat)[k]);
            }
        }
        i += 1;
        assert(contents(r@) =~= no_changes::<T>(i as nat));
    }
    r
}

/// Adds `delta` to the count of `time` in batch `port`.
pub fn update_batch<T: Timestamp>(
    batches: &mut Vec<ChangeBatch<T>>,
    port: usize,
    time: T,
    delta: i64,
)
    requires
        port < old(batches)@.len(),
    ensures
        final(batches)@.len() == old(batches)@.len(),
        contents(final(batches)@) == contents(old(batches)@).update(
            port as int,
            updated(contents(old(batches)@)[port as int], time, delta),
        ),
{
    batches[port].update(time, delta);
    assert(contents(batches@) =~= contents(old(batches)@).update(
        port as int,
        updated(contents(old(batches)@)[port as int], time, delta),
    ));
}

/// Takes the changes out of batch `port`.
pub fn drain_batch<T: Timestamp>(batches: &mut Vec<ChangeBatch<T>>, port: usize) -> (r: Vec<
    (T, i64),
>)
    requires
        port < old(batches)@.len(),
    ensures
        final(batches)@.len() == old(batches)@.len(),
        r@ == contents(old(batches)@)[port as int],
        contents(final(batches)@) == contents(old(batches)@).update(
            port as int,
            Seq::<(T, i64)>::empty(),
        ),
{
    let r = batches[port].drain();
    assert(contents(batches@) =~= contents(old(batches)@).update(
        port as int,
        Seq::<(T, i64)>::empty(),
    ));
    r
}

/// Adds `delta` to the count of `time` in batch `port` of `node`.
pub fn update_node_batch<T: Timestamp>(
    batches: &mut HashMap<usize, Vec<ChangeBatch<T>>>,
    node: usize,
    port: usize,
    time: T,
    delta: i64,
)
    requires
        old(batches)@.contains_key(node),
        port < old(batches)@[node]@.len(),
    ensures
        node_contents(final(batches)@) == node_contents(old(batches)@).insert(
            node,
            node_contents(old(batches)@)[node].update(
                port as int,
                updated(node_contents(old(batches)@)[node][port as int], time, delta),
            ),
        ),
{
    let ghost before = batches@;
    match batches.remove(&node) {
        Some(mut own) => {
            update_batch(&mut own, port, time, delta);
            batches.insert(node, own);
            assert(node_contents(batches@) =~= node_contents(before).insert(
                node,
                contents(own@),
            ));
        },
        None => {},
    }
}

/// Takes the changes out of batch `port` of `node`.
pub fn drain_node_batch<T: Timestamp>(
    batches: &mut HashMap<usize, Vec<ChangeBatch<T>>>,
    node: usize,
    port: usize,
) -> (r: Vec<(T, i64)>)
    requires
        old(batches)@.contains_key(node),
        port < old(batches)@[node]@.len(),
    ensures
        r@ == node_contents(old(batches)@)[node][port as int],
        node_contents(final(batches)@) == node_contents(old(batches)@).insert(
            node,
            node_contents(old(batches)@)[node].update(port as int, Seq::<(T, i64)>::empty()),
        ),
{
    let ghost before = batches@;
    match batches.remove(&node) {
        Some(mut own) => {
            let r = drain_batch(&mut own, port);
            batches.insert(node, own);
            assert(node_contents(batches@) =~= node_contents(before).insert(
                node,
                contents(own@),
            ));
            r
        },
        None => Vec::new(),
    }
}

impl<T: Timestamp> SharedProgress<T> {
    /// Nothing to report, for an operator with `inputs` inputs and `outputs` outputs.
    pub fn new(inputs: usize, outputs: usize) -> (r: Self)
        ensures
            r@ == nothing_reported::<T>(inputs as nat, outputs as nat),
    {
        let r = SharedProgress {
            frontiers: empty_batches(inputs),
            consumeds: empty_batches(inputs),
            internals: empty_batches(outputs),
            produceds: empty_batches(outputs),
            wrapper_frontiers: HashMap::new(),
            wrapper_consumeds: HashMap::new(),
            wrapper_internals: HashMap::new(),
            wrapper_produceds: HashMap::new(),
        };
        assert(r@.wrapper_frontiers =~= Map::empty());
        assert(r@.wrapper_consumeds =~= Map::empty());
        assert(r@.wrapper_internals =~= Map::empty());
        assert(r@.wrapper_produceds =~= Map::empty());
        r
    }

    /// Nothing to report, for an operator that stands for the device-side nodes `ghosts`.
    /// Each of these has as many inputs and outputs as the operator.
    pub fn new_ghosts(inputs: usize, outputs: usize, ghosts: &Vec<usize>) -> (r: Self)
        ensures
            r@ == (ProgressContents {
                frontiers: no_changes::<T>(inputs as nat),
                consumeds: no_changes::<T>(inputs as nat),
                internals: no_changes::<T>(outputs as nat),
                produceds: no_changes::<T>(outputs as nat),
                wrapper_frontiers: no_node_changes::<T>(ghosts@, inputs as nat),
                wrapper_consumeds: no_node_changes::<T>(ghosts@, inputs as nat),
                wrapper_internals: no_node_changes::<T>(ghosts@, outputs as nat),
                wrapper_produceds: no_node_changes::<T>(ghosts@, outputs as nat),
            }),
    {
        SharedProgress {
            frontiers: empty_batches(inputs),
            consumeds: empty_batches(inputs),
            internals: empty_batches(outputs),
            produceds: empty_batches(outputs),
            wrapper_frontiers: empty_node_batches(ghosts, inputs),
            wrapper_consumeds: empty_node_batches(ghosts, inputs),
            wrapper_internals: empty_node_batches(ghosts, outputs),
            wrapper_produceds: empty_node_batches(ghosts, outputs),
        }
    }
}

/// As many batches of no changes as `n`, for each of `nodes`.
pub open spec fn no_node_changes<T>(nodes: Seq<usize>, n: nat) -> Map<usize, Seq<Seq<(T, i64)>>> {
    Map::new(|node: usize| nodes.contains(node), |node: usize| no_changes::<T>(n))
}

/// As many batches of no changes as `n`, for each of `nodes`.
fn empty_node_batches<T: Timestamp>(nodes: &Vec<usize>, n: usize) -> (r: HashMap<
    usize,
    Vec<ChangeBatch<T>>,
>)
    ensures
        node_contents(r@) == no_node_changes::<T>(nodes@, n as nat),
{
    let mut r: HashMap<usize, Vec<ChangeBatch<T>>> = HashMap::new();
    let mut i: usize = 0;
    assert(node_contents(r@) =~= no_node_changes::<T>(nodes@.take(0), n as nat));
    while i < nodes.len()
        invariant
            i <= nodes@.len(),
            node_contents(r@) == no_node_changes::<T>(nodes@.take(i as int), n as nat),
        decreases nodes@.len() - i,
    {
        let ghost prior = r@;
        r.insert(nodes[i], empty_batches(n));
        proof {
            let a = nodes@.take(i as int);
            let b = nodes@.take(i + 1);
            assert(b =~= a.push(nodes@[i as int]));
            assert forall|x: usize| b.contains(x) <==> (a.contains(x) || x == nodes@[i as int]) by {
                if a.contains(x) {
                    let k = a.index_of(x);
                    assert(b[k] == x);
                }
                if x == nodes@[i as int] {
                    assert(b[i as int] == x);
                }
                if b.contains(x) && x != nodes@[i as int] {
                    let k = b.index_of(x);
                    assert(a[k] == x);
                }
            }
            assert(node_contents(r@) =~= node_contents(prior).insert(
                nodes@[i as int],
                no_changes::<T>(n as nat),
            ));
            assert(node_contents(r@) =~= no_node_changes::<T>(b, n as nat));
        }
        i += 1;
    }
    assert(nodes@.take(i as int) =~= nodes@);
    r
}

/// Progress information is what its batches hold, of the operator and of each node.
pub proof fn law_contents<T: Timestamp>(p: SharedProgress<T>, i: int, g: usize)
    ensures
        p@.frontiers.len() == p.frontiers@.len(),
        p@.consumeds.len() == p.consumeds@.len(),
        p@.internals.len() == p.internals@.len(),
        p@.produceds.len() == p.produceds@.len(),
        0 <= i < p.frontiers@.len() ==> p@.frontiers[i] == p.frontiers@[i]@,
        0 <= i < p.consumeds@.len() ==> p@.consumeds[i] == p.consumeds@[i]@,
        0 <= i < p.internals@.len() ==> p@.internals[i] == p.internals@[i]@,
        0 <= i < p.produceds@.len() ==> p@.produceds[i] == p.produceds@[i]@,
        p@.wrapper_frontiers.dom() == p.wrapper_frontiers@.dom(),
        p@.wrapper_consumeds.dom() == p.wrapper_consumeds@.dom(),
        p@.wrapper_internals.dom() == p.wrapper_internals@.dom(),
        p@.wrapper_produceds.dom() == p.wrapper_produceds@.dom(),
        p.wrapper_frontiers@.contains_key(g) && 0 <= i < p.wrapper_frontiers@[g]@.len()
            ==> p@.wrapper_frontiers[g][i] == p.wrapper_frontiers@[g]@[i]@,
        p.wrapper_consumeds@.contains_key(g) && 0 <= i < p.wrapper_consumeds@[g]@.len()
            ==> p@.wrapper_consumeds[g][i] == p.wrapper_consumeds@[g]@[i]@,
        p.wrapper_internals@.contains_key(g) && 0 <= i < p.wrapper_internals@[g]@.len()
            ==> p@.wrapper_internals[g][i] == p.wrapper_internals@[g]@[i]@,
        p.wrapper_produceds@.contains_key(g) && 0 <= i < p.wrapper_produceds@[g]@.len()
            ==> p@.wrapper_produceds[g][i] == p.wrapper_produceds@[g]@[i]@,
{
    assert(p@.wrapper_frontiers.dom() =~= p.wrapper_frontiers@.dom());
    assert(p@.wrapper_consumeds.dom() =~= p.wrapper_consumeds@.dom());
    assert(p@.wrapper_internals.dom() =~= p.wrapper_internals@.dom());
    assert(p@.wrapper_produceds.dom() =~= p.wrapper_produceds@.dom());
}

/// At first there is a batch for each port of each node named, and it is empty.
pub proof fn law_nothing_at_first<T>(nodes: Seq<usize>, n: nat, node: usize, i: int)
    ensures
        no_node_changes::<T>(nodes, n).contains_key(node) <==> nodes.contains(node),
        nodes.contains(node) ==> no_node_changes::<T>(nodes, n)[node].len() == n,
        nodes.contains(node) && 0 <= i < n ==> no_node_changes::<T>(nodes, n)[node][i].len() == 0,
{
}

} // verus!
