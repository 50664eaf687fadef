//! Operators that run on a device, and the operators of the host that stand for them.

use std::collections::HashMap;

use vstd::prelude::*;

use crate::change_batch::{
    compacted, count, law_update_counts, updated, wrapped, ChangeBatch,
};
use crate::frontier::Antichain;
use crate::order::Timestamp;
use crate::per_operator::OperatorInfo;
use crate::reachability::{copy_summary, row_elements, summary_elements};
use crate::shared_progress::{
    contents, node_contents, update_batch, ProgressContents, SharedProgress,
};

verus! {

broadcast use vstd::std_specs::hash::group_hash_axioms;

/// What is known of an operator from the outside.
pub struct OperatorShape {
    /// Its name.
    pub name: String,
    /// Whether it asks to be scheduled when a frontier changes.
    pub notify: bool,
    /// Number of workers.
    pub peers: usize,
    /// Number of inputs.
    pub inputs: usize,
    /// Number of outputs.
    pub outputs: usize,
}

/// Each of `batches` with `delta` more of `time`.
pub open spec fn each_updated<T: Timestamp>(
    batches: Seq<Seq<(T, i64)>>,
    time: T,
    delta: i64,
) -> Seq<Seq<(T, i64)>> {
    batches.map_values(|b: Seq<(T, i64)>| updated(b, time, delta))
}

/// Capability changes, with a capability at the least time for each output of each of the first
/// `n` nodes of `ghosts`, one for each worker.
pub open spec fn reserved<T: Timestamp>(
    m: Map<usize, Seq<Seq<(T, i64)>>>,
    ghosts: Seq<(usize, usize)>,
    peers: usize,
    n: nat,
) -> Map<usize, Seq<Seq<(T, i64)>>>
    decreases n,
{
    if n == 0 {
        m
    } else {
        let before = reserved(m, ghosts, peers, (n - 1) as nat);
        let node = ghosts[n - 1].1;
        before.insert(node, each_updated(before[node], T::least(), peers as i64))
    }
}

/// A summary with one more input, whose first input leads to one more output.
pub open spec fn connected<S>(summary: Seq<Seq<Seq<S>>>, identity: S) -> Seq<Seq<Seq<S>>> {
    let wider = summary.push(Seq::<Seq<S>>::empty());
    wider.update(0, wider[0].push(seq![identity]))
}

/// Adds `delta` to the count of `time` in each of `batches`.
pub fn update_each<T: Timestamp>(batches: &mut Vec<ChangeBatch<T>>, time: T, delta: i64)
    ensures
        final(batches)@.len() == old(batches)@.len(),
        contents(final(batches)@) == each_updated(contents(old(batches)@), time, delta),
{
    let ghost all = contents(batches@);
    let mut i: usize = 0;
    while i < batches.len()
        invariant
            i <= batches@.len(),
            batches@.len() == all.len(),
            forall|k: int|
                0 <= k < i ==> #[trigger] contents(batches@)[k] == updated(all[k], time, delta),
            forall|k: int| i <= k < all.len() ==> #[trigger] contents(batches@)[k] == all[k],
        decreases batches@.len() - i,
    {
        let ghost before = contents(batches@);
        update_batch(batches, i, time, delta);
        assert forall|k: int| 0 <= k < i + 1 implies #[trigger] contents(batches@)[k] == updated(
            all[k],
            time,
            delta,
        ) by {
            assert(before[k] == (if k < i {
                updated(all[k], time, delta)
            } else {
                all[k]
            }));
        }
        assert forall|k: int| i + 1 <= k < all.len() implies #[trigger] contents(batches@)[k]
            == all[k] by {
            assert(before[k] == all[k]);
        }
        i += 1;
    }
    assert(contents(batches@) =~= each_updated(all, time, delta));
}

/// An operator that runs on a device. On the host it only has a place in the graph.
pub struct FakeOperator<T: Timestamp> {
    /// What is known of it from the outside.
    pub shape: OperatorShape,
    /// Indexes that lead to it from the root.
    pub address: Vec<usize>,
    /// Its progress information.
    pub shared_progress: SharedProgress<T>,
    /// By input and output, what the paths between them do to times.
    pub summary: Vec<Vec<Antichain<T::Summary>>>,
}

impl<T: Timestamp> FakeOperator<T> {
    /// Its name.
    pub fn name(&self) -> (r: &String)
        ensures
            *r == self.shape.name,
    {
        &self.shape.name
    }

    /// Indexes that lead to it from the root.
    pub fn path(&self) -> (r: &Vec<usize>)
        ensures
            *r == self.address,
    {
        &self.address
    }

    /// Nothing runs on the host, so nothing is ever incomplete there.
    pub fn schedule(&self) -> (r: bool)
        ensures
            !r,
    {
        false
    }

    /// Number of inputs.
    pub fn inputs(&self) -> (r: usize)
        ensures
            r == self.shape.inputs,
    {
        self.shape.inputs
    }

    /// Number of outputs.
    pub fn outputs(&self) -> (r: usize)
        ensures
            r == self.shape.outputs,
    {
        self.shape.outputs
    }

    /// Whether it asks to be scheduled when a frontier changes.
    pub fn notify_me(&self) -> (r: bool)
        ensures
            r == self.shape.notify,
    {
        self.shape.notify
    }

    /// Reserves a capability for each output at the least time, one for each worker; connects
    /// the first input to an output; and returns the summary.
    pub fn get_internal_summary(&mut self) -> (r: Vec<Vec<Antichain<T::Summary>>>)
        ensures
            final(self).shape == old(self).shape,
            final(self).address == old(self).address,
            final(self).shared_progress@ == (ProgressContents {
                internals: each_updated(
                    old(self).shared_progress@.internals,
                    T::least(),
                    old(self).shape.peers as i64,
                ),
                ..old(self).shared_progress@
            }),
            summary_elements(final(self).summary@) == connected(
                summary_elements(old(self).summary@),
                T::identity(),
            ),
            summary_elements(r@) == summary_elements(final(self).summary@),
            r@.len() == old(self).summary@.len() + 1,
            r@[0]@.len() == (if old(self).summary@.len() == 0 {
                1
            } else {
                old(self).summary@[0]@.len() + 1
            }),
            forall|i: int|
                1 <= i < old(self).summary@.len() ==> (#[trigger] r@[i])@.len() == old(
                    self,
                ).summary@[i]@.len(),
            old(self).summary@.len() > 0 ==> r@[old(self).summary@.len() as int]@.len() == 0,
    {
        let ghost before = summary_elements(self.summary@);
        let minimum = T::minimum();
        update_each(&mut self.shared_progress.internals, minimum, self.shape.peers as i64);
        self.summary.push(Vec::new());
        let ghost wider = self.summary@;
        self.summary[0].push(Antichain::from_elem(T::identity_summary()));
        proof {
            let after = summary_elements(self.summary@);
            let goal = connected(before, T::identity());
            assert forall|i: int| 0 <= i < goal.len() implies after[i] == goal[i] by {
                if i < before.len() {
                    assert(before[i] == row_elements(old(self).summary@[i]@));
                }
                if i == 0 {
                    assert(after[0] =~= goal[0]);
                } else {
                    assert(self.summary@[i] == wider[i]);
                    assert(after[i] =~= goal[i]);
                }
            }
            assert(after =~= goal);
        }
        copy_summary(&self.summary)
    }

    /// Whether it is to be scheduled once the scope around it is complete.
    pub fn set_external_summary(&self) -> (r: bool)
        ensures
            !r,
    {
        false
    }

    /// What it says of itself when it is added to a scope.
    pub fn describe(self) -> (r: OperatorInfo<T>)
        ensures
            r.name == self.shape.name,
            r.local,
            r.notify == self.shape.notify,
            r.inputs == self.shape.inputs,
            r.outputs == self.shape.outputs,
            summary_elements(r.internal_summary@) == connected(
                summary_elements(self.summary@),
                T::identity(),
            ),
            r.internal_summary@.len() == self.summary@.len() + 1,
            self.summary@.len() == 0 ==> r.internal_summary@[0]@.len() == 1,
            r.shared_progress@ == (ProgressContents {
                internals: each_updated(
                    self.shared_progress@.internals,
                    T::least(),
                    self.shape.peers as i64,
                ),
                ..self.shared_progress@
            }),
    {
        let mut this = self;
        let internal_summary = this.get_internal_summary();
        OperatorInfo {
            name: this.shape.name,
            local: true,
            notify: this.shape.notify,
            inputs: this.shape.inputs,
            outputs: this.shape.outputs,
            internal_summary,
            shared_progress: this.shared_progress,
        }
    }
}

/// An operator of the host that stands for device-side nodes.
pub struct FpgaOperator<T: Timestamp> {
    /// What is known of it from the outside.
    pub shape: OperatorShape,
    /// Indexes that lead to it from the root.
    pub address: Vec<usize>,
    /// Its progress information, and that of the device-side nodes.
    pub shared_progress: SharedProgress<T>,
    /// By input and output, what the paths between them do to times.
    pub summary: Vec<Vec<Antichain<T::Summary>>>,
    /// The number and the index of each device-side node.
    pub ghost_indexes: Vec<(usize, usize)>,
}

/// Adds `delta` to the count of `time` in each batch of `node`.
fn update_each_of<T: Timestamp>(
    batches: &mut HashMap<usize, Vec<ChangeBatch<T>>>,
    node: usize,
    time: T,
    delta: i64,
)
    requires
        old(batches)@.contains_key(node),
    ensures
        node_contents(final(batches)@) == node_contents(old(batches)@).insert(
            node,
            each_updated(node_contents(old(batches)@)[node], time, delta),
        ),
{
    let ghost before = batches@;
    match batches.remove(&node) {
        Some(mut own) => {
            update_each(&mut own, time, delta);
            batches.insert(node, own);
            assert(node_contents(batches@) =~= node_contents(before).insert(
                node,
                contents(own@),
            ));
        },
        None => {},
    }
}

impl<T: Timestamp> FpgaOperator<T> {
    /// Whether progress information has a place for the capabilities of each device-side node.
    pub open spec fn has_internals(&self) -> bool {
        forall|k: int|
            0 <= k < self.ghost_indexes@.len()
                ==> self.shared_progress@.wrapper_internals.contains_key(
                (#[trigger] self.ghost_indexes@[k]).1,
            )
    }

    /// Its name.
    pub fn name(&self) -> (r: &String)
        ensures
            *r == self.shape.name,
    {
        &self.shape.name
    }

    /// Indexes that lead to it from the root.
    pub fn path(&self) -> (r: &Vec<usize>)
        ensures
            *r == self.address,
    {
        &self.address
    }

    /// Whether it is incomplete, where `answer` is what its logic said.
    pub fn schedule(&self, answer: bool) -> (r: bool)
        ensures
            r == answer,
    {
        answer
    }

    /// Number of inputs.
    pub fn inputs(&self) -> (r: usize)
        ensures
            r == self.shape.inputs,
    {
        self.shape.inputs
    }

    /// Number of outputs.
    pub fn outputs(&self) -> (r: usize)
        ensures
            r == self.shape.outputs,
    {
        self.shape.outputs
    }

    /// Whether it asks to be scheduled when a frontier changes.
    pub fn notify_me(&self) -> (r: bool)
        ensures
            r == self.shape.notify,
    {
        self.shape.notify
    }

    /// Reserves a capability for each output of each device-side node at the least time, one
    /// for each worker, and returns the summary. The operator is to be scheduled at least once.
    pub fn get_internal_summary(&mut self) -> (r: Vec<Vec<Antichain<T::Summary>>>)
        requires
            old(self).has_internals(),
        ensures
            final(self).shape == old(self).shape,
            final(self).address == old(self).address,
            final(self).summary == old(self).summary,
            final(self).ghost_indexes == old(self).ghost_indexes,
            final(self).shared_progress@ == (ProgressContents {
                wrapper_internals: reserved(
                    old(self).shared_progress@.wrapper_internals,
                    old(self).ghost_indexes@,
                    old(self).shape.peers,
                    old(self).ghost_indexes@.len(),
                ),
                ..old(self).shared_progress@
            }),
            summary_elements(r@) == summary_elements(old(self).summary@),
            r@.len() == old(self).summary@.len(),
            forall|k: int|
                0 <= k < r@.len() ==> (#[trigger] r@[k])@.len() == old(self).summary@[k]@.len(),
    {
        let ghost start = self.shared_progress@;
        let ghost ghosts = self.ghost_indexes@;
        let mut k: usize = 0;
        while k < self.ghost_indexes.len()
            invariant
                k <= ghosts.len(),
                ghosts == self.ghost_indexes@,
                self.ghost_indexes == old(self).ghost_indexes,
                self.shape == old(self).shape,
                self.address == old(self).address,
                self.summary == old(self).summary,
                self.has_internals(),
                self.shared_progress@ == (ProgressContents {
                    wrapper_internals: reserved(
                        start.wrapper_internals,
                        ghosts,
                        self.shape.peers,
                        k as nat,
                    ),
                    ..start
                }),
            decreases ghosts.len() - k,
        {
            let (_, j) = self.ghost_indexes[k];
            let ghost before = self.shared_progress@.wrapper_internals;
            assert(before.contains_key(ghosts[k as int].1));
            let minimum = T::minimum();
            update_each_of(
                &mut self.shared_progress.wrapper_internals,
                j,
                minimum,
                self.shape.peers as i64,
            );
            assert forall|i: int|
                0 <= i < ghosts.len() implies self.shared_progress@.wrapper_internals.contains_key(
                (#[trigger] self.ghost_indexes@[i]).1,
            ) by {
                assert(before.contains_key(ghosts[i].1));
            }
            k += 1;
        }
        copy_summary(&self.summary)
    }

    /// Whether it is to be scheduled once the scope around it is complete.
    pub fn set_external_summary(&self) -> (r: bool)
        ensures
            r,
    {
        true
    }

    /// What it says of itself when it is added to a scope.
    pub fn describe(self) -> (r: OperatorInfo<T>)
        requires
            self.has_internals(),
        ensures
            r.name == self.shape.name,
            r.local,
            r.notify == self.shape.notify,
            r.inputs == self.shape.inputs,
            r.outputs == self.shape.outputs,
            summary_elements(r.internal_summary@) == summary_elements(self.summary@),
            r.internal_summary@.len() == self.summary@.len(),
            forall|k: int|
                0 <= k < self.summary@.len() ==> (#[trigger] r.internal_summary@[k])@.len()
                    == self.summary@[k]@.len(),
            r.shared_progress@ == (ProgressContents {
                wrapper_internals: reserved(
                    self.shared_progress@.wrapper_internals,
                    self.ghost_indexes@,
                    self.shape.peers,
                    self.ghost_indexes@.len(),
                ),
                ..self.shared_progress@
            }),
    {
        let mut this = self;
        let internal_summary = this.get_internal_summary();
        OperatorInfo {
            name: this.shape.name,
            local: true,
            notify: this.shape.notify,
            inputs: this.shape.inputs,
            outputs: this.shape.outputs,
            internal_summary,
            shared_progress: this.shared_progress,
        }
    }
}

/// Updating batches updates each of them: at `time`, each counts `delta` more, and at other times as
/// many as before.
pub proof fn law_each_is_updated<T: Timestamp>(
    batches: Seq<Seq<(T, i64)>>,
    time: T,
    delta: i64,
    k: int,
    t: T,
)
    requires
        0 <= k < batches.len(),
        compacted(batches[k]),
    ensures
        each_updated(batches, time, delta).len() == batches.len(),
        compacted(each_updated(batches, time, delta)[k]),
        count(each_updated(batches, time, delta)[k], t) == (if t == time {
            wrapped(count(batches[k], t) + delta)
        } else {
            count(batches[k], t) as int
        }),
{
    law_update_counts(batches[k], time, delta, t);
}

/// For each device-side node that is named, a capability for each worker is held at the least time
/// for each of its outputs. Nothing is held for others.
pub proof fn law_capabilities_reserved<T: Timestamp>(
    m: Map<usize, Seq<Seq<(T, i64)>>>,
    ghosts: Seq<(usize, usize)>,
    peers: usize,
    n: nat,
    node: usize,
)
    requires
        n <= ghosts.len(),
        forall|j: int, k: int|
            0 <= j < k < n ==> (#[trigger] ghosts[j]).1 != (#[trigger] ghosts[k]).1,
    ensures
        (forall|k: int| 0 <= k < n ==> (#[trigger] ghosts[k]).1 != node) ==> reserved(
            m,
            ghosts,
            peers,
            n,
        )[node] == m[node],
        (exists|k: int| 0 <= k < n && (#[trigger] ghosts[k]).1 == node) ==> reserved(
            m,
            ghosts,
            peers,
            n,
        )[node] == m[node].map_values(|b: Seq<(T, i64)>| updated(b, T::least(), peers as i64)),
    decreases n,
{
    if n > 0 {
        law_capabilities_reserved(m, ghosts, peers, (n - 1) as nat, node);
        let last = ghosts[n - 1].1;
        if node == last {
            assert forall|k: int| 0 <= k < n - 1 implies (#[trigger] ghosts[k]).1 != node by {
                assert(ghosts[k].1 != ghosts[n - 1].1);
            }
            law_capabilities_reserved(m, ghosts, peers, (n - 1) as nat, last);
        }
        if exists|k: int| 0 <= k < n && (#[trigger] ghosts[k]).1 == node {
            let k = choose|k: int| 0 <= k < n && (#[trigger] ghosts[k]).1 == node;
            if node != last {
                assert(0 <= k < n - 1 && ghosts[k].1 == node);
            }
        }
    }
}

/// A device-side node of one input and one output hands times through as they are.
pub proof fn law_node_connected<S>(summary: Seq<Seq<Seq<S>>>, identity: S, i: int)
    requires
        0 <= i < summary.len(),
    ensures
        connected(Seq::<Seq<Seq<S>>>::empty(), identity).len() == 1,
        connected(Seq::<Seq<Seq<S>>>::empty(), identity)[0].len() == 1,
        connected(Seq::<Seq<Seq<S>>>::empty(), identity)[0][0] == seq![identity],
        connected(summary, identity).len() == summary.len() + 1,
        connected(summary, identity)[summary.len() as int].len() == 0,
        connected(summary, identity)[0] == summary[0].push(seq![identity]),
        i > 0 ==> connected(summary, identity)[i] == summary[i],
{
}

} // verus!
