//! Putting a scope together: its operators, the edges between them, and the device-side nodes
//! that some of them stand for.

use std::collections::HashMap;

use vstd::prelude::*;

use crate::change_batch::ChangeBatch;
use crate::frontier::MutableAntichain;
use crate::location::{Source, Target};
use crate::logging::{child_address, OperatesEvent};
use crate::order::{Refines, Timestamp};
use crate::per_operator::{OperatorInfo, PerOperatorState};
use crate::sums::{
    lemma_count_ends, lemma_count_join, lemma_count_small, lemma_sum_same, sum_over,
};

verus! {

broadcast use vstd::std_specs::hash::group_hash_axioms;

/// A scope under construction.
///
/// By convention child zero stands for the outside of the scope: its outputs are the inputs of
/// the scope, and its inputs are the outputs of the scope.
pub struct SubgraphBuilder<TOuter: Timestamp, TInner: Timestamp> {
    /// The name of the scope.
    pub name: String,
    /// Indexes that lead to the scope from the root.
    pub path: Vec<usize>,
    /// The index of the scope within its parent.
    pub index: usize,
    /// The operators of the scope, in the order in which they were added.
    pub children: Vec<PerOperatorState<TInner>>,
    /// The number of child identifiers handed out, with that of child zero.
    pub child_count: usize,
    /// Edges along which messages travel.
    pub edge_stash: Vec<(Source, Target)>,
    /// Edges along which progress is tracked.
    pub ghost_edge_stash: Vec<(Source, Target)>,
    /// By input, the messages that entered the scope.
    pub input_messages: Vec<ChangeBatch<TInner>>,
    /// By output, the capabilities expressed so far.
    pub output_capabilities: Vec<MutableAntichain<TOuter>>,
    /// By operator, the device-side nodes that it stands for.
    pub wrapper_ghost: HashMap<usize, Vec<usize>>,
    /// By device-side node, the operator that stands for it.
    pub ghost_wrapper: HashMap<usize, usize>,
    /// By operator, the edges that join its device-side nodes.
    pub wrapper_ghost_edges: HashMap<usize, Vec<(usize, usize)>>,
}

/// `m` with each of `keys` sent to `value`.
pub open spec fn all_sent(m: Map<usize, usize>, keys: Seq<usize>, value: usize) -> Map<usize, usize>
    decreases keys.len(),
{
    if keys.len() == 0 {
        m
    } else {
        all_sent(m, keys.drop_last(), value).insert(keys.last(), value)
    }
}

/// The edges in each list of `m`.
pub open spec fn edge_lists(m: Map<usize, Vec<(usize, usize)>>) -> Map<usize, Seq<(usize, usize)>> {
    m.map_values(|v: Vec<(usize, usize)>| v@)
}

/// The nodes in each list of `m`.
pub open spec fn node_lists(m: Map<usize, Vec<usize>>) -> Map<usize, Seq<usize>> {
    m.map_values(|v: Vec<usize>| v@)
}

/// Whether an edge touches none of `wrappers`.
pub open spec fn is_plain(edge: (Source, Target), wrappers: Set<usize>) -> bool {
    !wrappers.contains(edge.0.node) && !wrappers.contains(edge.1.node)
}

/// The edges that touch none of `wrappers`.
pub open spec fn plain_edges(edges: Seq<(Source, Target)>, wrappers: Set<usize>) -> Seq<
    (Source, Target),
> {
    edges.filter(|e: (Source, Target)| is_plain(e, wrappers))
}

/// Where the last edge into one of `wrappers` starts.
pub open spec fn entry_source(edges: Seq<(Source, Target)>, wrappers: Set<usize>) -> Source
    decreases edges.len(),
{
    if edges.len() == 0 {
        Source { node: 0, port: 0 }
    } else if wrappers.contains(edges.last().1.node) {
        edges.last().0
    } else {
        entry_source(edges.drop_last(), wrappers)
    }
}

/// Where the last edge from one of `wrappers` to a node that is none of them ends.
pub open spec fn exit_target(edges: Seq<(Source, Target)>, wrappers: Set<usize>) -> Target
    decreases edges.len(),
{
    if edges.len() == 0 {
        Target { node: 0, port: 0 }
    } else if !wrappers.contains(edges.last().1.node) && wrappers.contains(edges.last().0.node) {
        edges.last().1
    } else {
        exit_target(edges.drop_last(), wrappers)
    }
}

/// The edges that `inner` stands for.
pub open spec fn inner_edges(inner: Seq<(usize, usize)>) -> Seq<(Source, Target)> {
    inner.map_values(
        |e: (usize, usize)| (Source { node: e.0, port: 0 }, Target { node: e.1, port: 0 }),
    )
}

/// The edges that put the device-side nodes `ghosts` in the place of their operator: one into
/// the first node, one out of the last node, and those between them.
pub open spec fn bridge(
    ghosts: Seq<usize>,
    inner: Seq<(usize, usize)>,
    entry: Source,
    exit: Target,
) -> Seq<(Source, Target)> {
    seq![
        (entry, Target { node: ghosts[0], port: 0 }),
        (Source { node: ghosts.last(), port: 0 }, exit),
    ] + inner_edges(inner)
}

/// The bridges of each operator of `order` in turn.
pub open spec fn bridges(
    order: Seq<usize>,
    ghosts: Map<usize, Seq<usize>>,
    inner: Map<usize, Seq<(usize, usize)>>,
    entry: Source,
    exit: Target,
) -> Seq<(Source, Target)>
    decreases order.len(),
{
    if order.len() == 0 {
        Seq::empty()
    } else {
        bridges(order.drop_last(), ghosts, inner, entry, exit) + bridge(
            ghosts[order.last()],
            inner[order.last()],
            entry,
            exit,
        )
    }
}

/// The edges of a group of device-side nodes, with those that enter and leave the group.
pub open spec fn joined(
    ghosts: Seq<usize>,
    inner: Seq<(usize, usize)>,
    entry: Source,
    exit: Target,
) -> Seq<(usize, usize)> {
    inner.push((entry.node, ghosts[0])).push((ghosts.last(), exit.node))
}

/// The edges of each operator of `wrappers` joined to those around it.
pub open spec fn all_joined(
    wrappers: Set<usize>,
    ghosts: Map<usize, Seq<usize>>,
    inner: Map<usize, Seq<(usize, usize)>>,
    entry: Source,
    exit: Target,
) -> Map<usize, Seq<(usize, usize)>> {
    Map::new(
        |w: usize| inner.contains_key(w),
        |w: usize|
            if wrappers.contains(w) {
                joined(ghosts[w], inner[w], entry, exit)
            } else {
                inner[w]
            },
    )
}

/// Whether `order` names each of `keys` once.
pub open spec fn is_order_of(order: Seq<usize>, keys: Set<usize>) -> bool {
    order.no_duplicates() && order.to_set() == keys
}

/// The keys of `m`, in no particular order.
pub fn key_order(m: &HashMap<usize, Vec<usize>>) -> (r: Vec<usize>)
    ensures
        is_order_of(r@, m@.dom()),
{
    let mut r: Vec<usize> = Vec::new();
    for w in it: m.keys()
        invariant
            r@ == it.seq().unref().take(it.index() as int),
            it.seq().no_duplicates(),
            it.seq().unref().to_set() == m@.dom(),
            it.index() == it.seq().len() ==> r@ == it.seq().unref(),
    {
        r.push(*w);
        assert(it.seq().unref().take(it.index() + 1) =~= it.seq().unref().take(
            it.index() as int,
        ).push(*w));
    }
    assert(r@.no_duplicates());
    r
}

impl<TOuter: Timestamp, TInner: Refines<TOuter>> SubgraphBuilder<TOuter, TInner> {
    /// Child zero is there, each child has as many lists of edges as outputs, and the edges
    /// between device-side nodes are known for each operator that stands for such nodes.
    pub open spec fn wf(&self) -> bool {
        &&& self.children@.len() >= 1
        &&& self.child_count >= 1
        &&& forall|k: int|
            0 <= k < self.children@.len() ==> {
                &&& (#[trigger] self.children@[k]).edges@.len() == self.children@[k].outputs
                &&& self.children@[k].ghost_edges@.len() == self.children@[k].outputs
            }
        &&& forall|w: usize| #[trigger]
            self.wrapper_ghost@.contains_key(w) ==> self.wrapper_ghost_edges@.contains_key(w)
    }

    /// Each child identifier handed out is that of a child, and children were added in the order
    /// of their identifiers.
    pub open spec fn is_dense(&self) -> bool {
        &&& self.children@.len() == self.child_count
        &&& forall|k: int|
            0 <= k < self.children@.len() ==> (#[trigger] self.children@[k]).index == k
    }

    /// The operators that stand for device-side nodes.
    pub open spec fn wrappers(&self) -> Set<usize> {
        self.wrapper_ghost@.dom()
    }

    /// Where messages for device-side nodes come from.
    pub open spec fn entry(&self) -> Source {
        entry_source(self.edge_stash@, self.wrappers())
    }

    /// Where messages from device-side nodes go.
    pub open spec fn exit(&self) -> Target {
        exit_target(self.edge_stash@, self.wrappers())
    }

    /// The edges along which progress is tracked once device-side nodes took the places of
    /// their operators, these taken in `order`.
    pub open spec fn tracked_edges(&self, order: Seq<usize>) -> Seq<(Source, Target)> {
        self.ghost_edge_stash@ + plain_edges(self.edge_stash@, self.wrappers()) + bridges(
            order,
            node_lists(self.wrapper_ghost@),
            edge_lists(self.wrapper_ghost_edges@),
            self.entry(),
            self.exit(),
        )
    }

    /// The edges of each group of device-side nodes, with those that enter and leave it.
    pub open spec fn joined_edges(&self) -> Map<usize, Seq<(usize, usize)>> {
        all_joined(
            self.wrappers(),
            node_lists(self.wrapper_ghost@),
            edge_lists(self.wrapper_ghost_edges@),
            self.entry(),
            self.exit(),
        )
    }

    /// A scope with no operators, inputs or outputs.
    pub fn new_from(index: usize, path: Vec<usize>, name: &str) -> (r: Self)
        ensures
            r.wf(),
            r.is_dense(),
            r.name@ == name@,
            r.path@ == path@.push(index),
            r.index == index,
            r.children@.len() == 1,
            r.children@[0].is_external(0, 0),
            r.child_count == 1,
            r.edge_stash@ == Seq::<(Source, Target)>::empty(),
            r.ghost_edge_stash@ == Seq::<(Source, Target)>::empty(),
            r.input_messages@ == Seq::<ChangeBatch<TInner>>::empty(),
            r.output_capabilities@ == Seq::<MutableAntichain<TOuter>>::empty(),
            r.wrapper_ghost@ == Map::<usize, Vec<usize>>::empty(),
            r.ghost_wrapper@ == Map::<usize, usize>::empty(),
            r.wrapper_ghost_edges@ == Map::<usize, Vec<(usize, usize)>>::empty(),
    {
        let mut path = path;
        path.push(index);
        let mut children: Vec<PerOperatorState<TInner>> = Vec::new();
        children.push(PerOperatorState::empty(0, 0));
        SubgraphBuilder {
            name: name.to_string(),
            path,
            index,
            children,
            child_count: 1,
            edge_stash: Vec::new(),
            ghost_edge_stash: Vec::new(),
            input_messages: Vec::new(),
            output_capabilities: Vec::new(),
            wrapper_ghost: HashMap::new(),
            ghost_wrapper: HashMap::new(),
            wrapper_ghost_edges: HashMap::new(),
        }
    }

    /// Adds an input to the scope, and returns where messages for it go in the scope around.
    pub fn new_input(&mut self, shared_counts: ChangeBatch<TInner>) -> (r: Target)
        ensures
            *final(self) == (SubgraphBuilder {
                input_messages: final(self).input_messages,
                ..*old(self)
            }),
            final(self).input_messages@ == old(self).input_messages@.push(shared_counts),
            r.node == old(self).index,
            r.port == old(self).input_messages@.len(),
    {
        self.input_messages.push(shared_counts);
        Target::new(self.index, self.input_messages.len() - 1)
    }

    /// Adds an output to the scope, and returns where messages from it come from in the scope
    /// around.
    pub fn new_output(&mut self) -> (r: Source)
        ensures
            *final(self) == (SubgraphBuilder {
                output_capabilities: final(self).output_capabilities,
                ..*old(self)
            }),
            final(self).output_capabilities@.len() == old(self).output_capabilities@.len() + 1,
            final(self).output_capabilities@.drop_last() == old(self).output_capabilities@,
            final(self).output_capabilities@.last().counts() == Seq::<(TOuter, i64)>::empty(),
            final(self).output_capabilities@.last().minimal() == Seq::<TOuter>::empty(),
            r.node == old(self).index,
            r.port == old(self).output_capabilities@.len(),
    {
        self.output_capabilities.push(MutableAntichain::new());
        assert(self.output_capabilities@.drop_last() =~= old(self).output_capabilities@);
        Source::new(self.index, self.output_capabilities.len() - 1)
    }

    /// Adds an edge: messages produced at `source` are to be consumed at `target`.
    pub fn connect(&mut self, source: Source, target: Target)
        ensures
            *final(self) == (SubgraphBuilder { edge_stash: final(self).edge_stash, ..*old(self) }),
            final(self).edge_stash@ == old(self).edge_stash@.push((source, target)),
    {
        self.edge_stash.push((source, target));
    }

    /// Hands out a child identifier that was not handed out before.
    pub fn allocate_child_id(&mut self) -> (r: usize)
        requires
            old(self).child_count < usize::MAX,
        ensures
            *final(self) == (SubgraphBuilder {
                child_count: (old(self).child_count + 1) as usize,
                ..*old(self)
            }),
            r == old(self).child_count,
    {
        self.child_count += 1;
        self.child_count - 1
    }

    /// Adds an operator, which counts as incomplete at first. Returns what announces it.
    pub fn add_child(
        &mut self,
        child: OperatorInfo<TInner>,
        index: usize,
        identifier: usize,
    ) -> (r: OperatesEvent)
        requires
            child.internal_summary@.len() == child.inputs,
            forall|i: int|
                0 <= i < child.inputs ==> (#[trigger] child.internal_summary@[i])@.len()
                    == child.outputs,
        ensures
            *final(self) == (SubgraphBuilder { children: final(self).children, ..*old(self) }),
            final(self).children@.drop_last() == old(self).children@,
            final(self).children@.len() == old(self).children@.len() + 1,
            final(self).children@.last().describes(&child, index, identifier, true),
            r@ == (identifier, old(self).path@.push(index), child.name@),
            old(self).wf() ==> final(self).wf(),
    {
        let event = OperatesEvent {
            id: identifier,
            addr: child_address(&self.path, index),
            name: child.name.clone(),
        };
        self.children.push(PerOperatorState::new(child, index, identifier, true));
        assert(self.children@.drop_last() =~= old(self).children@);
        event
    }

    /// Adds an operator that is never scheduled, and does not count as incomplete. Returns what
    /// announces it, with the address of the scope.
    pub fn add_child_no_path(
        &mut self,
        child: OperatorInfo<TInner>,
        index: usize,
        identifier: usize,
    ) -> (r: OperatesEvent)
        requires
            child.internal_summary@.len() == child.inputs,
            forall|i: int|
                0 <= i < child.inputs ==> (#[trigger] child.internal_summary@[i])@.len()
                    == child.outputs,
        ensures
            *final(self) == (SubgraphBuilder { children: final(self).children, ..*old(self) }),
            final(self).children@.drop_last() == old(self).children@,
            final(self).children@.len() == old(self).children@.len() + 1,
            final(self).children@.last().describes(&child, index, identifier, false),
            r@ == (identifier, old(self).path@, child.name@),
            old(self).wf() ==> final(self).wf(),
    {
        let addr = self.path.clone();
        assert(addr@ =~= self.path@);
        let event = OperatesEvent { id: identifier, addr, name: child.name.clone() };
        self.children.push(PerOperatorState::new(child, index, identifier, false));
        assert(self.children@.drop_last() =~= old(self).children@);
        event
    }

    /// Declares that the operator `wrapper` stands for the device-side nodes `ghosts`, which
    /// `ghost_edges` joins.
    pub fn add_fpga_operator(
        &mut self,
        wrapper: usize,
        ghosts: Vec<usize>,
        ghost_edges: Vec<(usize, usize)>,
    )
        ensures
            *final(self) == (SubgraphBuilder {
                wrapper_ghost: final(self).wrapper_ghost,
                ghost_wrapper: final(self).ghost_wrapper,
                wrapper_ghost_edges: final(self).wrapper_ghost_edges,
                ..*old(self)
            }),
            final(self).ghost_wrapper@ == all_sent(old(self).ghost_wrapper@, ghosts@, wrapper),
            final(self).wrapper_ghost@ == old(self).wrapper_ghost@.insert(wrapper, ghosts),
            final(self).wrapper_ghost_edges@ == old(self).wrapper_ghost_edges@.insert(
                wrapper,
                ghost_edges,
            ),
            old(self).wf() ==> final(self).wf(),
    {
        let ghost start = self.ghost_wrapper@;
        let mut i: usize = 0;
        assert(ghosts@.take(0) =~= Seq::<usize>::empty());
        while i < ghosts.len()
            invariant
                i <= ghosts@.len(),
                *self == (SubgraphBuilder { ghost_wrapper: self.ghost_wrapper, ..*old(self) }),
                self.ghost_wrapper@ == all_sent(start, ghosts@.take(i as int), wrapper),
            decreases ghosts@.len() - i,
        {
            self.ghost_wrapper.insert(ghosts[i], wrapper);
            assert(ghosts@.take(i + 1).drop_last() =~= ghosts@.take(i as int));
            i += 1;
        }
        assert(ghosts@.take(i as int) =~= ghosts@);
        self.wrapper_ghost.insert(wrapper, ghosts);
        self.wrapper_ghost_edges.insert(wrapper, ghost_edges);
    }

    /// The operators that stand for device-side nodes, in no particular order.
    pub fn wrapper_order(&self) -> (r: Vec<usize>)
        ensures
            is_order_of(r@, self.wrappers()),
    {
        key_order(&self.wrapper_ghost)
    }

    /// Whether each operator that stands for device-side nodes stands for at least one.
    pub open spec fn ghosts_present(&self) -> bool {
        forall|w: usize| #[trigger]
            self.wrapper_ghost@.contains_key(w) ==> self.wrapper_ghost@[w]@.len() > 0
    }

    /// Sorts the edges by whether they touch an operator that stands for device-side nodes:
    /// keeps those that do not, and finds where messages for such nodes come from and go to.
    fn split_edges(&mut self) -> (r: (Source, Target))
        ensures
            *final(self) == (SubgraphBuilder {
                ghost_edge_stash: final(self).ghost_edge_stash,
                ..*old(self)
            }),
            final(self).ghost_edge_stash@ == old(self).ghost_edge_stash@ + plain_edges(
                old(self).edge_stash@,
                old(self).wrappers(),
            ),
            r.0 == old(self).entry(),
            r.1 == old(self).exit(),
    {
        let ghost start = self.ghost_edge_stash@;
        let ghost edges = self.edge_stash@;
        let ghost wrappers = self.wrappers();
        let ghost keep = |e: (Source, Target)| is_plain(e, wrappers);
        let mut start_source = Source::new(0, 0);
        let mut end_target = Target::new(0, 0);
        let mut i: usize = 0;
        assert(start + edges.take(0).filter(keep) =~= start) by {
            reveal(Seq::filter);
        }
        while i < self.edge_stash.len()
            invariant
                i <= edges.len(),
                *self == (SubgraphBuilder {
                    ghost_edge_stash: self.ghost_edge_stash,
                    ..*old(self)
                }),
                edges == self.edge_stash@,
                wrappers == self.wrapper_ghost@.dom(),
                keep == (|e: (Source, Target)| is_plain(e, wrappers)),
                self.ghost_edge_stash@ == start + edges.take(i as int).filter(keep),
                start_source == entry_source(edges.take(i as int), wrappers),
                end_target == exit_target(edges.take(i as int), wrappers),
            decreases edges.len() - i,
        {
            let (source, target) = self.edge_stash[i];
            assert(edges.take(i + 1).drop_last() =~= edges.take(i as int));
            assert(edges.take(i + 1).last() == (source, target));
            assert(edges.take(i + 1).filter(keep) == if keep((source, target)) {
                edges.take(i as int).filter(keep).push((source, target))
            } else {
                edges.take(i as int).filter(keep)
            }) by {
                reveal(Seq::filter);
            }
            if self.wrapper_ghost.contains_key(&target.node) {
                start_source = source;
            } else if self.wrapper_ghost.contains_key(&source.node) {
                end_target = target;
            } else {
                self.ghost_edge_stash.push((source, target));
                assert(self.ghost_edge_stash@ =~= start + edges.take(i + 1).filter(keep));
            }
            i += 1;
        }
        assert(edges.take(i as int) =~= edges);
        (start_source, end_target)
    }

    /// Adds the bridge of the operator `wrapper`, and joins its edges to those around it.
    fn add_bridge(&mut self, wrapper: usize, entry: Source, exit: Target)
        requires
            old(self).wrapper_ghost@.contains_key(wrapper),
            old(self).wrapper_ghost@[wrapper]@.len() > 0,
            old(self).wrapper_ghost_edges@.contains_key(wrapper),
        ensures
            *final(self) == (SubgraphBuilder {
                ghost_edge_stash: final(self).ghost_edge_stash,
                wrapper_ghost_edges: final(self).wrapper_ghost_edges,
                ..*old(self)
            }),
            final(self).ghost_edge_stash@ == old(self).ghost_edge_stash@ + bridge(
                old(self).wrapper_ghost@[wrapper]@,
                old(self).wrapper_ghost_edges@[wrapper]@,
                entry,
                exit,
            ),
            edge_lists(final(self).wrapper_ghost_edges@) == edge_lists(
                old(self).wrapper_ghost_edges@,
            ).insert(
                wrapper,
                joined(
                    old(self).wrapper_ghost@[wrapper]@,
                    old(self).wrapper_ghost_edges@[wrapper]@,
                    entry,
                    exit,
                ),
            ),
    {
        let ghost nodes = self.wrapper_ghost@[wrapper]@;
        let ghost lists = self.wrapper_ghost_edges@;
        let ghost inner = self.wrapper_ghost_edges@[wrapper]@;
        let ghost stash = self.ghost_edge_stash@;
        let (first, last): (usize, usize) = match self.wrapper_ghost.get(&wrapper) {
            Some(ghosts) => (ghosts[0], ghosts[ghosts.len() - 1]),
            None => (0, 0),
        };
        let start_target = Target::new(first, 0);
        let end_source = Source::new(last, 0);
        self.ghost_edge_stash.push((entry, start_target));
        self.ghost_edge_stash.push((end_source, exit));
        let ghost ends = seq![(entry, start_target), (end_source, exit)];
        match self.wrapper_ghost_edges.remove(&wrapper) {
            Some(mut edges) => {
                let mut i: usize = 0;
                assert(self.ghost_edge_stash@ =~= stash + (ends + inner_edges(inner.take(0))));
                while i < edges.len()
                    invariant
                        i <= edges@.len(),
                        edges@ == inner,
                        *self == (SubgraphBuilder {
                            ghost_edge_stash: self.ghost_edge_stash,
                            wrapper_ghost_edges: self.wrapper_ghost_edges,
                            ..*old(self)
                        }),
                        self.wrapper_ghost_edges@ == lists.remove(wrapper),
                        self.ghost_edge_stash@ == stash + (ends + inner_edges(
                            inner.take(i as int),
                        )),
                    decreases edges@.len() - i,
                {
                    let edge: (usize, usize) = edges[i];
                    let source = Source::new(edge.0, 0);
                    let target = Target::new(edge.1, 0);
                    self.ghost_edge_stash.push((source, target));
                    assert(self.ghost_edge_stash@ =~= stash + (ends + inner_edges(
                        inner.take(i + 1),
                    )));
                    i += 1;
                }
                assert(inner.take(i as int) =~= inner);
                edges.push((entry.node, start_target.node));
                edges.push((end_source.node, exit.node));
                self.wrapper_ghost_edges.insert(wrapper, edges);
                assert(edge_lists(self.wrapper_ghost_edges@) =~= edge_lists(lists).insert(
                    wrapper,
                    edges@,
                ));
            },
            None => {},
        }
    }

    /// Puts device-side nodes in the places of the operators that stand for them, these taken
    /// in `order`.
    pub fn reorganize_edges_in(&mut self, order: &Vec<usize>)
        requires
            old(self).wf(),
            old(self).ghosts_present(),
            is_order_of(order@, old(self).wrappers()),
        ensures
            final(self).wf(),
            *final(self) == (SubgraphBuilder {
                ghost_edge_stash: final(self).ghost_edge_stash,
                wrapper_ghost_edges: final(self).wrapper_ghost_edges,
                ..*old(self)
            }),
            final(self).ghost_edge_stash@ == old(self).tracked_edges(order@),
            edge_lists(final(self).wrapper_ghost_edges@) == old(self).joined_edges(),
    {
        let ghost wrappers = self.wrappers();
        let ghost ghosts = node_lists(self.wrapper_ghost@);
        let ghost inner = edge_lists(self.wrapper_ghost_edges@);
        let (entry, exit) = self.split_edges();
        let ghost stash = self.ghost_edge_stash@;
        let mut i: usize = 0;
        assert(stash + bridges(order@.take(0), ghosts, inner, entry, exit) =~= stash);
        proof {
            assert(order@.take(0).to_set() =~= Set::empty());
            assert(inner =~= all_joined(order@.take(0).to_set(), ghosts, inner, entry, exit));
        }
        while i < order.len()
            invariant
                i <= order@.len(),
                is_order_of(order@, wrappers),
                *self == (SubgraphBuilder {
                    ghost_edge_stash: self.ghost_edge_stash,
                    wrapper_ghost_edges: self.wrapper_ghost_edges,
                    ..*old(self)
                }),
                wrappers == self.wrapper_ghost@.dom(),
                ghosts == node_lists(self.wrapper_ghost@),
                old(self).wf(),
                self.ghosts_present(),
                inner == edge_lists(old(self).wrapper_ghost_edges@),
                self.ghost_edge_stash@ == stash + bridges(
                    order@.take(i as int),
                    ghosts,
                    inner,
                    entry,
                    exit,
                ),
                edge_lists(self.wrapper_ghost_edges@) == all_joined(
                    order@.take(i as int).to_set(),
                    ghosts,
                    inner,
                    entry,
                    exit,
                ),
            decreases order@.len() - i,
        {
            let w: usize = order[i];
            let ghost done = order@.take(i as int);
            let ghost lists = edge_lists(self.wrapper_ghost_edges@);
            proof {
                assert(order@.to_set().contains(w));
                assert(inner.contains_key(w));
                assert(lists.contains_key(w));
                assert(!done.to_set().contains(w)) by {
                    if done.contains(w) {
                        let k = done.index_of(w);
                        assert(order@[k] == order@[i as int]);
                    }
                }
                assert(lists[w] == inner[w]);
                assert(ghosts[w] == self.wrapper_ghost@[w]@);
                assert(order@.take(i + 1).drop_last() =~= done);
            }
            self.add_bridge(w, entry, exit);
            proof {
                assert(order@.take(i + 1) =~= done.push(w));
                assert forall|x: usize|
                    order@.take(i + 1).to_set().contains(x) <==> (done.to_set().contains(x) || x
                        == w) by {
                    if done.contains(x) {
                        let k = done.index_of(x);
                        assert(order@.take(i + 1)[k] == x);
                    }
                    if x == w {
                        assert(order@.take(i + 1)[i as int] == x);
                    }
                    if order@.take(i + 1).contains(x) && x != w {
                        let k = order@.take(i + 1).index_of(x);
                        assert(done[k] == x);
                    }
                }
                assert(edge_lists(self.wrapper_ghost_edges@) =~= all_joined(
                    order@.take(i + 1).to_set(),
                    ghosts,
                    inner,
                    entry,
                    exit,
                ));
                assert(self.ghost_edge_stash@ =~= stash + bridges(
                    order@.take(i + 1),
                    ghosts,
                    inner,
                    entry,
                    exit,
                ));
            }
            i += 1;
        }
        proof {
            assert(order@.take(i as int) =~= order@);
            assert forall|w: usize| #[trigger]
                self.wrapper_ghost@.contains_key(
                    w,
                ) implies self.wrapper_ghost_edges@.contains_key(w) by {
                assert(inner.contains_key(w));
                assert(edge_lists(self.wrapper_ghost_edges@).contains_key(w));
            }
        }
    }

    /// Puts device-side nodes in the places of the operators that stand for them. The order
    /// in which these operators are taken is that of a hash map.
    pub fn reorganize_edges(&mut self)
        requires
            old(self).wf(),
            old(self).ghosts_present(),
        ensures
            final(self).wf(),
            *final(self) == (SubgraphBuilder {
                ghost_edge_stash: final(self).ghost_edge_stash,
                wrapper_ghost_edges: final(self).wrapper_ghost_edges,
                ..*old(self)
            }),
            exists|order: Seq<usize>| #[trigger]
                is_order_of(order, old(self).wrappers()) && final(self).ghost_edge_stash@ == old(
                    self,
                ).tracked_edges(order),
            edge_lists(final(self).wrapper_ghost_edges@) == old(self).joined_edges(),
    {
        let order = self.wrapper_order();
        self.reorganize_edges_in(&order);
    }
}

/// Each device-side node named is sent to the operator that stands for it, and no other node is
/// sent elsewhere than before.
pub proof fn law_nodes_sent(m: Map<usize, usize>, keys: Seq<usize>, value: usize, node: usize)
    ensures
        all_sent(m, keys, value).contains_key(node) <==> m.contains_key(node) || keys.contains(node),
        keys.contains(node) ==> all_sent(m, keys, value)[node] == value,
        !keys.contains(node) && m.contains_key(node) ==> all_sent(m, keys, value)[node] == m[node],
    decreases keys.len(),
{
    if keys.len() > 0 {
        let before = keys.drop_last();
        law_nodes_sent(m, before, value, node);
        assert(keys[keys.len() - 1] == keys.last());
        if keys.contains(node) && node != keys.last() {
            let k = keys.index_of(node);
            assert(before[k] == node);
        }
        if before.contains(node) {
            let k = before.index_of(node);
            assert(keys[k] == node);
        }
    }
}

/// An edge stays as it is exactly where neither of its ends is an operator that stands for
/// device-side nodes.
pub proof fn law_plain_edges_stay(
    edges: Seq<(Source, Target)>,
    wrappers: Set<usize>,
    edge: (Source, Target),
)
    ensures
        plain_edges(edges, wrappers).to_multiset().count(edge) == (if wrappers.contains(edge.0.node)
            || wrappers.contains(edge.1.node) {
            0
        } else {
            edges.to_multiset().count(edge)
        }),
    decreases edges.len(),
{
    let keep = |e: (Source, Target)| is_plain(e, wrappers);
    reveal(Seq::filter);
    if edges.len() > 0 {
        let before = edges.drop_last();
        law_plain_edges_stay(before, wrappers, edge);
        lemma_count_ends(edges, edge);
        if keep(edges.last()) {
            assert(edges.filter(keep).drop_last() =~= before.filter(keep));
            lemma_count_ends(edges.filter(keep), edge);
        }
    } else {
        lemma_count_small(edge, edge);
        assert(edges =~= Seq::<(Source, Target)>::empty());
        assert(edges.filter(keep) =~= Seq::<(Source, Target)>::empty());
    }
}

/// What device-side nodes take in comes from where the last edge into an operator that stands for
/// such nodes comes from; it is the first input of the scope where there is none.
pub proof fn law_entry_is_last(edges: Seq<(Source, Target)>, wrappers: Set<usize>, k: int)
    ensures
        0 <= k < edges.len() && wrappers.contains(edges[k].1.node) && (forall|j: int|
            k < j < edges.len() ==> !wrappers.contains((#[trigger] edges[j]).1.node))
            ==> entry_source(edges, wrappers) == edges[k].0,
        (forall|j: int| 0 <= j < edges.len() ==> !wrappers.contains((#[trigger] edges[j]).1.node))
            ==> entry_source(edges, wrappers) == (Source { node: 0, port: 0 }),
    decreases edges.len(),
{
    if edges.len() > 0 {
        let before = edges.drop_last();
        law_entry_is_last(before, wrappers, k);
        let last = edges[edges.len() - 1];
        assert(last == edges.last());
        assert(forall|j: int| 0 <= j < before.len() ==> #[trigger] before[j] == edges[j]);
    }
}

/// What device-side nodes send out goes to where the last edge leads that leaves an operator that
/// stands for such nodes, other than to another one; it is the first output of the scope where
/// there is none.
pub proof fn law_exit_is_last(edges: Seq<(Source, Target)>, wrappers: Set<usize>, k: int)
    ensures
        0 <= k < edges.len() && wrappers.contains(edges[k].0.node) && !wrappers.contains(
            edges[k].1.node,
        ) && (forall|j: int|
            k < j < edges.len() ==> !wrappers.contains((#[trigger] edges[j]).0.node)
                || wrappers.contains(edges[j].1.node)) ==> exit_target(edges, wrappers)
            == edges[k].1,
        (forall|j: int|
            0 <= j < edges.len() ==> !wrappers.contains((#[trigger] edges[j]).0.node)
                || wrappers.contains(edges[j].1.node)) ==> exit_target(edges, wrappers) == (
        Target { node: 0, port: 0 }),
    decreases edges.len(),
{
    if edges.len() > 0 {
        let before = edges.drop_last();
        law_exit_is_last(before, wrappers, k);
        let last = edges[edges.len() - 1];
        assert(last == edges.last());
        assert(forall|j: int| 0 <= j < before.len() ==> #[trigger] before[j] == edges[j]);
    }
}

/// How often the chain of device-side nodes `ghosts`, put between `entry` and `exit`, has `edge`.
pub open spec fn times_bridged(
    ghosts: Seq<usize>,
    inner: Seq<(usize, usize)>,
    entry: Source,
    exit: Target,
    edge: (Source, Target),
) -> int {
    (if edge.0 == entry && edge.1.node == ghosts[0] && edge.1.port == 0 {
        1int
    } else {
        0
    }) + (if edge.0.node == ghosts[ghosts.len() - 1] && edge.0.port == 0 && edge.1 == exit {
        1int
    } else {
        0
    }) + (if edge.0.port == 0 && edge.1.port == 0 {
        inner.to_multiset().count((edge.0.node, edge.1.node)) as int
    } else {
        0
    })
}

proof fn lemma_inner_count(inner: Seq<(usize, usize)>, edge: (Source, Target))
    ensures
        inner_edges(inner).to_multiset().count(edge) == (if edge.0.port == 0 && edge.1.port == 0 {
            inner.to_multiset().count((edge.0.node, edge.1.node))
        } else {
            0
        }),
    decreases inner.len(),
{
    let pair = (edge.0.node, edge.1.node);
    if inner.len() > 0 {
        lemma_inner_count(inner.drop_last(), edge);
        assert(inner_edges(inner).drop_last() =~= inner_edges(inner.drop_last()));
        assert(inner_edges(inner).last() == (
            Source { node: inner.last().0, port: 0 },
            Target { node: inner.last().1, port: 0 },
        ));
        lemma_count_ends(inner_edges(inner), edge);
        lemma_count_ends(inner, pair);
    } else {
        lemma_count_small(edge, edge);
        lemma_count_small(pair, pair);
        assert(inner_edges(inner) =~= Seq::<(Source, Target)>::empty());
        assert(inner =~= Seq::<(usize, usize)>::empty());
    }
}

/// In place of each operator that stands for device-side nodes stand these nodes: an edge leads
/// from `entry` to the first of them, one from the last to `exit`, and one along each edge between
/// them. There are no other edges.
pub proof fn law_nodes_bridged(
    order: Seq<usize>,
    ghosts: Map<usize, Seq<usize>>,
    inner: Map<usize, Seq<(usize, usize)>>,
    entry: Source,
    exit: Target,
    edge: (Source, Target),
)
    requires
        forall|k: int| 0 <= k < order.len() ==> ghosts[#[trigger] order[k]].len() > 0,
    ensures
        bridges(order, ghosts, inner, entry, exit).to_multiset().count(edge) == sum_over(
            order.len(),
            |k: int| times_bridged(ghosts[order[k]], inner[order[k]], entry, exit, edge),
        ),
    decreases order.len(),
{
    let f = |k: int| times_bridged(ghosts[order[k]], inner[order[k]], entry, exit, edge);
    lemma_count_small(edge, edge);
    if order.len() > 0 {
        let before = order.drop_last();
        let w = order.last();
        assert(order[order.len() - 1] == w);
        assert forall|k: int| 0 <= k < before.len() implies ghosts[#[trigger] before[k]].len()
            > 0 by {
            assert(before[k] == order[k]);
        }
        law_nodes_bridged(before, ghosts, inner, entry, exit, edge);
        let g = |k: int| times_bridged(ghosts[before[k]], inner[before[k]], entry, exit, edge);
        assert forall|k: int| 0 <= k < before.len() implies #[trigger] g(k) == f(k) by {
            assert(before[k] == order[k]);
        }
        lemma_sum_same(before.len(), g, f);
        let a = (entry, Target { node: ghosts[w][0], port: 0 });
        let b = (Source { node: ghosts[w].last(), port: 0 }, exit);
        let own = bridge(ghosts[w], inner[w], entry, exit);
        lemma_count_join(bridges(before, ghosts, inner, entry, exit), own, edge);
        lemma_count_join(seq![a, b], inner_edges(inner[w]), edge);
        lemma_count_join(seq![a], seq![b], edge);
        assert(seq![a] + seq![b] =~= seq![a, b]);
        lemma_count_small(a, edge);
        lemma_count_small(b, edge);
        lemma_inner_count(inner[w], edge);
        assert(f(order.len() - 1) == times_bridged(ghosts[w], inner[w], entry, exit, edge));
    } else {
        assert(bridges(order, ghosts, inner, entry, exit) =~= Seq::<(Source, Target)>::empty());
    }
}

/// Progress is tracked along each edge between operators that stand for nothing, along a chain
/// through the device-side nodes in place of each other operator, and along nothing else: no edge
/// is lost and none is made up.
pub proof fn law_edges_tracked<TOuter: Timestamp, TInner: Refines<TOuter>>(
    builder: &SubgraphBuilder<TOuter, TInner>,
    order: Seq<usize>,
    edge: (Source, Target),
)
    requires
        builder.wf(),
        builder.ghosts_present(),
        is_order_of(order, builder.wrapper_ghost@.dom()),
    ensures
        builder.tracked_edges(order).to_multiset().count(edge)
            == builder.ghost_edge_stash@.to_multiset().count(edge) + (
        if builder.wrapper_ghost@.contains_key(edge.0.node) || builder.wrapper_ghost@.contains_key(
            edge.1.node,
        ) {
            0
        } else {
            builder.edge_stash@.to_multiset().count(edge)
        }) + sum_over(
            order.len(),
            |k: int|
                times_bridged(
                    builder.wrapper_ghost@[order[k]]@,
                    builder.wrapper_ghost_edges@[order[k]]@,
                    builder.entry(),
                    builder.exit(),
                    edge,
                ),
        ),
{
    let ghosts = node_lists(builder.wrapper_ghost@);
    let inner = edge_lists(builder.wrapper_ghost_edges@);
    let plain = plain_edges(builder.edge_stash@, builder.wrappers());
    let bridging = bridges(order, ghosts, inner, builder.entry(), builder.exit());
    lemma_count_join(builder.ghost_edge_stash@ + plain, bridging, edge);
    lemma_count_join(builder.ghost_edge_stash@, plain, edge);
    law_plain_edges_stay(builder.edge_stash@, builder.wrappers(), edge);
    assert forall|k: int| 0 <= k < order.len() implies {
        &&& ghosts[#[trigger] order[k]] == builder.wrapper_ghost@[order[k]]@
        &&& inner[order[k]] == builder.wrapper_ghost_edges@[order[k]]@
        &&& ghosts[order[k]].len() > 0
    } by {
        assert(order.to_set().contains(order[k]));
        assert(builder.wrapper_ghost@.contains_key(order[k]));
    }
    law_nodes_bridged(order, ghosts, inner, builder.entry(), builder.exit(), edge);
    let f = |k: int|
        times_bridged(
            ghosts[order[k]],
            inner[order[k]],
            builder.entry(),
            builder.exit(),
            edge,
        );
    let g = |k: int|
        times_bridged(
            builder.wrapper_ghost@[order[k]]@,
            builder.wrapper_ghost_edges@[order[k]]@,
            builder.entry(),
            builder.exit(),
            edge,
        );
    assert forall|k: int| 0 <= k < order.len() implies #[trigger] f(k) == g(k) by {
        assert(ghosts[order[k]] == builder.wrapper_ghost@[order[k]]@);
    }
    lemma_sum_same(order.len(), f, g);
}

/// The edges between the device-side nodes of an operator are, afterwards, those of before, one
/// from where their data comes from to the first node, and one from the last node to where it
/// goes.
pub proof fn law_nodes_joined<TOuter: Timestamp, TInner: Refines<TOuter>>(
    builder: &SubgraphBuilder<TOuter, TInner>,
    w: usize,
    edge: (usize, usize),
)
    requires
        builder.wf(),
        builder.ghosts_present(),
        builder.wrapper_ghost_edges@.contains_key(w),
    ensures
        builder.joined_edges().dom() == builder.wrapper_ghost_edges@.dom(),
        builder.joined_edges()[w].to_multiset().count(edge)
            == builder.wrapper_ghost_edges@[w]@.to_multiset().count(edge) + (
        if builder.wrapper_ghost@.contains_key(w) {
            let ghosts = builder.wrapper_ghost@[w]@;
            (if edge.0 == builder.entry().node && edge.1 == ghosts[0] {
                1int
            } else {
                0
            }) + (if edge.0 == ghosts[ghosts.len() - 1] && edge.1 == builder.exit().node {
                1int
            } else {
                0
            })
        } else {
            0
        }),
{
    let inner = builder.wrapper_ghost_edges@[w]@;
    assert(builder.joined_edges().dom() =~= builder.wrapper_ghost_edges@.dom());
    if builder.wrapper_ghost@.contains_key(w) {
        let ghosts = builder.wrapper_ghost@[w]@;
        let a = (builder.entry().node, ghosts[0]);
        let b = (ghosts.last(), builder.exit().node);
        assert(inner.push(a).push(b).drop_last() =~= inner.push(a));
        assert(inner.push(a).drop_last() =~= inner);
        lemma_count_ends(inner.push(a).push(b), edge);
        lemma_count_ends(inner.push(a), edge);
        assert(builder.joined_edges()[w] == inner.push(a).push(b));
    }
}

} // verus!
