//! Turning a scope under construction into a scope at work.

use std::collections::HashMap;

use vstd::multiset::Multiset;
use vstd::prelude::*;

use crate::active::ActiveHeap;
use crate::change_batch::ChangeBatch;
use crate::location::{Pointstamp, Source, Target};
use crate::order::{Refines, Timestamp};
use crate::per_operator::{has_nodes, same_routes, PerOperatorState};
use crate::ports::{edges_ok, routes_ok, targets_ok};
use crate::reachability::{
    copy_summary, empty_summary, no_paths, summary_elements, NodeShape, Topology,
};
use crate::shared_progress::{nothing_reported, SharedProgress};
use crate::statements::route_targets;
use crate::subgraph::{count_set, law_flags_counted, lemma_some_set, set_count, Subgraph};
use crate::sums::{lemma_count_ends, lemma_count_small};
use crate::subgraph_builder::{
    bridge, bridges, edge_lists, entry_source, inner_edges, is_order_of, is_plain, node_lists,
    plain_edges, SubgraphBuilder,
};

verus! {

broadcast use vstd::std_specs::hash::group_hash_axioms;

/// The targets to which `edges` leads from `source`.
pub open spec fn targets_from(edges: Seq<(Source, Target)>, source: Source) -> Seq<Target>
    decreases edges.len(),
{
    if edges.len() == 0 {
        Seq::empty()
    } else {
        let before = targets_from(edges.drop_last(), source);
        if edges.last().0 == source {
            before.push(edges.last().1)
        } else {
            before
        }
    }
}

/// Whether `child` is `base`, with the targets that `edges` and `watched` lead to from each of
/// its outputs.
pub open spec fn routed<T: Timestamp>(
    child: PerOperatorState<T>,
    base: PerOperatorState<T>,
    edges: Seq<(Source, Target)>,
    watched: Seq<(Source, Target)>,
) -> bool {
    &&& child == (PerOperatorState { edges: child.edges, ghost_edges: child.ghost_edges, ..base })
    &&& child.edges@.len() == base.edges@.len()
    &&& child.ghost_edges@.len() == base.ghost_edges@.len()
    &&& forall|p: int|
        0 <= p < child.edges@.len() ==> (#[trigger] child.edges@[p])@ == base.edges@[p]@
            + targets_from(edges, Source { node: base.index, port: p as usize })
    &&& forall|p: int|
        0 <= p < child.ghost_edges@.len() ==> (#[trigger] child.ghost_edges@[p])@
            == base.ghost_edges@[p]@ + targets_from(
            watched,
            Source { node: base.index, port: p as usize },
        )
}

/// Whether `child` is the placeholder for the outside of a scope, with the targets that
/// `edges` and `watched` lead to from the inputs of the scope.
pub open spec fn outside<T: Timestamp>(
    child: PerOperatorState<T>,
    inputs: nat,
    outputs: nat,
    edges: Seq<(Source, Target)>,
    watched: Seq<(Source, Target)>,
) -> bool {
    &&& child.is_external(outputs, inputs)
    &&& child.edges@.len() == inputs
    &&& child.ghost_edges@.len() == inputs
    &&& forall|p: int|
        0 <= p < inputs ==> (#[trigger] child.edges@[p])@ == targets_from(
            edges,
            Source { node: 0, port: p as usize },
        )
    &&& forall|p: int|
        0 <= p < inputs ==> (#[trigger] child.ghost_edges@[p])@ == targets_from(
            watched,
            Source { node: 0, port: p as usize },
        )
}

/// A node of the graph to track.
pub struct NodeModel<S> {
    /// Index of the node within its scope.
    pub index: usize,
    /// Number of inputs.
    pub inputs: usize,
    /// Number of outputs.
    pub outputs: usize,
    /// By input and output, what the paths between them do to times.
    pub summary: Seq<Seq<Seq<S>>>,
}

/// What `nodes` hold.
pub open spec fn node_models<T: Timestamp>(nodes: Seq<NodeShape<T>>) -> Seq<NodeModel<T::Summary>> {
    nodes.map_values(
        |n: NodeShape<T>|
            NodeModel {
                index: n.index,
                inputs: n.inputs,
                outputs: n.outputs,
                summary: summary_elements(n.summary@),
            },
    )
}

/// The nodes to track, of the first `n` children: child zero, through which no path leads, and
/// each operator that does not stand for device-side nodes.
pub open spec fn tracked_nodes<T: Timestamp>(
    children: Seq<PerOperatorState<T>>,
    wrappers: Set<usize>,
    n: nat,
) -> Seq<NodeModel<T::Summary>>
    decreases n,
{
    if n == 0 {
        Seq::empty()
    } else {
        let before = tracked_nodes(children, wrappers, (n - 1) as nat);
        let child = children[n - 1];
        if n == 1 {
            before.push(
                NodeModel {
                    index: 0,
                    inputs: child.inputs,
                    outputs: child.outputs,
                    summary: no_paths::<T::Summary>(child.inputs as nat, child.outputs as nat),
                },
            )
        } else if wrappers.contains((n - 1) as usize) {
            before
        } else {
            before.push(
                NodeModel {
                    index: (n - 1) as usize,
                    inputs: child.inputs,
                    outputs: child.outputs,
                    summary: summary_elements(child.internal_summary@),
                },
            )
        }
    }
}

/// Whether the children have the indexes below their number, each one of them.
pub open spec fn sanely_indexed<T: Timestamp>(children: Seq<PerOperatorState<T>>) -> bool {
    &&& forall|k: int| 0 <= k < children.len() ==> (#[trigger] children[k]).index < children.len()
    &&& forall|j: int, k: int|
        0 <= j < k < children.len() ==> (#[trigger] children[j]).index != (
        #[trigger] children[k]).index
}

/// Each index below the number of children is that of a child.
proof fn lemma_indexed<T: Timestamp>(children: Seq<PerOperatorState<T>>, i: int)
    requires
        sanely_indexed(children),
        0 <= i < children.len(),
    ensures
        exists|k: int| 0 <= k < children.len() && (#[trigger] children[k]).index == i,
{
    let indexes = children.map_values(|c: PerOperatorState<T>| c.index as int);
    assert(indexes.no_duplicates()) by {
        assert forall|j: int, k: int|
            0 <= j < indexes.len() && 0 <= k < indexes.len() && j != k implies indexes[j]
            != indexes[k] by {
            if j < k {
                assert(children[j].index != children[k].index);
            } else {
                assert(children[k].index != children[j].index);
            }
        }
    }
    indexes.unique_seq_to_set();
    let range = vstd::set_lib::set_int_range(0, children.len() as int);
    vstd::set_lib::lemma_int_range(0, children.len() as int);
    assert(indexes.to_set().subset_of(range)) by {
        assert forall|x: int| indexes.to_set().contains(x) implies range.contains(x) by {
            assert(indexes.contains(x));
            let k = indexes.index_of(x);
            assert(children[k].index == x);
        }
    }
    vstd::seq_lib::seq_to_set_is_finite(indexes);
    vstd::set_lib::lemma_subset_equality(indexes.to_set(), range);
    assert(range.contains(i));
    assert(indexes.contains(i));
    let k = indexes.index_of(i);
    assert(children[k].index == i);
}

/// The children in the order of their indexes.
fn sorted_children<T: Timestamp>(children: Vec<PerOperatorState<T>>) -> (r: Vec<
    PerOperatorState<T>,
>)
    requires
        sanely_indexed(children@),
    ensures
        r@.len() == children@.len(),
        forall|k: int|
            0 <= k < children@.len() ==> r@[(#[trigger] children@[k]).index as int] == children@[k],
        forall|i: int| 0 <= i < r@.len() ==> (#[trigger] r@[i]).index == i,
        forall|i: int| 0 <= i < r@.len() ==> children@.contains(#[trigger] r@[i]),
{
    let ghost all = children@;
    let n: usize = children.len();
    let mut rest = children;
    let mut r: Vec<PerOperatorState<T>> = Vec::new();
    let mut i: usize = 0;
    assert forall|k: int| 0 <= k < all.len() implies rest@.contains(#[trigger] all[k]) by {
        assert(rest@[k] == all[k]);
    }
    while i < n
        invariant
            i <= n,
            n == all.len(),
            sanely_indexed(all),
            r@.len() == i,
            forall|j: int| 0 <= j < i ==> (#[trigger] r@[j]).index == j,
            forall|k: int|
                0 <= k < all.len() && (#[trigger] all[k]).index < i ==> r@[all[k].index as int]
                    == all[k],
            forall|k: int|
                0 <= k < all.len() && (#[trigger] all[k]).index >= i ==> rest@.contains(all[k]),
            forall|m: int| 0 <= m < rest@.len() ==> all.contains(#[trigger] rest@[m]),
            forall|m: int| 0 <= m < r@.len() ==> all.contains(#[trigger] r@[m]),
        decreases n - i,
    {
        proof {
            lemma_indexed(all, i as int);
        }
        let ghost here = choose|k: int| 0 <= k < all.len() && (#[trigger] all[k]).index == i;
        let ghost at = rest@.index_of(all[here]);
        let left: usize = rest.len();
        let mut p: usize = 0;
        assert(rest@.contains(all[here]));
        while rest[p].index != i
            invariant
                p <= at < rest@.len(),
                left == rest@.len(),
                rest@[at].index == i,
            decreases rest@.len() - p,
        {
            p += 1;
        }
        let ghost before = rest@;
        let child = rest.remove(p);
        proof {
            assert(all.contains(before[p as int]));
            let k0 = all.index_of(before[p as int]);
            assert(all[k0].index == i && all[here].index == i);
            assert(k0 == here);
            assert forall|k: int|
                0 <= k < all.len() && (#[trigger] all[k]).index >= i + 1 implies rest@.contains(
                all[k],
            ) by {
                assert(before.contains(all[k]));
                let m = before.index_of(all[k]);
                assert(m != p);
                if m < p {
                    assert(rest@[m] == all[k]);
                } else {
                    assert(rest@[m - 1] == all[k]);
                }
            }
            assert forall|m: int| 0 <= m < rest@.len() implies all.contains(
                #[trigger] rest@[m],
            ) by {
                if m < p {
                    assert(rest@[m] == before[m]);
                } else {
                    assert(rest@[m] == before[m + 1]);
                }
            }
        }
        let ghost earlier = r@;
        r.push(child);
        proof {
            assert forall|k: int|
                0 <= k < all.len() && (#[trigger] all[k]).index < i + 1 implies r@[all[k].index as int]
                == all[k] by {
                if all[k].index == i {
                    assert(k == here);
                } else {
                    assert(earlier[all[k].index as int] == all[k]);
                }
            }
        }
        i += 1;
    }
    r
}

/// Whether `source` is an output of one of `children`.
pub open spec fn is_output<T: Timestamp>(children: Seq<PerOperatorState<T>>, source: Source) -> bool {
    &&& source.node < children.len()
    &&& source.port < children[source.node as int].outputs
}

/// Adds the targets of those of `edges` that come from `node`, each to the output it comes from.
fn add_targets(routes: &mut Vec<Vec<Target>>, node: usize, edges: &Vec<(Source, Target)>)
    requires
        forall|k: int|
            0 <= k < edges@.len() && (#[trigger] edges@[k]).0.node == node ==> edges@[k].0.port < old(
                routes,
            )@.len(),
    ensures
        final(routes)@.len() == old(routes)@.len(),
        forall|p: int|
            0 <= p < old(routes)@.len() ==> (#[trigger] final(routes)@[p])@ == old(routes)@[p]@
                + targets_from(edges@, Source { node, port: p as usize }),
{
    let ghost start = routes@;
    let mut j: usize = 0;
    assert(edges@.take(0) =~= Seq::<(Source, Target)>::empty());
    assert forall|p: int| 0 <= p < start.len() implies (#[trigger] routes@[p])@ == start[p]@
        + targets_from(edges@.take(0), Source { node, port: p as usize }) by {
        assert(start[p]@ + Seq::<Target>::empty() =~= start[p]@);
    }
    assert(routes.len() == routes@.len());
    while j < edges.len()
        invariant
            j <= edges@.len(),
            routes@.len() == start.len(),
            start.len() <= usize::MAX,
            forall|k: int|
                0 <= k < edges@.len() && (#[trigger] edges@[k]).0.node == node
                    ==> edges@[k].0.port < start.len(),
            forall|p: int|
                0 <= p < start.len() ==> (#[trigger] routes@[p])@ == start[p]@ + targets_from(
                    edges@.take(j as int),
                    Source { node, port: p as usize },
                ),
        decreases edges@.len() - j,
    {
        let (source, target) = edges[j];
        let ghost before = routes@;
        assert(edges@[j as int].0 == source);
        if source.node == node {
            routes[source.port].push(target);
        }
        proof {
            assert(edges@.take(j + 1).drop_last() =~= edges@.take(j as int));
            assert(edges@.take(j + 1).last() == (source, target));
            assert forall|p: int| 0 <= p < start.len() implies (#[trigger] routes@[p])@ == start[p]@
                + targets_from(edges@.take(j + 1), Source { node, port: p as usize }) by {
                assert(before[p]@ == start[p]@ + targets_from(
                    edges@.take(j as int),
                    Source { node, port: p as usize },
                ));
                if source.node == node && p == source.port {
                    assert(routes@[p]@ =~= start[p]@ + targets_from(edges@.take(j + 1), source));
                } else {
                    assert(routes@[p]@ == before[p]@);
                }
            }
        }
        j += 1;
    }
    assert(edges@.take(j as int) =~= edges@);
}

/// Adds each of `edges` and `tracks` to the operator that it comes from: along the one messages
/// travel, along the other progress is tracked.
fn route_edges<T: Timestamp>(
    children: &mut Vec<PerOperatorState<T>>,
    edges: &Vec<(Source, Target)>,
    tracks: &Vec<(Source, Target)>,
)
    requires
        forall|k: int|
            0 <= k < edges@.len() ==> is_output(old(children)@, (#[trigger] edges@[k]).0),
        forall|k: int|
            0 <= k < tracks@.len() ==> is_output(old(children)@, (#[trigger] tracks@[k]).0),
        forall|i: int|
            0 <= i < old(children)@.len() ==> {
                &&& (#[trigger] old(children)@[i]).index == i
                &&& old(children)@[i].edges@.len() == old(children)@[i].outputs
                &&& old(children)@[i].ghost_edges@.len() == old(children)@[i].outputs
            },
    ensures
        final(children)@.len() == old(children)@.len(),
        forall|i: int|
            0 <= i < old(children)@.len() ==> routed(
                #[trigger] final(children)@[i],
                old(children)@[i],
                edges@,
                tracks@,
            ),
{
    let ghost start = children@;
    let mut i: usize = 0;
    while i < children.len()
        invariant
            i <= children@.len(),
            children@.len() == start.len(),
            forall|k: int| 0 <= k < edges@.len() ==> is_output(start, (#[trigger] edges@[k]).0),
            forall|k: int| 0 <= k < tracks@.len() ==> is_output(start, (#[trigger] tracks@[k]).0),
            forall|m: int|
                0 <= m < start.len() ==> {
                    &&& (#[trigger] start[m]).index == m
                    &&& start[m].edges@.len() == start[m].outputs
                    &&& start[m].ghost_edges@.len() == start[m].outputs
                },
            forall|m: int|
                0 <= m < i ==> routed(#[trigger] children@[m], start[m], edges@, tracks@),
            forall|m: int| i <= m < start.len() ==> #[trigger] children@[m] == start[m],
        decreases children@.len() - i,
    {
        let ghost before = children@;
        proof {
            assert(before[i as int] == start[i as int]);
            assert forall|k: int|
                0 <= k < edges@.len() && (#[trigger] edges@[k]).0.node == i implies edges@[k].0.port
                < start[i as int].edges@.len() by {
                assert(is_output(start, edges@[k].0));
            }
            assert forall|k: int|
                0 <= k < tracks@.len() && (
                #[trigger] tracks@[k]).0.node == i implies tracks@[k].0.port
                < start[i as int].ghost_edges@.len() by {
                assert(is_output(start, tracks@[k].0));
            }
        }
        add_targets(&mut children[i].edges, i, edges);
        add_targets(&mut children[i].ghost_edges, i, tracks);
        proof {
            assert(routed(children@[i as int], start[i as int], edges@, tracks@));
            assert forall|m: int| 0 <= m < i implies routed(
                #[trigger] children@[m],
                start[m],
                edges@,
                tracks@,
            ) by {
                assert(children@[m] == before[m]);
            }
            assert forall|m: int| i + 1 <= m < start.len() implies #[trigger] children@[m]
                == start[m] by {
                assert(children@[m] == before[m]);
            }
        }
        i += 1;
    }
}

/// The nodes to track.
fn shape_nodes<T: Timestamp>(
    children: &Vec<PerOperatorState<T>>,
    wrapper_ghost: &HashMap<usize, Vec<usize>>,
) -> (r: Vec<NodeShape<T>>)
    requires
        children@.len() >= 1,
    ensures
        node_models(r@) == tracked_nodes(children@, wrapper_ghost@.dom(), children@.len()),
{
    let mut r: Vec<NodeShape<T>> = Vec::new();
    r.push(
        NodeShape {
            index: 0,
            inputs: children[0].inputs,
            outputs: children[0].outputs,
            summary: empty_summary(children[0].inputs, children[0].outputs),
        },
    );
    let mut i: usize = 1;
    proof {
        reveal_with_fuel(tracked_nodes, 2);
        assert(node_models(r@) =~= tracked_nodes(children@, wrapper_ghost@.dom(), 1));
    }
    while i < children.len()
        invariant
            1 <= i <= children@.len(),
            node_models(r@) == tracked_nodes(children@, wrapper_ghost@.dom(), i as nat),
        decreases children@.len() - i,
    {
        let ghost before = r@;
        if !wrapper_ghost.contains_key(&i) {
            r.push(
                NodeShape {
                    index: i,
                    inputs: children[i].inputs,
                    outputs: children[i].outputs,
                    summary: copy_summary(&children[i].internal_summary),
                },
            );
        }
        proof {
            assert(node_models(r@) =~= tracked_nodes(
                children@,
                wrapper_ghost@.dom(),
                (i + 1) as nat,
            ));
        }
        i += 1;
    }
    r
}

/// Whether progress is told at once: unless the mode asks to do so on demand.
pub open spec fn eager_mode(progress_mode: Option<Seq<char>>) -> bool {
    progress_mode != Some("DEMAND"@)
}

/// What a mode says.
pub open spec fn mode_text(progress_mode: Option<String>) -> Option<Seq<char>> {
    match progress_mode {
        Some(mode) => Some(mode@),
        None => None,
    }
}

/// Whether progress is told at once: unless the mode asks to do so on demand.
pub fn sends_eagerly(progress_mode: &Option<String>) -> (r: bool)
    ensures
        r == eager_mode(mode_text(*progress_mode)),
{
    match progress_mode {
        Some(mode) => {
            let on_demand = "DEMAND".to_string();
            !(*mode == on_demand)
        },
        None => true,
    }
}

/// Each bridge starts at an output that the scope has.
proof fn lemma_bridges_from<TOuter: Timestamp, TInner: Refines<TOuter>>(
    builder: &SubgraphBuilder<TOuter, TInner>,
    order: Seq<usize>,
)
    requires
        builder.buildable(),
        order.to_set().subset_of(builder.wrappers()),
    ensures
        forall|k: int|
            0 <= k < bridges(
                order,
                node_lists(builder.wrapper_ghost@),
                edge_lists(builder.wrapper_ghost_edges@),
                builder.entry(),
                builder.exit(),
            ).len() ==> builder.source_ok(
                (#[trigger] bridges(
                    order,
                    node_lists(builder.wrapper_ghost@),
                    edge_lists(builder.wrapper_ghost_edges@),
                    builder.entry(),
                    builder.exit(),
                )[k]).0,
            ),
    decreases order.len(),
{
    let ghosts = node_lists(builder.wrapper_ghost@);
    let inner = edge_lists(builder.wrapper_ghost_edges@);
    let (entry, exit) = (builder.entry(), builder.exit());
    if order.len() > 0 {
        let before = order.drop_last();
        let w = order.last();
        assert(order.contains(w)) by {
            assert(order[order.len() - 1] == w);
        }
        assert(order.to_set().contains(w));
        assert(before.to_set().subset_of(builder.wrappers())) by {
            assert forall|x: usize| before.to_set().contains(x) implies builder.wrappers().contains(
                x,
            ) by {
                let k = before.index_of(x);
                assert(order[k] == x);
                assert(order.to_set().contains(x));
            }
        }
        lemma_bridges_from(builder, before);
        let all = bridges(order, ghosts, inner, entry, exit);
        let first = bridges(before, ghosts, inner, entry, exit);
        let own = bridge(ghosts[w], inner[w], entry, exit);
        assert(builder.wrapper_ghost@.contains_key(w));
        assert forall|k: int| 0 <= k < all.len() implies builder.source_ok(
            (#[trigger] all[k]).0,
        ) by {
            if k < first.len() {
                assert(all[k] == first[k]);
            } else {
                let m = k - first.len();
                assert(all[k] == own[m]);
                if m >= 2 {
                    assert(own[m] == inner_edges(inner[w])[m - 2]);
                    assert(own[m].0.node == builder.wrapper_ghost_edges@[w]@[m - 2].0);
                }
            }
        }
    }
}

impl<TOuter: Timestamp, TInner: Refines<TOuter>> SubgraphBuilder<TOuter, TInner> {
    /// Whether `source` is an input of the scope or an output of one of its operators.
    pub open spec fn source_ok(&self, source: Source) -> bool {
        &&& source.node < self.children@.len()
        &&& source.node == 0 ==> source.port < self.input_messages@.len()
        &&& source.node != 0 ==> forall|k: int|
            0 <= k < self.children@.len() && (#[trigger] self.children@[k]).index == source.node
                ==> source.port < self.children@[k].outputs
    }

    /// Whether the scope can be put to work: its operators have the indexes below their number,
    /// each operator that stands for device-side nodes stands for one at least, and each edge
    /// starts at an output that is there.
    pub open spec fn buildable(&self) -> bool {
        &&& self.wf()
        &&& self.ghosts_present()
        &&& sanely_indexed(self.children@)
        &&& forall|k: int|
            0 <= k < self.edge_stash@.len() ==> self.source_ok((#[trigger] self.edge_stash@[k]).0)
        &&& forall|k: int|
            0 <= k < self.ghost_edge_stash@.len() ==> self.source_ok(
                (#[trigger] self.ghost_edge_stash@[k]).0,
            )
        &&& forall|w: usize| #[trigger]
            self.wrapper_ghost@.contains_key(w) ==> {
                &&& self.source_ok(self.entry())
                &&& self.source_ok(Source { node: self.wrapper_ghost@[w]@.last(), port: 0 })
                &&& forall|k: int|
                    0 <= k < self.wrapper_ghost_edges@[w]@.len() ==> self.source_ok(
                        Source {
                            node: (#[trigger] self.wrapper_ghost_edges@[w]@[k]).0,
                            port: 0,
                        },
                    )
            }
    }

    /// Each edge along which progress is tracked starts at an output that the scope has.
    proof fn lemma_sources(&self, order: Seq<usize>)
        requires
            self.buildable(),
            is_order_of(order, self.wrappers()),
        ensures
            forall|k: int|
                0 <= k < self.tracked_edges(order).len() ==> self.source_ok(
                    (#[trigger] self.tracked_edges(order)[k]).0,
                ),
    {
        lemma_bridges_from(self, order);
        let stash = self.ghost_edge_stash@;
        let plain = plain_edges(self.edge_stash@, self.wrappers());
        let bridging = bridges(
            order,
            node_lists(self.wrapper_ghost@),
            edge_lists(self.wrapper_ghost_edges@),
            self.entry(),
            self.exit(),
        );
        let all = self.tracked_edges(order);
        assert forall|k: int| 0 <= k < all.len() implies self.source_ok((#[trigger] all[k]).0) by {
            if k < stash.len() {
                assert(all[k] == stash[k]);
            } else if k < stash.len() + plain.len() {
                assert(all[k] == plain[k - stash.len()]);
                assert(plain.contains(all[k]));
                let keep = |e: (Source, Target)| is_plain(e, self.wrappers());
                self.edge_stash@.lemma_filter_contains_rev(keep, all[k]);
                let m = self.edge_stash@.index_of(all[k]);
                assert(self.edge_stash@[m] == all[k]);
            } else {
                assert(all[k] == bridging[k - stash.len() - plain.len()]);
            }
        }
    }

    /// Whether the scope `g` and the graph to track `t` are what the builder describes, where
    /// `order` is that in which operators that stand for device-side nodes are taken.
    pub open spec fn built(
        &self,
        order: Seq<usize>,
        progress_mode: Option<Seq<char>>,
        g: &Subgraph<TOuter, TInner>,
        t: &Topology<TInner>,
    ) -> bool {
        &&& g.name == self.name
        &&& g.path == self.path
        &&& g.inputs == self.input_messages@.len()
        &&& g.outputs == self.output_capabilities@.len()
        &&& g.children@.len() == self.children@.len()
        &&& outside(
            g.children@[0],
            self.input_messages@.len(),
            self.output_capabilities@.len(),
            self.edge_stash@,
            self.tracked_edges(order),
        )
        &&& forall|k: int|
            0 <= k < self.children@.len() && (#[trigger] self.children@[k]).index != 0 ==> routed(
                g.children@[self.children@[k].index as int],
                self.children@[k],
                self.edge_stash@,
                self.tracked_edges(order),
            )
        &&& g.incomplete@ == Seq::new(
            self.children@.len(),
            |i: int| i != 0 && g.children@[i].count_for_incomplete,
        )
        &&& g.incomplete_count == set_count(g.incomplete@)
        &&& g.temp_active@ == Multiset::<usize>::empty()
        &&& g.input_messages == self.input_messages
        &&& g.output_capabilities == self.output_capabilities
        &&& g.local_pointstamp@ == Seq::<(Pointstamp<TInner>, i64)>::empty()
        &&& g.final_pointstamp@ == Seq::<(Pointstamp<TInner>, i64)>::empty()
        &&& g.shared_progress@ == nothing_reported::<TOuter>(
            self.input_messages@.len(),
            self.output_capabilities@.len(),
        )
        &&& g.eager_progress_send == eager_mode(progress_mode)
        &&& g.wrapper_ghost == self.wrapper_ghost
        &&& g.ghost_wrapper == self.ghost_wrapper
        &&& edge_lists(g.wrapper_ghost_edges@) == self.joined_edges()
        &&& node_models(t.nodes@) == tracked_nodes(
            g.children@,
            self.wrappers(),
            self.children@.len(),
        )
        &&& t.edges@ == self.tracked_edges(order)
    }

    /// Whether each child is incomplete at first.
    fn initial_incomplete(children: &Vec<PerOperatorState<TInner>>) -> (r: Vec<bool>)
        ensures
            r@ == Seq::new(
                children@.len(),
                |i: int| i != 0 && children@[i].count_for_incomplete,
            ),
    {
        let mut r: Vec<bool> = Vec::new();
        let mut i: usize = 0;
        while i < children.len()
            invariant
                i <= children@.len(),
                r@.len() == i,
                forall|k: int|
                    0 <= k < i ==> #[trigger] r@[k] == (k != 0
                        && children@[k].count_for_incomplete),
            decreases children@.len() - i,
        {
            r.push(i != 0 && children[i].count_for_incomplete);
            i += 1;
        }
        assert(r@ =~= Seq::new(
            children@.len(),
            |i: int| i != 0 && children@[i].count_for_incomplete,
        ));
        r
    }

    /// Puts the scope to work, the operators that stand for device-side nodes taken in `order`.
    /// Returns the scope, which is to be scheduled at once, and the graph to track.
    pub fn build_in(self, order: &Vec<usize>, progress_mode: Option<String>) -> (r: (
        Subgraph<TOuter, TInner>,
        Topology<TInner>,
    ))
        requires
            self.buildable(),
            is_order_of(order@, self.wrappers()),
        ensures
            self.built(order@, mode_text(progress_mode), &r.0, &r.1),
    {
        let ghost start = self;
        proof {
            self.lemma_sources(order@);
            lemma_indexed(self.children@, 0);
        }
        let mut this = self;
        let inputs: usize = this.input_messages.len();
        let outputs: usize = this.output_capabilities.len();
        this.reorganize_edges_in(order);
        let mut children = sorted_children(this.children);
        children.set(0, PerOperatorState::empty(outputs, inputs));
        let ghost base = children@;
        proof {
            assert forall|k: int|
                0 <= k < start.children@.len() && (
                #[trigger] start.children@[k]).index != 0 implies base[start.children@[k].index as int]
                == start.children@[k] by {}
            assert forall|i: int| 0 <= i < base.len() implies {
                &&& (#[trigger] base[i]).index == i
                &&& base[i].edges@.len() == base[i].outputs
                &&& base[i].ghost_edges@.len() == base[i].outputs
            } by {
                if i != 0 {
                    lemma_indexed(start.children@, i);
                    let k = choose|k: int|
                        0 <= k < start.children@.len() && (#[trigger] start.children@[k]).index
                            == i;
                    assert(base[i] == start.children@[k]);
                }
            }
            assert forall|s: Source| #[trigger] start.source_ok(s) implies is_output(base, s) by {
                if s.node != 0 {
                    lemma_indexed(start.children@, s.node as int);
                    let k = choose|k: int|
                        0 <= k < start.children@.len() && (#[trigger] start.children@[k]).index
                            == s.node;
                    assert(base[s.node as int] == start.children@[k]);
                }
            }
            assert forall|k: int| 0 <= k < start.edge_stash@.len() implies is_output(
                base,
                (#[trigger] start.edge_stash@[k]).0,
            ) by {
                assert(start.source_ok(start.edge_stash@[k].0));
            }
            assert forall|k: int| 0 <= k < this.ghost_edge_stash@.len() implies is_output(
                base,
                (#[trigger] this.ghost_edge_stash@[k]).0,
            ) by {
                assert(start.source_ok(start.tracked_edges(order@)[k].0));
            }
        }
        route_edges(&mut children, &this.edge_stash, &this.ghost_edge_stash);
        let nodes = shape_nodes(&children, &this.wrapper_ghost);
        let incomplete = Self::initial_incomplete(&children);
        let incomplete_count: usize = count_set(&incomplete);
        proof {
            let tracks = start.tracked_edges(order@);
            assert(routed(children@[0], base[0], start.edge_stash@, tracks));
            assert forall|p: int| 0 <= p < inputs implies (#[trigger] children@[0].edges@[p])@
                == targets_from(start.edge_stash@, Source { node: 0, port: p as usize }) by {
                assert(route_targets(base[0].edges@)[p] == same_routes(
                    Seq::empty(),
                    inputs as nat,
                )[p]);
                assert(base[0].edges@[p]@ =~= Seq::<Target>::empty());
                assert(children@[0].edges@[p]@ =~= targets_from(
                    start.edge_stash@,
                    Source { node: 0, port: p as usize },
                ));
            }
            assert forall|p: int| 0 <= p < inputs implies (#[trigger] children@[0].ghost_edges@[p])@
                == targets_from(tracks, Source { node: 0, port: p as usize }) by {
                assert(route_targets(base[0].ghost_edges@)[p] == same_routes(
                    Seq::empty(),
                    inputs as nat,
                )[p]);
                assert(base[0].ghost_edges@[p]@ =~= Seq::<Target>::empty());
                assert(children@[0].ghost_edges@[p]@ =~= targets_from(
                    tracks,
                    Source { node: 0, port: p as usize },
                ));
            }
        }
        let eager_progress_send = sends_eagerly(&progress_mode);
        let subgraph = Subgraph {
            name: this.name,
            path: this.path,
            inputs,
            outputs,
            children,
            incomplete,
            incomplete_count,
            temp_active: ActiveHeap::new(),
            input_messages: this.input_messages,
            output_capabilities: this.output_capabilities,
            local_pointstamp: ChangeBatch::new(),
            final_pointstamp: ChangeBatch::new(),
            shared_progress: SharedProgress::new(inputs, outputs),
            eager_progress_send,
            wrapper_ghost: this.wrapper_ghost,
            ghost_wrapper: this.ghost_wrapper,
            wrapper_ghost_edges: this.wrapper_ghost_edges,
        };
        (subgraph, Topology { nodes, edges: this.ghost_edge_stash })
    }

    /// Puts the scope to work. The order in which operators that stand for device-side nodes
    /// are taken is that of a hash map. Returns the scope, which is to be scheduled at once,
    /// and the graph to track.
    pub fn build(self, progress_mode: Option<String>) -> (r: (
        Subgraph<TOuter, TInner>,
        Topology<TInner>,
    ))
        requires
            self.buildable(),
        ensures
            exists|order: Seq<usize>| #[trigger]
                is_order_of(order, self.wrappers()) && self.built(
                    order,
                    mode_text(progress_mode),
                    &r.0,
                    &r.1,
                ),
    {
        let order = self.wrapper_order();
        self.build_in(&order, progress_mode)
    }
}

/// What `targets_from` finds are targets of edges.
proof fn lemma_targets_from(edges: Seq<(Source, Target)>, source: Source, outputs: nat)
    requires
        forall|k: int|
            0 <= k < edges.len() && (#[trigger] edges[k]).1.node == 0 ==> edges[k].1.port < outputs,
    ensures
        targets_ok(targets_from(edges, source), outputs),
    decreases edges.len(),
{
    if edges.len() > 0 {
        let before = edges.drop_last();
        assert forall|k: int|
            0 <= k < before.len() && (
            #[trigger] before[k]).1.node == 0 implies before[k].1.port < outputs by {
            assert(edges[k] == before[k]);
        }
        lemma_targets_from(before, source, outputs);
        assert(edges[edges.len() - 1] == edges.last());
    }
}

/// Each bridge ends inside the scope or at one of its outputs.
proof fn lemma_bridges_to<TOuter: Timestamp, TInner: Refines<TOuter>>(
    builder: &SubgraphBuilder<TOuter, TInner>,
    order: Seq<usize>,
)
    requires
        builder.wf(),
        builder.ghosts_present(),
        builder.fits(),
        order.to_set().subset_of(builder.wrappers()),
    ensures
        forall|k: int|
            0 <= k < bridges(
                order,
                node_lists(builder.wrapper_ghost@),
                edge_lists(builder.wrapper_ghost_edges@),
                builder.entry(),
                builder.exit(),
            ).len() ==> builder.target_ok(
                (#[trigger] bridges(
                    order,
                    node_lists(builder.wrapper_ghost@),
                    edge_lists(builder.wrapper_ghost_edges@),
                    builder.entry(),
                    builder.exit(),
                )[k]).1,
            ),
    decreases order.len(),
{
    let ghosts = node_lists(builder.wrapper_ghost@);
    let inner = edge_lists(builder.wrapper_ghost_edges@);
    let (entry, exit) = (builder.entry(), builder.exit());
    if order.len() > 0 {
        let before = order.drop_last();
        let w = order.last();
        assert(order.contains(w)) by {
            assert(order[order.len() - 1] == w);
        }
        assert(order.to_set().contains(w));
        assert(before.to_set().subset_of(builder.wrappers())) by {
            assert forall|x: usize| before.to_set().contains(x) implies builder.wrappers().contains(
                x,
            ) by {
                let k = before.index_of(x);
                assert(order[k] == x);
                assert(order.to_set().contains(x));
            }
        }
        lemma_bridges_to(builder, before);
        let all = bridges(order, ghosts, inner, entry, exit);
        let first = bridges(before, ghosts, inner, entry, exit);
        let own = bridge(ghosts[w], inner[w], entry, exit);
        assert(builder.wrapper_ghost@.contains_key(w));
        assert forall|k: int| 0 <= k < all.len() implies builder.target_ok(
            (#[trigger] all[k]).1,
        ) by {
            if k < first.len() {
                assert(all[k] == first[k]);
            } else {
                let m = k - first.len();
                assert(all[k] == own[m]);
                if m == 0 {
                    assert(builder.wrapper_ghost@[w]@[0] != 0);
                } else if m >= 2 {
                    assert(own[m] == inner_edges(inner[w])[m - 2]);
                    assert(own[m].1.node == builder.wrapper_ghost_edges@[w]@[m - 2].1);
                }
            }
        }
    }
}

impl<TOuter: Timestamp, TInner: Refines<TOuter>> SubgraphBuilder<TOuter, TInner> {
    /// Whether `target` is inside the scope, or one of its outputs.
    pub open spec fn target_ok(&self, target: Target) -> bool {
        target.node == 0 ==> target.port < self.output_capabilities@.len()
    }

    /// Whether what was added fits together: the progress information of each operator has its
    /// shape, and places for the device-side nodes that it stands for; and each edge ends
    /// inside the scope or at one of its outputs.
    pub open spec fn fits(&self) -> bool {
        &&& forall|k: int|
            0 <= k < self.children@.len() && (#[trigger] self.children@[k]).index != 0 ==> {
                &&& self.children@[k].wf()
                &&& has_nodes(
                    self.children@[k].shared_progress@,
                    self.children@[k].ghosts(self.wrapper_ghost@),
                )
                &&& routes_ok(
                    route_targets(self.children@[k].ghost_edges@),
                    self.output_capabilities@.len(),
                )
            }
        &&& forall|k: int|
            0 <= k < self.edge_stash@.len() ==> self.target_ok((#[trigger] self.edge_stash@[k]).1)
        &&& forall|k: int|
            0 <= k < self.ghost_edge_stash@.len() ==> self.target_ok(
                (#[trigger] self.ghost_edge_stash@[k]).1,
            )
        &&& forall|w: usize| #[trigger]
            self.wrapper_ghost@.contains_key(w) ==> {
                &&& self.target_ok(self.exit())
                &&& edges_ok(self.wrapper_ghost_edges@[w]@, self.output_capabilities@.len())
                &&& forall|k: int|
                    0 <= k < self.wrapper_ghost@[w]@.len() ==> #[trigger] self.wrapper_ghost@[w]@[k]
                        != 0
            }
    }

    proof fn lemma_targets(&self, order: Seq<usize>)
        requires
            self.wf(),
            self.ghosts_present(),
            self.fits(),
            is_order_of(order, self.wrappers()),
        ensures
            forall|k: int|
                0 <= k < self.tracked_edges(order).len() ==> self.target_ok(
                    (#[trigger] self.tracked_edges(order)[k]).1,
                ),
    {
        lemma_bridges_to(self, order);
        let stash = self.ghost_edge_stash@;
        let plain = plain_edges(self.edge_stash@, self.wrappers());
        let bridging = bridges(
            order,
            node_lists(self.wrapper_ghost@),
            edge_lists(self.wrapper_ghost_edges@),
            self.entry(),
            self.exit(),
        );
        let all = self.tracked_edges(order);
        assert forall|k: int| 0 <= k < all.len() implies self.target_ok((#[trigger] all[k]).1) by {
            if k < stash.len() {
                assert(all[k] == stash[k]);
            } else if k < stash.len() + plain.len() {
                assert(all[k] == plain[k - stash.len()]);
                assert(plain.contains(all[k]));
                let keep = |e: (Source, Target)| is_plain(e, self.wrappers());
                self.edge_stash@.lemma_filter_contains_rev(keep, all[k]);
                let m = self.edge_stash@.index_of(all[k]);
                assert(self.edge_stash@[m] == all[k]);
            } else {
                assert(all[k] == bridging[k - stash.len() - plain.len()]);
            }
        }
    }
}

/// A scope built from parts that fit together is well formed.
pub proof fn law_built_is_wf<TOuter: Timestamp, TInner: Refines<TOuter>>(
    builder: &SubgraphBuilder<TOuter, TInner>,
    order: Seq<usize>,
    progress_mode: Option<Seq<char>>,
    g: &Subgraph<TOuter, TInner>,
    t: &Topology<TInner>,
)
    requires
        builder.buildable(),
        builder.fits(),
        is_order_of(order, builder.wrappers()),
        builder.built(order, progress_mode, g, t),
    ensures
        g.wf(),
{
    let tracks = builder.tracked_edges(order);
    let outputs = builder.output_capabilities@.len();
    builder.lemma_targets(order);
    assert forall|k: int|
        0 <= k < tracks.len() && (#[trigger] tracks[k]).1.node == 0 implies tracks[k].1.port
        < outputs by {
        assert(builder.target_ok(tracks[k].1));
    }
    crate::per_operator::lemma_contents_len(g.shared_progress);
    crate::per_operator::lemma_contents_len(g.children@[0].shared_progress);
    assert forall|i: int| 0 <= i < g.children@.len() implies {
        &&& (#[trigger] g.children@[i]).wf()
        &&& g.children@[i].index == i
        &&& has_nodes(
            g.children@[i].shared_progress@,
            g.children@[i].ghosts(g.wrapper_ghost@),
        )
        &&& routes_ok(route_targets(g.children@[i].ghost_edges@), outputs)
    } by {
        let child = g.children@[i];
        if i == 0 {
            assert forall|p: int| 0 <= p < child.ghost_edges@.len() implies targets_ok(
                #[trigger] route_targets(child.ghost_edges@)[p],
                outputs,
            ) by {
                assert(child.ghost_edges@[p]@ == targets_from(
                    tracks,
                    Source { node: 0, port: p as usize },
                ));
                lemma_targets_from(tracks, Source { node: 0, port: p as usize }, outputs);
            }
        } else {
            lemma_indexed(builder.children@, i);
            let k = choose|k: int|
                0 <= k < builder.children@.len() && (#[trigger] builder.children@[k]).index == i;
            let base = builder.children@[k];
            assert(routed(child, base, builder.edge_stash@, tracks));
            assert(base.wf());
            assert forall|p: int| 0 <= p < child.ghost_edges@.len() implies targets_ok(
                #[trigger] route_targets(child.ghost_edges@)[p],
                outputs,
            ) by {
                let source = Source { node: base.index, port: p as usize };
                let before = base.ghost_edges@[p]@;
                let new = targets_from(tracks, source);
                assert(child.ghost_edges@[p]@ == before + new);
                assert(route_targets(base.ghost_edges@)[p] == before);
                lemma_targets_from(tracks, source, outputs);
                assert forall|m: int|
                    0 <= m < (before + new).len() && (
                    #[trigger] (before + new)[m]).node == 0 implies (before + new)[m].port
                    < outputs by {
                    if m < before.len() {
                        assert((before + new)[m] == before[m]);
                    } else {
                        assert((before + new)[m] == new[m - before.len()]);
                    }
                }
            }
        }
    }
    assert forall|w: usize| #[trigger] g.wrapper_ghost@.contains_key(w) implies {
        &&& g.wrapper_ghost_edges@.contains_key(w)
        &&& edges_ok(g.wrapper_ghost_edges@[w]@, outputs)
    } by {
        assert(builder.wrapper_ghost@.contains_key(w));
        let inner = edge_lists(builder.wrapper_ghost_edges@);
        let ghosts = builder.wrapper_ghost@[w]@;
        assert(inner.contains_key(w));
        assert(edge_lists(g.wrapper_ghost_edges@).contains_key(w));
        let after = edge_lists(g.wrapper_ghost_edges@)[w];
        assert(after == g.wrapper_ghost_edges@[w]@);
        assert(after == inner[w].push((builder.entry().node, ghosts[0])).push(
            (ghosts.last(), builder.exit().node),
        ));
        assert(ghosts[0] != 0);
        assert forall|k: int| 0 <= k < after.len() && (#[trigger] after[k]).1 == 0 implies 0
            < outputs by {
            if k < inner[w].len() {
                assert(after[k] == builder.wrapper_ghost_edges@[w]@[k]);
            }
        }
    }
    assert(g.wf());
}

/// Progress is tracked between nodes that run something, on the host or on a device: where
/// device-side nodes are no operators that stand for such nodes, edges between them stay among
/// nodes of that kind, and no edge joins two operators that stand for device-side nodes, no
/// tracked edge touches such an operator.
pub proof fn law_tracked_edges_avoid_wrappers<TOuter: Timestamp, TInner: Refines<TOuter>>(
    builder: &SubgraphBuilder<TOuter, TInner>,
    order: Seq<usize>,
    k: int,
)
    requires
        builder.ghosts_present(),
        is_order_of(order, builder.wrappers()),
        builder.ghost_edge_stash@.len() == 0,
        !builder.wrappers().contains(0),
        forall|w: usize, i: int|
            builder.wrappers().contains(w) && 0 <= i < builder.wrapper_ghost@[w]@.len()
                ==> !builder.wrappers().contains(#[trigger] builder.wrapper_ghost@[w]@[i]),
        forall|w: usize, i: int|
            builder.wrappers().contains(w) && 0 <= i < edge_lists(
                builder.wrapper_ghost_edges@,
            )[w].len() ==> {
                let edge = #[trigger] edge_lists(builder.wrapper_ghost_edges@)[w][i];
                !builder.wrappers().contains(edge.0) && !builder.wrappers().contains(edge.1)
            },
        forall|i: int|
            0 <= i < builder.edge_stash@.len() ==> {
                let edge = #[trigger] builder.edge_stash@[i];
                !(builder.wrappers().contains(edge.0.node) && builder.wrappers().contains(
                    edge.1.node,
                ))
            },
        0 <= k < builder.tracked_edges(order).len(),
    ensures
        is_plain(builder.tracked_edges(order)[k], builder.wrappers()),
{
    let wrappers = builder.wrappers();
    let plain = plain_edges(builder.edge_stash@, wrappers);
    let ghosts = node_lists(builder.wrapper_ghost@);
    let inner = edge_lists(builder.wrapper_ghost_edges@);
    let bridging = bridges(order, ghosts, inner, builder.entry(), builder.exit());
    let edge = builder.tracked_edges(order)[k];
    if k < plain.len() {
        assert(edge == plain[k]);
        builder.edge_stash@.lemma_filter_pred(|e: (Source, Target)| is_plain(e, wrappers), k);
    } else {
        assert(edge == bridging[k - plain.len()]);
        lemma_entry_exit_plain(builder.edge_stash@, wrappers);
        lemma_bridges_plain(
            order,
            ghosts,
            inner,
            builder.entry(),
            builder.exit(),
            wrappers,
            k - plain.len(),
        );
    }
}

proof fn lemma_entry_exit_plain(edges: Seq<(Source, Target)>, wrappers: Set<usize>)
    requires
        !wrappers.contains(0),
        forall|i: int|
            0 <= i < edges.len() ==> !(wrappers.contains((#[trigger] edges[i]).0.node)
                && wrappers.contains(edges[i].1.node)),
    ensures
        !wrappers.contains(entry_source(edges, wrappers).node),
        !wrappers.contains(crate::subgraph_builder::exit_target(edges, wrappers).node),
    decreases edges.len(),
{
    if edges.len() > 0 {
        let before = edges.drop_last();
        assert forall|i: int| 0 <= i < before.len() implies !(wrappers.contains(
            (#[trigger] before[i]).0.node,
        ) && wrappers.contains(before[i].1.node)) by {
            assert(edges[i] == before[i]);
        }
        lemma_entry_exit_plain(before, wrappers);
        assert(edges[edges.len() - 1] == edges.last());
    }
}

proof fn lemma_bridges_plain(
    order: Seq<usize>,
    ghosts: Map<usize, Seq<usize>>,
    inner: Map<usize, Seq<(usize, usize)>>,
    entry: Source,
    exit: Target,
    wrappers: Set<usize>,
    k: int,
)
    requires
        forall|i: int| 0 <= i < order.len() ==> wrappers.contains(#[trigger] order[i]),
        forall|w: usize| #[trigger] wrappers.contains(w) ==> ghosts[w].len() > 0,
        forall|w: usize, i: int|
            wrappers.contains(w) && 0 <= i < ghosts[w].len() ==> !wrappers.contains(
                #[trigger] ghosts[w][i],
            ),
        forall|w: usize, i: int|
            wrappers.contains(w) && 0 <= i < inner[w].len() ==> {
                let edge = #[trigger] inner[w][i];
                !wrappers.contains(edge.0) && !wrappers.contains(edge.1)
            },
        !wrappers.contains(entry.node),
        !wrappers.contains(exit.node),
        0 <= k < bridges(order, ghosts, inner, entry, exit).len(),
    ensures
        is_plain(bridges(order, ghosts, inner, entry, exit)[k], wrappers),
    decreases order.len(),
{
    let before = bridges(order.drop_last(), ghosts, inner, entry, exit);
    let w = order.last();
    let all = bridges(order, ghosts, inner, entry, exit);
    let own = bridge(ghosts[w], inner[w], entry, exit);
    assert(order[order.len() - 1] == w);
    if k < before.len() {
        assert forall|i: int| 0 <= i < order.drop_last().len() implies wrappers.contains(
            #[trigger] order.drop_last()[i],
        ) by {
            assert(order[i] == order.drop_last()[i]);
        }
        lemma_bridges_plain(order.drop_last(), ghosts, inner, entry, exit, wrappers, k);
        assert(all[k] == before[k]);
    } else {
        let m = k - before.len();
        assert(all[k] == own[m]);
        if m < 2 {
            assert(!wrappers.contains(ghosts[w][0]));
            assert(!wrappers.contains(ghosts[w][ghosts[w].len() - 1]));
        } else {
            assert(own[m] == inner_edges(inner[w])[m - 2]);
            assert(!wrappers.contains(inner[w][m - 2].0));
        }
    }
}

/// A scope just built is incomplete exactly where an operator was added that counts as
/// incomplete at first.
pub proof fn law_incomplete_at_first<TOuter: Timestamp, TInner: Refines<TOuter>>(
    builder: &SubgraphBuilder<TOuter, TInner>,
    order: Seq<usize>,
    progress_mode: Option<Seq<char>>,
    g: &Subgraph<TOuter, TInner>,
    t: &Topology<TInner>,
)
    requires
        builder.buildable(),
        builder.built(order, progress_mode, g, t),
    ensures
        g.incomplete_count > 0 <==> exists|k: int|
            0 <= k < builder.children@.len() && (#[trigger] builder.children@[k]).index != 0
                && builder.children@[k].count_for_incomplete,
{
    lemma_some_set(g.incomplete@);
    if g.incomplete_count > 0 {
        let i = choose|i: int| 0 <= i < g.incomplete@.len() && #[trigger] g.incomplete@[i];
        lemma_indexed(builder.children@, i);
        let k = choose|k: int|
            0 <= k < builder.children@.len() && (#[trigger] builder.children@[k]).index == i;
        assert(routed(
            g.children@[i],
            builder.children@[k],
            builder.edge_stash@,
            builder.tracked_edges(order),
        ));
    }
    if exists|k: int|
        0 <= k < builder.children@.len() && (#[trigger] builder.children@[k]).index != 0
            && builder.children@[k].count_for_incomplete {
        let k = choose|k: int|
            0 <= k < builder.children@.len() && (#[trigger] builder.children@[k]).index != 0
                && builder.children@[k].count_for_incomplete;
        assert(g.incomplete@[builder.children@[k].index as int]);
    }
}

/// The targets found for an output are those of the edges from it, in their order: as many of
/// each as there are edges from the output to it.
pub proof fn law_targets_of_output(edges: Seq<(Source, Target)>, source: Source, target: Target)
    ensures
        targets_from(edges, source) == edges.filter(
            |e: (Source, Target)| e.0 == source,
        ).map_values(|e: (Source, Target)| e.1),
        targets_from(edges, source).to_multiset().count(target) == edges.to_multiset().count(
            (source, target),
        ),
    decreases edges.len(),
{
    let keep = |e: (Source, Target)| e.0 == source;
    let end = |e: (Source, Target)| e.1;
    reveal(Seq::filter);
    if edges.len() > 0 {
        let before = edges.drop_last();
        law_targets_of_output(before, source, target);
        lemma_count_ends(edges, (source, target));
        assert(targets_from(edges, source) =~= edges.filter(keep).map_values(end));
        if edges.last().0 == source {
            let all = targets_from(edges, source);
            assert(all.drop_last() =~= targets_from(before, source));
            lemma_count_ends(all, target);
        }
    } else {
        lemma_count_small(target, target);
        lemma_count_small((source, target), (source, target));
        assert(edges =~= Seq::<(Source, Target)>::empty());
        assert(targets_from(edges, source) =~= edges.filter(keep).map_values(end));
        assert(targets_from(edges, source) =~= Seq::<Target>::empty());
    }
}

/// In a scope just built, each output of each operator, and each input of the scope, leads to
/// every target that it was connected to, as often as it was: no edge is lost and none is made
/// up. So it is for the edges of messages and for those along which progress is tracked.
pub proof fn law_edges_are_routed<TOuter: Timestamp, TInner: Refines<TOuter>>(
    builder: &SubgraphBuilder<TOuter, TInner>,
    order: Seq<usize>,
    progress_mode: Option<Seq<char>>,
    g: &Subgraph<TOuter, TInner>,
    t: &Topology<TInner>,
    source: Source,
    target: Target,
)
    requires
        builder.buildable(),
        builder.built(order, progress_mode, g, t),
        source.node < builder.children@.len(),
        source.port < g.children@[source.node as int].outputs,
        forall|k: int, p: int|
            0 <= k < builder.children@.len() && 0 <= p < builder.children@[k].edges@.len() ==> (
            #[trigger] builder.children@[k].edges@[p])@.len() == 0,
        forall|k: int, p: int|
            0 <= k < builder.children@.len() && 0 <= p < builder.children@[k].ghost_edges@.len()
                ==> (#[trigger] builder.children@[k].ghost_edges@[p])@.len() == 0,
    ensures
        g.children@[source.node as int].edges@[source.port as int]@.to_multiset().count(target)
            == builder.edge_stash@.to_multiset().count((source, target)),
        g.children@[source.node as int].edges@[source.port as int]@ == builder.edge_stash@.filter(
            |e: (Source, Target)| e.0 == source,
        ).map_values(|e: (Source, Target)| e.1),
        g.children@[source.node as int].ghost_edges@[source.port as int]@.to_multiset().count(target)
            == t.edges@.to_multiset().count((source, target)),
        g.children@[source.node as int].ghost_edges@[source.port as int]@ == t.edges@.filter(
            |e: (Source, Target)| e.0 == source,
        ).map_values(|e: (Source, Target)| e.1),
        t.edges@ == builder.tracked_edges(order),
{
    let tracks = builder.tracked_edges(order);
    law_targets_of_output(builder.edge_stash@, source, target);
    law_targets_of_output(tracks, source, target);
    let child = g.children@[source.node as int];
    let p = source.port as int;
    if source.node == 0 {
        assert(child.edges@[p]@ == targets_from(builder.edge_stash@, source));
        assert(child.ghost_edges@[p]@ == targets_from(tracks, source));
    } else {
        lemma_indexed(builder.children@, source.node as int);
        let k = choose|k: int|
            0 <= k < builder.children@.len() && (#[trigger] builder.children@[k]).index
                == source.node;
        let base = builder.children@[k];
        assert(routed(child, base, builder.edge_stash@, tracks));
        assert(base.edges@[p]@.len() == 0);
        assert(base.ghost_edges@[p]@.len() == 0);
        assert(child.edges@[p]@ == base.edges@[p]@ + targets_from(builder.edge_stash@, source));
        assert(child.edges@[p]@ =~= targets_from(builder.edge_stash@, source));
        assert(child.ghost_edges@[p]@ == base.ghost_edges@[p]@ + targets_from(tracks, source));
        assert(child.ghost_edges@[p]@ =~= targets_from(tracks, source));
    }
}

/// Building a scope keeps each operator as it was added, at the place of its index, but for its
/// edges; and the outside of the scope stands at place zero.
pub proof fn law_operators_kept<TOuter: Timestamp, TInner: Refines<TOuter>>(
    builder: &SubgraphBuilder<TOuter, TInner>,
    order: Seq<usize>,
    progress_mode: Option<Seq<char>>,
    g: &Subgraph<TOuter, TInner>,
    t: &Topology<TInner>,
    k: int,
)
    requires
        builder.buildable(),
        builder.built(order, progress_mode, g, t),
        0 <= k < builder.children@.len(),
    ensures
        g.children@.len() == builder.children@.len(),
        g.children@[0].outputs == builder.input_messages@.len(),
        g.children@[0].inputs == builder.output_capabilities@.len(),
        g.inputs == builder.input_messages@.len(),
        g.outputs == builder.output_capabilities@.len(),
        g.eager_progress_send <==> progress_mode != Some("DEMAND"@),
        builder.children@[k].index != 0 ==> {
            let before = builder.children@[k];
            let after = g.children@[before.index as int];
            &&& after.name == before.name
            &&& after.index == before.index
            &&& after.id == before.id
            &&& after.local == before.local
            &&& after.notify == before.notify
            &&& after.inputs == before.inputs
            &&& after.outputs == before.outputs
            &&& after.running == before.running
            &&& after.sees_ghosts == before.sees_ghosts
            &&& after.shared_progress == before.shared_progress
            &&& after.internal_summary == before.internal_summary
            &&& g.incomplete@[before.index as int] == before.count_for_incomplete
        },
        !g.incomplete@[0],
{
    if builder.children@[k].index != 0 {
        let before = builder.children@[k];
        assert(routed(
            g.children@[before.index as int],
            before,
            builder.edge_stash@,
            builder.tracked_edges(order),
        ));
        assert(before.index < builder.children@.len());
    }
}

/// Progress is tracked at each node but operators that stand for device-side nodes, in the order
/// of indexes, with its ports and with what its paths do to times. The outside of the scope is at
/// index zero, and no path leads through it.
pub proof fn law_nodes_tracked<T: Timestamp>(
    children: Seq<PerOperatorState<T>>,
    wrappers: Set<usize>,
    n: nat,
)
    requires
        n <= children.len(),
        n <= usize::MAX,
    ensures
        tracked_nodes(children, wrappers, n) == Seq::new(n, |i: int| i).filter(
            |i: int| i == 0 || !wrappers.contains(i as usize),
        ).map_values(
            |i: int|
                NodeModel {
                    index: i as usize,
                    inputs: children[i].inputs,
                    outputs: children[i].outputs,
                    summary: if i == 0 {
                        Seq::new(
                            children[0].inputs as nat,
                            |a: int|
                                Seq::new(
                                    children[0].outputs as nat,
                                    |b: int| Seq::<T::Summary>::empty(),
                                ),
                        )
                    } else {
                        summary_elements(children[i].internal_summary@)
                    },
                },
        ),
    decreases n,
{
    let all = Seq::new(n, |i: int| i);
    let keep = |i: int| i == 0 || !wrappers.contains(i as usize);
    let model = |i: int|
        NodeModel {
            index: i as usize,
            inputs: children[i].inputs,
            outputs: children[i].outputs,
            summary: if i == 0 {
                Seq::new(
                    children[0].inputs as nat,
                    |a: int|
                        Seq::new(
                            children[0].outputs as nat,
                            |b: int| Seq::<T::Summary>::empty(),
                        ),
                )
            } else {
                summary_elements(children[i].internal_summary@)
            },
        };
    reveal(Seq::filter);
    if n > 0 {
        law_nodes_tracked(children, wrappers, (n - 1) as nat);
        assert(all.drop_last() =~= Seq::new((n - 1) as nat, |i: int| i));
        assert(all.last() == n - 1);
        if n == 1 {
            assert(no_paths::<T::Summary>(
                children[0].inputs as nat,
                children[0].outputs as nat,
            ) =~~= model(0).summary);
        }
        assert(tracked_nodes(children, wrappers, n) =~= all.filter(keep).map_values(model));
    } else {
        assert(tracked_nodes(children, wrappers, n) =~= all.filter(keep).map_values(model));
    }
}

/// Progress is told at once unless the mode is to tell it on demand.
pub proof fn law_told_at_once(mode: Option<String>)
    ensures
        mode is None ==> eager_mode(mode_text(mode)),
        mode is Some ==> (eager_mode(mode_text(mode)) <==> mode->0@ != "DEMAND"@),
{
}

/// What else a scope has when it is built: its name, address, ports, messages and capabilities are
/// those of before; nothing is to be scheduled, committed or told; and the nodes to track are those
/// described.
pub proof fn law_scope_kept<TOuter: Timestamp, TInner: Refines<TOuter>>(
    builder: &SubgraphBuilder<TOuter, TInner>,
    order: Seq<usize>,
    progress_mode: Option<Seq<char>>,
    g: &Subgraph<TOuter, TInner>,
    t: &Topology<TInner>,
    k: int,
)
    requires
        builder.built(order, progress_mode, g, t),
    ensures
        g.name == builder.name,
        g.path == builder.path,
        g.input_messages == builder.input_messages,
        g.output_capabilities == builder.output_capabilities,
        g.wrapper_ghost == builder.wrapper_ghost,
        g.ghost_wrapper == builder.ghost_wrapper,
        g.local_pointstamp@.len() == 0,
        g.final_pointstamp@.len() == 0,
        g.temp_active@.len() == 0,
        g.shared_progress@.frontiers.len() == builder.input_messages@.len(),
        g.shared_progress@.consumeds.len() == builder.input_messages@.len(),
        g.shared_progress@.internals.len() == builder.output_capabilities@.len(),
        g.shared_progress@.produceds.len() == builder.output_capabilities@.len(),
        g.incomplete_count == g.incomplete@.filter(|b: bool| b).len(),
        node_models(t.nodes@).len() == t.nodes@.len(),
        0 <= k < t.nodes@.len() ==> {
            let model = node_models(t.nodes@)[k];
            &&& model.index == t.nodes@[k].index
            &&& model.inputs == t.nodes@[k].inputs
            &&& model.outputs == t.nodes@[k].outputs
            &&& model.summary == summary_elements(t.nodes@[k].summary@)
        },
        node_models(t.nodes@) == tracked_nodes(
            g.children@,
            builder.wrapper_ghost@.dom(),
            builder.children@.len(),
        ),
{
    law_flags_counted(g.incomplete@);
}

/// A new scope can be put to work as it is.
pub proof fn law_new_scope_buildable<TOuter: Timestamp, TInner: Refines<TOuter>>(
    builder: &SubgraphBuilder<TOuter, TInner>,
)
    requires
        builder.wf(),
        builder.children@.len() == 1,
        builder.children@[0].index == 0,
        builder.edge_stash@.len() == 0,
        builder.ghost_edge_stash@.len() == 0,
        forall|w: usize| !builder.wrapper_ghost@.contains_key(w),
    ensures
        builder.buildable(),
{
}

/// A scope that can be put to work still can once an output that it has is connected.
pub proof fn law_connected_stays_buildable<TOuter: Timestamp, TInner: Refines<TOuter>>(
    before: &SubgraphBuilder<TOuter, TInner>,
    after: &SubgraphBuilder<TOuter, TInner>,
    source: Source,
    target: Target,
)
    requires
        before.buildable(),
        *after == (SubgraphBuilder { edge_stash: after.edge_stash, ..*before }),
        after.edge_stash@ == before.edge_stash@.push((source, target)),
        source.node < before.children@.len(),
        source.node == 0 ==> source.port < before.input_messages@.len(),
        forall|k: int|
            0 <= k < before.children@.len() && source.node != 0 && (
            #[trigger] before.children@[k]).index == source.node ==> source.port
                < before.children@[k].outputs,
    ensures
        after.buildable(),
{
    assert(after.source_ok(source));
    assert forall|s: Source| before.source_ok(s) implies #[trigger] after.source_ok(s) by {}
    assert forall|k: int| 0 <= k < after.edge_stash@.len() implies after.source_ok(
        (#[trigger] after.edge_stash@[k]).0,
    ) by {
        if k < before.edge_stash@.len() {
            assert(after.edge_stash@[k] == before.edge_stash@[k]);
            assert(before.source_ok(before.edge_stash@[k].0));
        }
    }
    assert(after.edge_stash@.drop_last() =~= before.edge_stash@);
    assert(after.wrappers() == before.wrappers());
    assert forall|w: usize| #[trigger] after.wrapper_ghost@.contains_key(w) implies {
        &&& after.source_ok(after.entry())
        &&& after.source_ok(Source { node: after.wrapper_ghost@[w]@.last(), port: 0 })
        &&& forall|k: int|
            0 <= k < after.wrapper_ghost_edges@[w]@.len() ==> after.source_ok(
                Source { node: (#[trigger] after.wrapper_ghost_edges@[w]@[k]).0, port: 0 },
            )
    } by {
        assert(before.wrapper_ghost@.contains_key(w));
        assert(before.source_ok(before.entry()));
        assert forall|k: int| 0 <= k < after.wrapper_ghost_edges@[w]@.len() implies after.source_ok(
            Source { node: (#[trigger] after.wrapper_ghost_edges@[w]@[k]).0, port: 0 },
        ) by {
            assert(before.source_ok(
                Source { node: before.wrapper_ghost_edges@[w]@[k].0, port: 0 },
            ));
        }
    }
}

/// Messages for device-side nodes come from input zero of the scope, or from where an edge starts.
proof fn lemma_entry_known(edges: Seq<(Source, Target)>, wrappers: Set<usize>)
    ensures
        ({
            let entry = entry_source(edges, wrappers);
            ||| entry == (Source { node: 0, port: 0 })
            ||| exists|k: int| 0 <= k < edges.len() && entry == (#[trigger] edges[k]).0
        }),
    decreases edges.len(),
{
    if edges.len() > 0 && !wrappers.contains(edges.last().1.node) {
        let before = edges.drop_last();
        lemma_entry_known(before, wrappers);
        if entry_source(before, wrappers) != (Source { node: 0, port: 0 }) {
            let k = choose|k: int|
                0 <= k < before.len() && entry_source(before, wrappers) == (
                #[trigger] before[k]).0;
            assert(edges[k] == before[k]);
        }
    } else if edges.len() > 0 {
        assert(edges[edges.len() - 1].0 == edges.last().0);
    }
}

/// A scope with an input can be put to work where its operators stand in the order of their
/// indexes, each edge starts at an output that is there, and the device-side nodes are operators
/// of the scope with an output each.
pub proof fn law_scope_buildable<TOuter: Timestamp, TInner: Refines<TOuter>>(
    builder: &SubgraphBuilder<TOuter, TInner>,
)
    requires
        builder.wf(),
        builder.input_messages@.len() > 0,
        forall|k: int|
            0 <= k < builder.children@.len() ==> (#[trigger] builder.children@[k]).index == k,
        forall|k: int|
            0 <= k < builder.edge_stash@.len() ==> {
                let source = (#[trigger] builder.edge_stash@[k]).0;
                &&& source.node < builder.children@.len()
                &&& source.node == 0 ==> source.port < builder.input_messages@.len()
                &&& source.node != 0 ==> source.port
                    < builder.children@[source.node as int].outputs
            },
        builder.ghost_edge_stash@.len() == 0,
        forall|w: usize, k: int|
            builder.wrapper_ghost@.contains_key(w) && 0 <= k
                < builder.wrapper_ghost_edges@[w]@.len() ==> {
                let node = (#[trigger] builder.wrapper_ghost_edges@[w]@[k]).0;
                &&& 0 < node < builder.children@.len()
                &&& 0 < builder.children@[node as int].outputs
            },
        forall|w: usize| #[trigger]
            builder.wrapper_ghost@.contains_key(w) ==> {
                let nodes = builder.wrapper_ghost@[w]@;
                &&& nodes.len() > 0
                &&& 0 < nodes[nodes.len() - 1] < builder.children@.len()
                &&& 0 < builder.children@[nodes[nodes.len() - 1] as int].outputs
            },
    ensures
        builder.buildable(),
{
    lemma_entry_known(builder.edge_stash@, builder.wrappers());
    assert forall|w: usize| #[trigger] builder.wrapper_ghost@.contains_key(w) implies {
        &&& builder.source_ok(builder.entry())
        &&& builder.source_ok(Source { node: builder.wrapper_ghost@[w]@.last(), port: 0 })
        &&& forall|k: int|
            0 <= k < builder.wrapper_ghost_edges@[w]@.len() ==> builder.source_ok(
                Source { node: (#[trigger] builder.wrapper_ghost_edges@[w]@[k]).0, port: 0 },
            )
    } by {}
}

} // verus!
