//! Putting device-side nodes, and the operator that stands for them, into a scope.

use vstd::prelude::*;

use crate::change_batch::{compacted, count, law_counts_determine, law_update_counts, updated};
use crate::device::{given_up, numbers_nodes, WrapperState};
use crate::fakeoperator::{
    connected, each_updated, law_capabilities_reserved, reserved, FakeOperator, FpgaOperator,
    OperatorShape,
};
use crate::frontier::Antichain;
use crate::location::{Source, Target};
use crate::logging::{child_address, event_views, OperatesEvent};
use crate::naming::{name_list, numbered_names, texts};
use crate::order::{Refines, Timestamp};
use crate::per_operator::{OperatorInfo, PerOperatorState};
use crate::reachability::{row_elements, summary_elements};
use crate::shared_progress::{
    no_changes, no_node_changes, nothing_reported, ProgressContents, SharedProgress,
};
use crate::subgraph_builder::{all_sent, law_nodes_sent, SubgraphBuilder};

verus! {

broadcast use vstd::std_specs::hash::group_hash_axioms;

/// The summary of an operator whose one input leads to its one output and leaves times alone.
pub open spec fn pass_through<S>(identity: S) -> Seq<Seq<Seq<S>>> {
    seq![seq![seq![identity]]]
}

/// The progress information of a device-side node at first: a capability at the least time
/// for its output, one for each worker.
pub open spec fn ghost_progress<T: Timestamp>(peers: usize) -> ProgressContents<T> {
    ProgressContents {
        frontiers: no_changes::<T>(1),
        consumeds: no_changes::<T>(1),
        internals: each_updated(no_changes::<T>(1), T::least(), peers as i64),
        produceds: no_changes::<T>(1),
        wrapper_frontiers: Map::empty(),
        wrapper_consumeds: Map::empty(),
        wrapper_internals: Map::empty(),
        wrapper_produceds: Map::empty(),
    }
}

/// The progress information of an operator that stands for the nodes `ghosts`, at first: a
/// capability at the least time for the output of each node, one for each worker.
pub open spec fn wrapper_progress<T: Timestamp>(ghosts: Seq<usize>, peers: usize) -> ProgressContents<
    T,
> {
    ProgressContents {
        frontiers: no_changes::<T>(1),
        consumeds: no_changes::<T>(1),
        internals: no_changes::<T>(1),
        produceds: no_changes::<T>(1),
        wrapper_frontiers: no_node_changes::<T>(ghosts, 1),
        wrapper_consumeds: no_node_changes::<T>(ghosts, 1),
        wrapper_internals: reserved(
            no_node_changes::<T>(ghosts, 1),
            numbered(ghosts),
            peers,
            ghosts.len(),
        ),
        wrapper_produceds: no_node_changes::<T>(ghosts, 1),
    }
}

/// `nodes`, numbered from zero.
pub open spec fn numbered(nodes: Seq<usize>) -> Seq<(usize, usize)> {
    Seq::new(nodes.len(), |k: int| (k as usize, nodes[k]))
}

/// The edges that join each of `nodes` to the next.
pub open spec fn chain(nodes: Seq<usize>) -> Seq<(usize, usize)> {
    Seq::new(
        if nodes.len() == 0 {
            0
        } else {
            (nodes.len() - 1) as nat
        },
        |k: int| (nodes[k], nodes[k + 1]),
    )
}

/// As many indexes as `n`, from `from` on.
pub open spec fn run_of(from: usize, n: nat) -> Seq<usize> {
    Seq::new(n, |k: int| (from + k) as usize)
}

/// Whether `child` is an operator with this name, place, shape, summary and progress
/// information, just added.
pub open spec fn is_added<T: Timestamp>(
    child: PerOperatorState<T>,
    name: Seq<char>,
    index: usize,
    id: usize,
    ports: usize,
    incomplete: bool,
    summary: Seq<Seq<Seq<T::Summary>>>,
    progress: ProgressContents<T>,
) -> bool {
    &&& child.name@ == name
    &&& child.index == index
    &&& child.id == id
    &&& child.local
    &&& !child.notify
    &&& child.inputs == ports
    &&& child.outputs == ports
    &&& child.count_for_incomplete == incomplete
    &&& child.running
    &&& child.sees_ghosts
    &&& child.edges@.len() == ports
    &&& child.ghost_edges@.len() == ports
    &&& forall|p: int| 0 <= p < ports ==> (#[trigger] child.edges@[p])@.len() == 0
    &&& forall|p: int| 0 <= p < ports ==> (#[trigger] child.ghost_edges@[p])@.len() == 0
    &&& summary_elements(child.internal_summary@) == summary
    &&& child.shared_progress@ == progress
}

/// A child that was just added has no edges.
proof fn lemma_added<T: Timestamp>(
    child: PerOperatorState<T>,
    info: OperatorInfo<T>,
    index: usize,
    identifier: usize,
    incomplete: bool,
)
    requires
        child.describes(&info, index, identifier, incomplete),
    ensures
        child.edges@.len() == info.outputs,
        child.ghost_edges@.len() == info.outputs,
        forall|p: int| 0 <= p < info.outputs ==> (#[trigger] child.edges@[p])@.len() == 0,
        forall|p: int| 0 <= p < info.outputs ==> (#[trigger] child.ghost_edges@[p])@.len() == 0,
{
    let none = crate::per_operator::same_routes(Seq::empty(), info.outputs as nat);
    assert(crate::statements::route_targets(child.edges@).len() == none.len());
    assert(crate::statements::route_targets(child.ghost_edges@).len() == none.len());
    assert forall|p: int| 0 <= p < info.outputs implies (#[trigger] child.edges@[p])@.len() == 0 by {
        assert(crate::statements::route_targets(child.edges@)[p] == none[p]);
    }
    assert forall|p: int| 0 <= p < info.outputs implies (
    #[trigger] child.ghost_edges@[p])@.len() == 0 by {
        assert(crate::statements::route_targets(child.ghost_edges@)[p] == none[p]);
    }
}

/// Something that operators can be put into.
pub trait Host<TOuter: Timestamp, TInner: Refines<TOuter>>: Sized {
    /// The scope that they are put into.
    spec fn scope(&self) -> SubgraphBuilder<TOuter, TInner>;
}

impl<TOuter: Timestamp, TInner: Refines<TOuter>> Host<TOuter, TInner> for SubgraphBuilder<
    TOuter,
    TInner,
> {
    open spec fn scope(&self) -> SubgraphBuilder<TOuter, TInner> {
        *self
    }
}

/// What was put into a scope.
pub struct Registered {
    /// The indexes of the device-side nodes.
    pub ghosts: Vec<usize>,
    /// The index of the operator that stands for them.
    pub wrapper: usize,
    /// The index of the operator that collects what the device returns.
    pub collector: Option<usize>,
    /// Where what the device returns comes from.
    pub stream: Source,
    /// What announces them, in the order in which they were added.
    pub announced: Vec<OperatesEvent>,
}

/// The summary of an operator whose one input leads to its one output and leaves times alone.
fn pass_through_summary<T: Timestamp>() -> (r: Vec<Vec<Antichain<T::Summary>>>)
    ensures
        summary_elements(r@) == pass_through(T::identity()),
        r@.len() == 1,
        r@[0]@.len() == 1,
{
    let mut row: Vec<Antichain<T::Summary>> = Vec::new();
    row.push(Antichain::from_elem(T::identity_summary()));
    let mut r: Vec<Vec<Antichain<T::Summary>>> = Vec::new();
    r.push(row);
    proof {
        assert(row_elements(row@) =~= seq![seq![T::identity()]]);
        assert(summary_elements(r@) =~= pass_through(T::identity()));
    }
    r
}

/// Adds a device-side node to a scope, and returns its index and what announces it.
fn add_ghost<TOuter: Timestamp, TInner: Refines<TOuter>>(
    builder: &mut SubgraphBuilder<TOuter, TInner>,
    name: String,
    identifier: usize,
    peers: usize,
) -> (r: (usize, OperatesEvent))
    requires
        old(builder).child_count < usize::MAX,
    ensures
        r.0 == old(builder).child_count,
        r.1@ == (identifier, old(builder).path@, name@),
        *final(builder) == (SubgraphBuilder {
            child_count: final(builder).child_count,
            children: final(builder).children,
            ..*old(builder)
        }),
        final(builder).child_count == old(builder).child_count + 1,
        final(builder).children@.len() == old(builder).children@.len() + 1,
        final(builder).children@.drop_last() == old(builder).children@,
        is_added(
            final(builder).children@.last(),
            name@,
            r.0,
            identifier,
            1,
            false,
            pass_through(TInner::identity()),
            ghost_progress(peers),
        ),
        old(builder).wf() ==> final(builder).wf(),
{
    let index: usize = builder.allocate_child_id();
    let operator: FakeOperator<TInner> = FakeOperator {
        shape: OperatorShape { name, notify: false, peers, inputs: 1, outputs: 1 },
        address: child_address(&builder.path, index),
        shared_progress: SharedProgress::new(1, 1),
        summary: Vec::new(),
    };
    let ghost start = operator;
    let info = operator.describe();
    let ghost said = info;
    proof {
        assert(summary_elements(start.summary@) =~= Seq::<Seq<Seq<TInner::Summary>>>::empty());
        assert(connected(summary_elements(start.summary@), TInner::identity()) =~= pass_through(
            TInner::identity(),
        )) by {
            let c = connected(summary_elements(start.summary@), TInner::identity());
            assert(c[0] =~= seq![seq![TInner::identity()]]);
        }
    }
    let event = builder.add_child_no_path(info, index, identifier);
    proof {
        lemma_added(builder.children@.last(), said, index, identifier, false);
    }
    (index, event)
}

/// What announces device-side nodes with these names and identifiers, in a scope at `path`.
pub open spec fn ghosts_announced(
    path: Seq<usize>,
    names: Seq<Seq<char>>,
    identifiers: Seq<usize>,
) -> Seq<(usize, Seq<usize>, Seq<char>)> {
    Seq::new(names.len(), |k: int| (identifiers[k], path, names[k]))
}

/// Adds a device-side node to a scope for each of `names`, and returns their indexes and what
/// announces them.
fn add_ghosts<TOuter: Timestamp, TInner: Refines<TOuter>>(
    builder: &mut SubgraphBuilder<TOuter, TInner>,
    names: &Vec<String>,
    identifiers: &Vec<usize>,
    peers: usize,
) -> (r: (Vec<usize>, Vec<OperatesEvent>))
    requires
        old(builder).child_count + names@.len() <= usize::MAX,
        names@.len() <= identifiers@.len(),
    ensures
        event_views(r.1@) == ghosts_announced(old(builder).path@, texts(names@), identifiers@),
        r.0@ == run_of(old(builder).child_count, names@.len()),
        *final(builder) == (SubgraphBuilder {
            child_count: final(builder).child_count,
            children: final(builder).children,
            ..*old(builder)
        }),
        final(builder).child_count == old(builder).child_count + names@.len(),
        final(builder).children@.len() == old(builder).children@.len() + names@.len(),
        final(builder).children@.take(old(builder).children@.len() as int)
            == old(builder).children@,
        forall|k: int|
            0 <= k < names@.len() ==> is_added(
                #[trigger] final(builder).children@[old(builder).children@.len() + k],
                names@[k]@,
                (old(builder).child_count + k) as usize,
                identifiers@[k],
                1,
                false,
                pass_through(TInner::identity()),
                ghost_progress(peers),
            ),
        old(builder).wf() ==> final(builder).wf(),
{
    let ghost start = *builder;
    let mut r: Vec<usize> = Vec::new();
    let mut announced: Vec<OperatesEvent> = Vec::new();
    let mut i: usize = 0;
    assert(builder.children@.take(start.children@.len() as int) =~= start.children@);
    while i < names.len()
        invariant
            i <= names@.len(),
            start.child_count + names@.len() <= usize::MAX,
            names@.len() <= identifiers@.len(),
            r@ == run_of(start.child_count, i as nat),
            announced@.len() == i,
            forall|k: int|
                0 <= k < i ==> (#[trigger] announced@[k])@ == (
                    identifiers@[k],
                    start.path@,
                    names@[k]@,
                ),
            *builder == (SubgraphBuilder {
                child_count: builder.child_count,
                children: builder.children,
                ..start
            }),
            builder.child_count == start.child_count + i,
            builder.children@.len() == start.children@.len() + i,
            builder.children@.take(start.children@.len() as int) == start.children@,
            forall|k: int|
                0 <= k < i ==> is_added(
                    #[trigger] builder.children@[start.children@.len() + k],
                    names@[k]@,
                    (start.child_count + k) as usize,
                    identifiers@[k],
                    1,
                    false,
                    pass_through(TInner::identity()),
                    ghost_progress(peers),
                ),
            start.wf() ==> builder.wf(),
        decreases names@.len() - i,
    {
        let ghost before = builder.children@;
        let (index, event) = add_ghost(builder, names[i].clone(), identifiers[i], peers);
        r.push(index);
        announced.push(event);
        proof {
            assert(r@ =~= run_of(start.child_count, (i + 1) as nat));
            assert forall|k: int| 0 <= k < before.len() implies #[trigger] builder.children@[k]
                == before[k] by {
                assert(builder.children@.drop_last()[k] == before[k]);
            }
            assert(builder.children@.take(start.children@.len() as int) =~= before.take(
                start.children@.len() as int,
            ));
            assert forall|k: int| 0 <= k < i + 1 implies is_added(
                #[trigger] builder.children@[start.children@.len() + k],
                names@[k]@,
                (start.child_count + k) as usize,
                identifiers@[k],
                1,
                false,
                pass_through(TInner::identity()),
                ghost_progress(peers),
            ) by {
                if k < i {
                    assert(builder.children@[start.children@.len() + k]
                        == before[start.children@.len() + k]);
                } else {
                    assert(builder.children@[start.children@.len() + k]
                        == builder.children@.last());
                }
            }
        }
        i += 1;
    }
    assert(event_views(announced@) =~= ghosts_announced(start.path@, texts(names@), identifiers@));
    (r, announced)
}

/// `nodes`, numbered from zero.
fn number_nodes(nodes: &Vec<usize>) -> (r: Vec<(usize, usize)>)
    ensures
        r@ == numbered(nodes@),
{
    let mut r: Vec<(usize, usize)> = Vec::new();
    let mut k: usize = 0;
    while k < nodes.len()
        invariant
            k <= nodes@.len(),
            r@ == numbered(nodes@.take(k as int)),
        decreases nodes@.len() - k,
    {
        r.push((k, nodes[k]));
        assert(r@ =~= numbered(nodes@.take(k + 1)));
        k += 1;
    }
    assert(nodes@.take(k as int) =~= nodes@);
    r
}

/// The edges that join each of `nodes` to the next.
pub fn chain_nodes(nodes: &Vec<usize>) -> (r: Vec<(usize, usize)>)
    ensures
        r@ == chain(nodes@),
{
    let mut r: Vec<(usize, usize)> = Vec::new();
    let mut k: usize = 1;
    while k < nodes.len()
        invariant
            1 <= k,
            nodes@.len() == 0 ==> k == 1,
            nodes@.len() > 0 ==> k <= nodes@.len(),
            r@.len() == k - 1,
            forall|i: int| 0 <= i < k - 1 ==> #[trigger] r@[i] == (nodes@[i], nodes@[i + 1]),
        decreases nodes@.len() - k,
    {
        r.push((nodes[k - 1], nodes[k]));
        k += 1;
    }
    assert(r@ =~= chain(nodes@));
    r
}

/// What announces device-side nodes, the operator `wrapper` that stands for them and, where
/// `collects` says so, the collector. The nodes have the address of the scope.
pub open spec fn all_announced(
    path: Seq<usize>,
    names: Seq<Seq<char>>,
    identifiers: Seq<usize>,
    wrapper: usize,
    collects: bool,
) -> Seq<(usize, Seq<usize>, Seq<char>)> {
    let n = names.len() as int;
    let first = ghosts_announced(path, names, identifiers).push(
        (identifiers[n], path.push(wrapper), "Wrapper"@),
    );
    if collects {
        first.push((identifiers[n + 1], path.push((wrapper + 1) as usize), "Collector"@))
    } else {
        first
    }
}

/// Whether registering turns the scope `before` into `after`: device-side nodes with `names`,
/// each joined to the next; the operator that stands for them, which takes in what comes from
/// `stream`; and, where `collects` says so, the operator that collects what the device returns.
pub open spec fn registered_with<TOuter: Timestamp, TInner: Refines<TOuter>>(
    before: &SubgraphBuilder<TOuter, TInner>,
    after: &SubgraphBuilder<TOuter, TInner>,
    r: &Registered,
    stream: Source,
    names: Seq<Seq<char>>,
    identifiers: Seq<usize>,
    peers: usize,
    collects: bool,
) -> bool {
    &&& r.ghosts@ == run_of(before.child_count, names.len())
    &&& r.wrapper == before.child_count + names.len()
    &&& r.collector == (if collects {
        Some((r.wrapper + 1) as usize)
    } else {
        None
    })
    &&& r.stream == (Source { node: r.wrapper, port: 0 })
    &&& event_views(r.announced@) == all_announced(
        before.path@,
        names,
        identifiers,
        r.wrapper,
        collects,
    )
    &&& *after == (SubgraphBuilder {
        child_count: after.child_count,
        children: after.children,
        edge_stash: after.edge_stash,
        wrapper_ghost: after.wrapper_ghost,
        ghost_wrapper: after.ghost_wrapper,
        wrapper_ghost_edges: after.wrapper_ghost_edges,
        ..*before
    })
    &&& after.child_count == r.wrapper + (if collects {
        2int
    } else {
        1int
    })
    &&& after.edge_stash@ == before.edge_stash@.push(
        (stream, Target { node: r.wrapper, port: 0 }),
    )
    &&& after.children@.len() == before.children@.len() + names.len() + (if collects {
        2int
    } else {
        1int
    })
    &&& after.children@.take(before.children@.len() as int) == before.children@
    &&& forall|i: int|
        before.children@.len() <= i < before.children@.len() + names.len() ==> is_added(
            #[trigger] after.children@[i],
            names[i - before.children@.len()],
            r.ghosts@[i - before.children@.len()],
            identifiers[i - before.children@.len()],
            1,
            false,
            pass_through(TInner::identity()),
            ghost_progress(peers),
        )
    &&& is_added(
        after.children@[(before.children@.len() + names.len()) as int],
        "Wrapper"@,
        r.wrapper,
        identifiers[names.len() as int],
        1,
        true,
        pass_through(TInner::identity()),
        wrapper_progress(r.ghosts@, peers),
    )
    &&& collects ==> is_added(
        after.children@.last(),
        "Collector"@,
        (r.wrapper + 1) as usize,
        identifiers[(names.len() + 1) as int],
        0,
        true,
        Seq::empty(),
        nothing_reported::<TInner>(0, 0),
    )
    &&& after.wrapper_ghost@.dom() == before.wrapper_ghost@.dom().insert(r.wrapper)
    &&& after.wrapper_ghost@[r.wrapper]@ == r.ghosts@
    &&& forall|w: usize|
        w != r.wrapper && #[trigger] before.wrapper_ghost@.contains_key(w)
            ==> after.wrapper_ghost@[w] == before.wrapper_ghost@[w]
    &&& after.ghost_wrapper@ == all_sent(before.ghost_wrapper@, r.ghosts@, r.wrapper)
    &&& after.wrapper_ghost_edges@.dom() == before.wrapper_ghost_edges@.dom().insert(r.wrapper)
    &&& after.wrapper_ghost_edges@[r.wrapper]@ == chain(r.ghosts@)
    &&& forall|w: usize|
        w != r.wrapper && #[trigger] before.wrapper_ghost_edges@.contains_key(w)
            ==> after.wrapper_ghost_edges@[w] == before.wrapper_ghost_edges@[w]
}

/// How many operators are added beside the device-side nodes.
pub open spec fn host_side(collects: bool) -> nat {
    if collects {
        2
    } else {
        1
    }
}

/// A run of indexes names none twice.
pub proof fn lemma_run_distinct(from: usize, n: nat)
    requires
        from + n <= usize::MAX,
    ensures
        run_of(from, n).no_duplicates(),
{
}

/// Puts device-side nodes into a scope, one for each of `names`, each joined to the next; an
/// operator that stands for them, which takes in what comes from `stream`; and, where
/// `collects` says so, an operator that collects what the device returns. Nodes, operator and
/// collector have the worker-unique `identifiers` in this order.
pub fn register<TOuter: Timestamp, TInner: Refines<TOuter>>(
    builder: &mut SubgraphBuilder<TOuter, TInner>,
    stream: Source,
    names: &Vec<String>,
    identifiers: &Vec<usize>,
    peers: usize,
    collects: bool,
) -> (r: Registered)
    requires
        old(builder).child_count + names@.len() + host_side(collects) <= usize::MAX,
        names@.len() + host_side(collects) <= identifiers@.len(),
    ensures
        registered_with(
            old(builder),
            final(builder),
            &r,
            stream,
            texts(names@),
            identifiers@,
            peers,
            collects,
        ),
        old(builder).wf() ==> final(builder).wf(),
        old(builder).is_dense() ==> final(builder).is_dense(),
{
    let ghost start = *builder;
    let n: usize = names.len();
    let (ghosts, mut announced) = add_ghosts(builder, names, identifiers, peers);
    let ghost nodes_announced = event_views(announced@);
    let ghost with_ghosts = builder.children@;
    let wrapper: usize = builder.allocate_child_id();
    builder.connect(stream, Target::new(wrapper, 0));
    let collector: Option<usize> = if collects {
        Some(builder.allocate_child_id())
    } else {
        None
    };
    let ghost_indexes = number_nodes(&ghosts);
    let operator: FpgaOperator<TInner> = FpgaOperator {
        shape: OperatorShape {
            name: "Wrapper".to_string(),
            notify: false,
            peers,
            inputs: 1,
            outputs: 1,
        },
        address: child_address(&builder.path, wrapper),
        shared_progress: SharedProgress::new_ghosts(1, 1, &ghosts),
        summary: pass_through_summary::<TInner>(),
        ghost_indexes,
    };
    proof {
        let internals = operator.shared_progress@.wrapper_internals;
        assert forall|k: int|
            0 <= k < operator.ghost_indexes@.len() implies internals.contains_key(
            (#[trigger] operator.ghost_indexes@[k]).1,
        ) by {
            assert(ghosts@[k] == operator.ghost_indexes@[k].1);
            assert(ghosts@.contains(ghosts@[k]));
        }
    }
    let info = operator.describe();
    let ghost said = info;
    announced.push(builder.add_child(info, wrapper, identifiers[n]));
    assert(event_views(announced@) =~= nodes_announced.push(
        (identifiers@[n as int], start.path@.push(wrapper), "Wrapper"@),
    ));
    let ghost with_wrapper_announced = event_views(announced@);
    let ghost with_wrapper = builder.children@;
    proof {
        lemma_added(with_wrapper.last(), said, wrapper, identifiers@[n as int], true);
        assert forall|k: int| 0 <= k < with_ghosts.len() implies #[trigger] with_wrapper[k]
            == with_ghosts[k] by {
            assert(with_wrapper.drop_last()[k] == with_ghosts[k]);
        }
    }
    if let Some(index) = collector {
        let collector_info: OperatorInfo<TInner> = OperatorInfo {
            name: "Collector".to_string(),
            local: true,
            notify: false,
            inputs: 0,
            outputs: 0,
            internal_summary: Vec::new(),
            shared_progress: SharedProgress::new(0, 0),
        };
        let ghost described = collector_info;
        announced.push(builder.add_child(collector_info, index, identifiers[n + 1]));
        assert(event_views(announced@) =~= with_wrapper_announced.push(
            (identifiers@[n + 1], start.path@.push(index), "Collector"@),
        ));
        proof {
            lemma_added(builder.children@.last(), described, index, identifiers@[n + 1], true);
            assert(summary_elements(builder.children@.last().internal_summary@) =~= Seq::<
                Seq<Seq<TInner::Summary>>,
            >::empty());
            assert forall|k: int| 0 <= k < with_wrapper.len() implies #[trigger] builder.children@[k]
                == with_wrapper[k] by {
                assert(builder.children@.drop_last()[k] == with_wrapper[k]);
            }
        }
    }
    let edges = chain_nodes(&ghosts);
    let list = ghosts.clone();
    assert(list@ =~= ghosts@);
    builder.add_fpga_operator(wrapper, list, edges);
    proof {
        assert(builder.children@.take(start.children@.len() as int) =~= start.children@) by {
            assert forall|k: int| 0 <= k < start.children@.len() implies builder.children@[k]
                == start.children@[k] by {
                assert(with_ghosts.take(start.children@.len() as int)[k] == start.children@[k]);
                assert(with_wrapper[k] == with_ghosts[k]);
            }
        }
        let from = start.children@.len();
        assert forall|i: int| from <= i < from + texts(names@).len() implies is_added(
            #[trigger] builder.children@[i],
            texts(names@)[i - from],
            ghosts@[i - from],
            identifiers@[i - from],
            1,
            false,
            pass_through(TInner::identity()),
            ghost_progress(peers),
        ) by {
            assert(with_wrapper[i] == with_ghosts[from + (i - from)]);
        }
        assert(builder.wrapper_ghost@.dom() =~= start.wrapper_ghost@.dom().insert(wrapper));
        assert(builder.wrapper_ghost_edges@.dom() =~= start.wrapper_ghost_edges@.dom().insert(
            wrapper,
        ));
    }
    proof {
        if start.is_dense() {
            let before = start.children@.len();
            assert forall|k: int| 0 <= k < builder.children@.len() implies (
            #[trigger] builder.children@[k]).index == k by {
                if k < before {
                    assert(builder.children@.take(before as int)[k] == start.children@[k]);
                } else if k < before + n {
                    assert(builder.children@[k].index == ghosts@[k - before]);
                }
            }
        }
    }
    Registered { ghosts, wrapper, collector, stream: Source::new(wrapper, 0), announced }
}

/// Puts as many filters on the device as `num_operators`, and the operator that stands for them,
/// into a scope, behind `stream`.
pub fn register_filters<TOuter: Timestamp, TInner: Refines<TOuter>>(
    builder: &mut SubgraphBuilder<TOuter, TInner>,
    stream: Source,
    num_operators: usize,
    identifiers: &Vec<usize>,
    peers: usize,
) -> (r: (Registered, WrapperState))
    requires
        old(builder).child_count + num_operators + 1 <= usize::MAX,
        num_operators + 1 <= identifiers@.len(),
    ensures
        registered_with(
            old(builder),
            final(builder),
            &r.0,
            stream,
            name_list("Filter"@, num_operators as nat),
            identifiers@,
            peers,
            false,
        ),
        old(builder).wf() ==> final(builder).wf(),
        old(builder).is_dense() ==> final(builder).is_dense(),
        r.1.wf(),
        r.1.ghost_indexes@ == numbered(r.0.ghosts@),
        r.1.is_fresh(),
{
    let names = numbered_names("Filter", num_operators);
    let registered = register(builder, stream, &names, identifiers, peers, false);
    proof {
        lemma_run_distinct(old(builder).child_count, names@.len());
    }
    let state = WrapperState::new(&registered.ghosts);
    assert(state.ghost_indexes@ =~= numbered(registered.ghosts@));
    (registered, state)
}

/// Capability changes at nodes other than those that `ghosts` names first stay as they are.
proof fn lemma_reserved_other(
    m: Map<usize, Seq<Seq<(u64, i64)>>>,
    ghosts: Seq<(usize, usize)>,
    peers: usize,
    n: nat,
    node: usize,
)
    requires
        n <= ghosts.len(),
        forall|k: int| 0 <= k < n ==> (#[trigger] ghosts[k]).1 != node,
    ensures
        reserved(m, ghosts, peers, n)[node] == m[node],
        given_up(m, ghosts, n)[node] == m[node],
    decreases n,
{
    if n > 0 {
        lemma_reserved_other(m, ghosts, peers, (n - 1) as nat, node);
        assert(ghosts[n - 1].1 != node);
    }
}

/// What is said of a node once does not change with the nodes after it.
proof fn lemma_reserved_at(
    m: Map<usize, Seq<Seq<(u64, i64)>>>,
    ghosts: Seq<(usize, usize)>,
    peers: usize,
    n: nat,
    k: int,
)
    requires
        numbers_nodes(ghosts),
        0 <= k < n <= ghosts.len(),
    ensures
        reserved(m, ghosts, peers, n)[ghosts[k].1] == each_updated(
            m[ghosts[k].1],
            u64::least(),
            peers as i64,
        ),
        given_up(m, ghosts, n)[ghosts[k].1] == m[ghosts[k].1].update(
            0,
            updated(m[ghosts[k].1][0], u64::least(), (-1) as i64),
        ),
    decreases n,
{
    if k == n - 1 {
        lemma_reserved_other(m, ghosts, peers, (n - 1) as nat, ghosts[k].1);
    } else {
        lemma_reserved_at(m, ghosts, peers, (n - 1) as nat, k);
        assert(ghosts[k].1 != ghosts[n - 1].1);
    }
}

/// A device-side node ends up with as many capabilities as there are other workers: of those
/// that are reserved for it when it is added, one for each worker, one is given up in the first
/// round. Where there is one worker, none are left.
pub proof fn law_initial_capabilities(ghosts: Seq<usize>, peers: usize, k: int)
    requires
        ghosts.no_duplicates(),
        0 <= k < ghosts.len(),
        0 < peers,
        peers <= i64::MAX,
        ghosts.len() <= usize::MAX,
    ensures
        ({
            let first = wrapper_progress::<u64>(ghosts, peers).wrapper_internals;
            let next = given_up(first, numbered(ghosts), ghosts.len());
            next[ghosts[k]] == seq![
                updated(Seq::<(u64, i64)>::empty(), u64::least(), (peers - 1) as i64),
            ]
        }),
{
    let pairs = numbered(ghosts);
    let m = no_node_changes::<u64>(ghosts, 1);
    let first = reserved(m, pairs, peers, ghosts.len());
    assert(pairs[k].1 == ghosts[k]);
    assert(ghosts.contains(ghosts[k]));
    assert(numbers_nodes(pairs)) by {
        assert forall|a: int, b: int| 0 <= a < b < pairs.len() implies (
        #[trigger] pairs[a]).1 != (#[trigger] pairs[b]).1 by {
            assert(ghosts[a] != ghosts[b]);
        }
    }
    lemma_reserved_at(m, pairs, peers, ghosts.len(), k);
    lemma_reserved_at(first, pairs, peers, ghosts.len(), k);
    let none = Seq::<(u64, i64)>::empty();
    let held = updated(none, u64::least(), peers as i64);
    let left = updated(held, u64::least(), (-1) as i64);
    assert(m[ghosts[k]] =~= seq![none]);
    assert(each_updated(m[ghosts[k]], u64::least(), peers as i64) =~= seq![held]);
    let goal = updated(none, u64::least(), (peers - 1) as i64);
    assert(compacted(none));
    law_update_counts(none, u64::least(), peers as i64, u64::least());
    law_update_counts(none, u64::least(), (peers - 1) as i64, u64::least());
    law_update_counts(held, u64::least(), (-1) as i64, u64::least());
    assert forall|t: u64| #[trigger] count(left, t) == count(goal, t) by {
        law_update_counts(none, u64::least(), peers as i64, t);
        law_update_counts(none, u64::least(), (peers - 1) as i64, t);
        law_update_counts(held, u64::least(), (-1) as i64, t);
    }
    law_counts_determine(left, goal);
    assert(seq![held].update(0, left) =~= seq![goal]);
}

/// Where device-side nodes and the operator that stands for them are put: the nodes get the next
/// indexes, one after the other, and the operator the one behind them. The operator takes in the
/// stream; each node leads to the next; and each is sent to the operator, while others are sent
/// where they were before.
pub proof fn law_nodes_registered<TOuter: Timestamp, TInner: Refines<TOuter>>(
    before: &SubgraphBuilder<TOuter, TInner>,
    after: &SubgraphBuilder<TOuter, TInner>,
    r: &Registered,
    stream: Source,
    names: Seq<Seq<char>>,
    identifiers: Seq<usize>,
    peers: usize,
    collects: bool,
    k: int,
    other: usize,
)
    requires
        registered_with(before, after, r, stream, names, identifiers, peers, collects),
        before.child_count + names.len() + 2 <= usize::MAX,
        0 <= k < names.len(),
    ensures
        r.ghosts@.len() == names.len(),
        r.ghosts@[k] == before.child_count + k,
        r.wrapper == before.child_count + names.len(),
        r.collector is Some <==> collects,
        collects ==> r.collector == Some((r.wrapper + 1) as usize),
        r.stream == (Source { node: r.wrapper, port: 0 }),
        after.child_count == before.child_count + names.len() + (if collects {
            2int
        } else {
            1
        }),
        after.edge_stash@.len() == before.edge_stash@.len() + 1,
        after.edge_stash@.drop_last() == before.edge_stash@,
        after.edge_stash@.last() == (stream, Target { node: r.wrapper, port: 0 }),
        after.ghost_edge_stash == before.ghost_edge_stash,
        after.input_messages == before.input_messages,
        after.output_capabilities == before.output_capabilities,
        after.wrapper_ghost@[r.wrapper]@ == r.ghosts@,
        after.wrapper_ghost_edges@[r.wrapper]@.len() == names.len() - 1,
        k + 1 < names.len() ==> after.wrapper_ghost_edges@[r.wrapper]@[k] == (
            (before.child_count + k) as usize,
            (before.child_count + k + 1) as usize,
        ),
        after.ghost_wrapper@.contains_key(r.ghosts@[k]),
        after.ghost_wrapper@[r.ghosts@[k]] == r.wrapper,
        !r.ghosts@.contains(other) ==> (after.ghost_wrapper@.contains_key(other)
            <==> before.ghost_wrapper@.contains_key(other)),
        !r.ghosts@.contains(other) && before.ghost_wrapper@.contains_key(other)
            ==> after.ghost_wrapper@[other] == before.ghost_wrapper@[other],
        other != r.wrapper && before.wrapper_ghost@.contains_key(other)
            ==> after.wrapper_ghost@.contains_key(other) && after.wrapper_ghost@[other]
            == before.wrapper_ghost@[other],
{
    law_nodes_sent(before.ghost_wrapper@, r.ghosts@, r.wrapper, r.ghosts@[k]);
    law_nodes_sent(before.ghost_wrapper@, r.ghosts@, r.wrapper, other);
    assert(r.ghosts@.contains(r.ghosts@[k]));
    assert(after.edge_stash@.drop_last() =~= before.edge_stash@);
}

/// What is put there: behind the children of before, a child for each node, with its name and
/// identifier, one input and one output, that hands times through as they are, is not incomplete,
/// and holds a capability for each worker at the least time; then the operator that stands for the
/// nodes, which is incomplete, and holds such capabilities for each of them and none of its own.
pub proof fn law_children_registered<TOuter: Timestamp, TInner: Refines<TOuter>>(
    before: &SubgraphBuilder<TOuter, TInner>,
    after: &SubgraphBuilder<TOuter, TInner>,
    r: &Registered,
    stream: Source,
    names: Seq<Seq<char>>,
    identifiers: Seq<usize>,
    peers: usize,
    collects: bool,
    k: int,
)
    requires
        registered_with(before, after, r, stream, names, identifiers, peers, collects),
        before.child_count + names.len() + 2 <= usize::MAX,
        peers <= i64::MAX,
        0 <= k < names.len(),
    ensures
        after.children@.take(before.children@.len() as int) == before.children@,
        after.children@.len() == before.children@.len() + names.len() + (if collects {
            2int
        } else {
            1
        }),
        ({
            let child = after.children@[before.children@.len() + k];
            &&& child.name@ == names[k]
            &&& child.index == before.child_count + k
            &&& child.id == identifiers[k]
            &&& child.inputs == 1 && child.outputs == 1
            &&& child.local && !child.notify && child.running
            &&& !child.count_for_incomplete
            &&& child.edges@.len() == 1 && child.edges@[0]@.len() == 0
            &&& summary_elements(child.internal_summary@) == seq![seq![seq![TInner::identity()]]]
            &&& child.shared_progress@.internals.len() == 1
            &&& count(child.shared_progress@.internals[0], TInner::least()) == peers
            &&& child.shared_progress@.internals[0].len() <= 1
            &&& child.shared_progress@.consumeds.len() == 1
            &&& child.shared_progress@.consumeds[0].len() == 0
            &&& child.shared_progress@.produceds.len() == 1
            &&& child.shared_progress@.produceds[0].len() == 0
            &&& child.shared_progress@.frontiers.len() == 1
            &&& child.shared_progress@.frontiers[0].len() == 0
        }),
        ({
            let child = after.children@[(before.children@.len() + names.len()) as int];
            let node = r.ghosts@[k];
            &&& child.name@ == "Wrapper"@
            &&& child.index == before.child_count + names.len()
            &&& child.id == identifiers[names.len() as int]
            &&& child.inputs == 1 && child.outputs == 1
            &&& child.local && !child.notify && child.running
            &&& child.count_for_incomplete
            &&& summary_elements(child.internal_summary@) == seq![seq![seq![TInner::identity()]]]
            &&& child.shared_progress@.internals.len() == 1
            &&& child.shared_progress@.internals[0].len() == 0
            &&& child.shared_progress@.wrapper_internals[node].len() == 1
            &&& count(child.shared_progress@.wrapper_internals[node][0], TInner::least()) == peers
            &&& child.shared_progress@.wrapper_internals[node][0].len() <= 1
            &&& child.shared_progress@.wrapper_consumeds[node].len() == 1
            &&& child.shared_progress@.wrapper_consumeds[node][0].len() == 0
            &&& child.shared_progress@.wrapper_produceds[node].len() == 1
            &&& child.shared_progress@.wrapper_produceds[node][0].len() == 0
            &&& child.shared_progress@.wrapper_frontiers[node].len() == 1
            &&& child.shared_progress@.wrapper_frontiers[node][0].len() == 0
        }),
        collects ==> {
            let child = after.children@.last();
            &&& child.name@ == "Collector"@
            &&& child.index == r.wrapper + 1
            &&& child.id == identifiers[(names.len() + 1) as int]
            &&& child.inputs == 0 && child.outputs == 0
            &&& child.count_for_incomplete
        },
{
    let none = Seq::<(TInner, i64)>::empty();
    let at = TInner::least();
    law_update_counts(none, at, peers as i64, at);
    let ghosts = r.ghosts@;
    let places = numbered(ghosts);
    let node = ghosts[k];
    assert(ghosts.contains(node));
    assert(is_added(
        after.children@[before.children@.len() + k],
        names[k],
        ghosts[k],
        identifiers[k],
        1,
        false,
        pass_through(TInner::identity()),
        ghost_progress(peers),
    ));
    lemma_run_distinct(before.child_count, names.len());
    assert forall|i: int, j: int| 0 <= i < j < places.len() implies (#[trigger] places[i]).1 != (
    #[trigger] places[j]).1 by {
        assert(ghosts[i] != ghosts[j]);
    }
    law_capabilities_reserved(
        no_node_changes::<TInner>(ghosts, 1),
        places,
        peers,
        ghosts.len(),
        node,
    );
    assert(places[k].1 == node);
}

/// What is announced: each node, at the address of the scope; then the operator that stands for the
/// nodes, and the one that collects, if there is one, each at its own address.
pub proof fn law_all_announced(
    path: Seq<usize>,
    names: Seq<Seq<char>>,
    identifiers: Seq<usize>,
    wrapper: usize,
    collects: bool,
    k: int,
)
    requires
        0 <= k < names.len(),
        wrapper < usize::MAX,
    ensures
        ({
            let all = all_announced(path, names, identifiers, wrapper, collects);
            let n = names.len() as int;
            &&& all.len() == n + (if collects {
                2int
            } else {
                1
            })
            &&& all[k] == (identifiers[k], path, names[k])
            &&& all[n] == (identifiers[n], path.push(wrapper), "Wrapper"@)
            &&& collects ==> all[n + 1] == (
                identifiers[n + 1],
                path.push((wrapper + 1) as usize),
                "Collector"@,
            )
        }),
{
}

/// Nodes are numbered from zero, and each is joined to the next.
pub proof fn law_nodes_chained(nodes: Seq<usize>, k: int)
    requires
        0 <= k < nodes.len(),
        nodes.len() <= usize::MAX,
    ensures
        numbered(nodes).len() == nodes.len(),
        numbered(nodes)[k] == (k as usize, nodes[k]),
        chain(nodes).len() == nodes.len() - 1,
        k + 1 < nodes.len() ==> chain(nodes)[k] == (nodes[k], nodes[k + 1]),
        chain(Seq::empty()).len() == 0,
{
}

} // verus!
