use timely_fpga::assembly::sends_eagerly;
use timely_fpga::change_batch::ChangeBatch;
use timely_fpga::fpga_wrapper::{
    collect, frame_round, generate_fpga_output, FpgaWrapper, HardwareCommon, Outstanding,
};
use timely_fpga::frontier::{Antichain, MutableAntichain};
use timely_fpga::location::{Location, Pointstamp, Source, Target};
use timely_fpga::logging::{OperatesEvent, ShutdownEvent};
use timely_fpga::per_operator::{OperatorInfo, ProgressError};
use timely_fpga::reachability::{PerOperator, PortInfo, Topology};
use timely_fpga::shared_progress::SharedProgress;
use timely_fpga::subgraph::Subgraph;
use timely_fpga::subgraph_builder::SubgraphBuilder;

fn stamp(location: Location, time: u64) -> Pointstamp<u64> {
    Pointstamp { location, time }
}

fn info(name: &str, inputs: usize, outputs: usize) -> OperatorInfo<u64> {
    let mut summary = Vec::new();
    for _ in 0..inputs {
        let mut row = Vec::new();
        for _ in 0..outputs {
            row.push(Antichain::from_elem(0));
        }
        summary.push(row);
    }
    OperatorInfo {
        name: name.to_string(),
        local: true,
        notify: true,
        inputs,
        outputs,
        internal_summary: summary,
        shared_progress: SharedProgress::new(inputs, outputs),
    }
}

fn add(builder: &mut SubgraphBuilder<u64, u64>, child: OperatorInfo<u64>) -> usize {
    let index = builder.allocate_child_id();
    builder.add_child(child, index, 100 + index);
    index
}

fn empty_state() -> PerOperator<u64> {
    let mut targets = Vec::new();
    let mut sources = Vec::new();
    for _ in 0..2 {
        targets.push(PortInfo {
            pointstamps: MutableAntichain::new(),
            implications: MutableAntichain::new(),
        });
        sources.push(PortInfo {
            pointstamps: MutableAntichain::new(),
            implications: MutableAntichain::new(),
        });
    }
    PerOperator { targets, sources }
}

/// A scope with one input and one output, and three operators in a row between them.
fn chain(mode: Option<String>) -> (Subgraph<u64, u64>, Topology<u64>) {
    let mut builder: SubgraphBuilder<u64, u64> =
        SubgraphBuilder::new_from(7, vec![4], "Chain");
    let input = builder.new_input(ChangeBatch::new());
    assert_eq!(input, Target::new(7, 0));
    let output = builder.new_output();
    assert_eq!(output, Source::new(7, 0));
    let first = add(&mut builder, info("First", 1, 1));
    let second = add(&mut builder, info("Second", 1, 1));
    let third = add(&mut builder, info("Third", 1, 1));
    builder.connect(Source::new(0, 0), Target::new(first, 0));
    builder.connect(Source::new(first, 0), Target::new(second, 0));
    builder.connect(Source::new(second, 0), Target::new(third, 0));
    builder.connect(Source::new(third, 0), Target::new(0, 0));
    builder.build(mode)
}

/// An input, a filter on the device with the operator that stands for it and the collector, and
/// an operator that takes what comes back.
fn with_device() -> (Subgraph<u64, u64>, Topology<u64>, timely_fpga::device::WrapperState) {
    let mut builder: SubgraphBuilder<u64, u64> = SubgraphBuilder::new_from(0, vec![], "Device");
    let mut input = info("Input", 0, 1);
    input.shared_progress.internals[0].update(0, 1);
    let input = add(&mut builder, input);
    let (registered, state) =
        builder.fpga_wrapper(Source::new(input, 0), &vec![20, 21, 22], 1);
    assert_eq!(registered.ghosts, vec![2]);
    assert_eq!(registered.wrapper, 3);
    assert_eq!(registered.collector, Some(4));
    assert_eq!(registered.stream, Source::new(3, 0));
    let last = add(&mut builder, info("Last", 1, 0));
    builder.connect(registered.stream, Target::new(last, 0));
    let (scope, topology) = builder.build(None);
    (scope, topology, state)
}

#[test]
fn a_builder_starts_with_the_outside() {
    let mut builder: SubgraphBuilder<u64, u64> =
        SubgraphBuilder::new_from(2, vec![0, 1], "Scope");
    assert_eq!(builder.name, "Scope");
    assert_eq!(builder.path, vec![0, 1, 2]);
    assert_eq!(builder.index, 2);
    assert_eq!(builder.children.len(), 1);
    assert_eq!(builder.children[0].name, "External");
    assert_eq!(builder.allocate_child_id(), 1);
    assert_eq!(builder.allocate_child_id(), 2);
    assert_eq!(builder.new_input(ChangeBatch::new()), Target::new(2, 0));
    assert_eq!(builder.new_input(ChangeBatch::new()), Target::new(2, 1));
    assert_eq!(builder.new_output(), Source::new(2, 0));
    assert_eq!(builder.new_output(), Source::new(2, 1));
}

#[test]
fn children_without_a_path_do_not_count_as_incomplete() {
    let mut builder: SubgraphBuilder<u64, u64> = SubgraphBuilder::new_from(0, vec![], "Scope");
    builder.add_child(info("One", 1, 1), 1, 10);
    builder.add_child_no_path(info("Two", 1, 1), 2, 11);
    assert!(builder.children[1].count_for_incomplete);
    assert!(!builder.children[2].count_for_incomplete);
    assert_eq!(builder.children[2].id, 11);
}

#[test]
fn edges_lead_to_the_device_in_place_of_the_operator_that_stands_for_it() {
    let mut builder: SubgraphBuilder<u64, u64> = SubgraphBuilder::new_from(0, vec![], "Scope");
    builder.connect(Source::new(1, 0), Target::new(4, 0));
    builder.connect(Source::new(1, 0), Target::new(6, 0));
    builder.connect(Source::new(4, 0), Target::new(5, 1));
    builder.add_fpga_operator(4, vec![2, 3], vec![(2, 3)]);
    assert_eq!(builder.wrapper_order(), vec![4]);
    assert_eq!(builder.ghost_wrapper[&2], 4);
    assert_eq!(builder.ghost_wrapper[&3], 4);
    builder.reorganize_edges();
    assert_eq!(
        builder.ghost_edge_stash,
        vec![
            (Source::new(1, 0), Target::new(6, 0)),
            (Source::new(1, 0), Target::new(2, 0)),
            (Source::new(3, 0), Target::new(5, 1)),
            (Source::new(2, 0), Target::new(3, 0)),
        ]
    );
    assert_eq!(builder.wrapper_ghost_edges[&4], vec![(2, 3), (1, 2), (3, 5)]);
    assert_eq!(builder.edge_stash.len(), 3);
}

#[test]
fn the_order_of_wrappers_is_the_order_of_their_edges() {
    let mut builder: SubgraphBuilder<u64, u64> = SubgraphBuilder::new_from(0, vec![], "Scope");
    builder.add_fpga_operator(4, vec![2], vec![]);
    builder.add_fpga_operator(5, vec![3], vec![]);
    builder.reorganize_edges_in(&vec![5, 4]);
    assert_eq!(
        builder.ghost_edge_stash,
        vec![
            (Source::new(0, 0), Target::new(3, 0)),
            (Source::new(3, 0), Target::new(0, 0)),
            (Source::new(0, 0), Target::new(2, 0)),
            (Source::new(2, 0), Target::new(0, 0)),
        ]
    );
}

#[test]
fn children_are_sorted_by_index() {
    let mut builder: SubgraphBuilder<u64, u64> = SubgraphBuilder::new_from(0, vec![], "Scope");
    builder.add_child(info("Three", 0, 0), 3, 30);
    builder.add_child(info("One", 0, 0), 1, 10);
    builder.add_child(info("Two", 0, 0), 2, 20);
    let (scope, topology) = builder.build(None);
    let names: Vec<&str> = scope.children.iter().map(|c| c.name.as_str()).collect();
    assert_eq!(names, vec!["External", "One", "Two", "Three"]);
    assert_eq!(topology.nodes.len(), 4);
    assert_eq!(topology.nodes[3].index, 3);
    assert_eq!(scope.incomplete, vec![false, true, true, true]);
    assert_eq!(scope.incomplete_count, 3);
}

#[test]
fn a_scope_may_have_few_operators() {
    let mut builder: SubgraphBuilder<u64, u64> = SubgraphBuilder::new_from(0, vec![], "Scope");
    let first = add(&mut builder, info("First", 0, 1));
    let second = add(&mut builder, info("Second", 1, 0));
    builder.connect(Source::new(first, 0), Target::new(second, 0));
    assert!(builder.check_buildable());
    let (scope, _) = builder.build(None);
    assert!(scope.check());
    assert_eq!(scope.incomplete, vec![false, true, true]);
    assert_eq!(scope.incomplete_count, 2);

    let builder: SubgraphBuilder<u64, u64> = SubgraphBuilder::new_from(0, vec![], "Empty");
    assert!(builder.check_buildable());
    let (scope, _) = builder.build(None);
    assert!(scope.check());
    assert_eq!(scope.incomplete_count, 0);
    assert_eq!(scope.end_schedule(false), (false, false));
}

#[test]
fn a_scope_that_cannot_be_built_is_found_out() {
    let scope = |indexes: &[usize]| {
        let mut builder: SubgraphBuilder<u64, u64> =
            SubgraphBuilder::new_from(0, vec![], "Scope");
        for index in indexes {
            builder.add_child(info("Operator", 0, 1), *index, 100 + index);
        }
        builder
    };
    assert!(scope(&[2, 1]).check_buildable());
    assert!(!scope(&[1, 1]).check_buildable());
    assert!(!scope(&[1, 3]).check_buildable());
    assert!(!scope(&[0, 1]).check_buildable());
    let mut builder = scope(&[1]);
    builder.connect(Source::new(1, 0), Target::new(0, 0));
    assert!(builder.check_buildable());
    builder.connect(Source::new(1, 1), Target::new(0, 0));
    assert!(!builder.check_buildable());
    let mut builder = scope(&[1]);
    builder.add_fpga_operator(1, vec![], vec![]);
    assert!(!builder.check_buildable());
}

#[test]
fn a_scope_out_of_shape_is_found_out() {
    let (mut scope, _) = chain(None);
    assert!(scope.check());
    scope.incomplete_count = 0;
    assert!(!scope.check());
    scope.incomplete_count = 3;
    scope.children[2].shared_progress.internals.pop();
    assert!(!scope.check());
    let (mut scope, _) = chain(None);
    scope.final_pointstamp.update(stamp(Location::new_target(0, 0), 1), 1);
    assert!(scope.check());
    scope.final_pointstamp.update(stamp(Location::new_target(0, 1), 1), 1);
    assert!(!scope.check());
    let (scope, _, _) = with_device();
    assert!(scope.check());
}

#[test]
fn adding_a_child_announces_it() {
    let mut builder: SubgraphBuilder<u64, u64> =
        SubgraphBuilder::new_from(2, vec![5], "Scope");
    assert_eq!(
        builder.add_child(info("One", 0, 0), 1, 10),
        OperatesEvent { id: 10, addr: vec![5, 2, 1], name: "One".to_string() }
    );
    assert_eq!(
        builder.add_child_no_path(info("Two", 0, 0), 2, 11),
        OperatesEvent { id: 11, addr: vec![5, 2], name: "Two".to_string() }
    );
}

#[test]
fn progress_is_sent_at_once_unless_asked_otherwise() {
    assert!(sends_eagerly(&None));
    assert!(sends_eagerly(&Some("EAGER".to_string())));
    assert!(!sends_eagerly(&Some("DEMAND".to_string())));
}

#[test]
fn a_scope_is_built() {
    let (scope, topology) = chain(None);
    assert_eq!(scope.name(), "Chain");
    assert_eq!(scope.path(), &vec![4, 7]);
    assert!(!scope.local());
    assert_eq!((scope.inputs(), scope.outputs()), (1, 1));
    assert_eq!((scope.children[0].inputs, scope.children[0].outputs), (1, 1));
    assert_eq!(scope.running_children(), vec![1, 2, 3]);
    assert!(scope.eager_progress_send);
    assert_eq!(scope.children[2].edges, vec![vec![Target::new(3, 0)]]);
    assert_eq!(scope.children[2].ghost_edges, vec![vec![Target::new(3, 0)]]);
    assert_eq!(scope.children[0].ghost_edges, vec![vec![Target::new(1, 0)]]);
    assert_eq!(topology.nodes.len(), 4);
    assert_eq!(topology.nodes[0].summary.len(), 1);
    assert!(topology.nodes[0].summary[0][0].elements().is_empty());
    assert_eq!(topology.nodes[1].summary[0][0].elements(), &vec![0]);
    assert_eq!(topology.edges.len(), 4);
}

#[test]
fn the_operator_that_stands_for_the_device_is_not_tracked() {
    let (scope, topology, _) = with_device();
    let nodes: Vec<usize> = topology.nodes.iter().map(|n| n.index).collect();
    assert_eq!(nodes, vec![0, 1, 2, 4, 5]);
    assert_eq!(
        topology.edges,
        vec![
            (Source::new(1, 0), Target::new(2, 0)),
            (Source::new(2, 0), Target::new(5, 0)),
        ]
    );
    assert_eq!(scope.children[1].edges, vec![vec![Target::new(3, 0)]]);
    assert_eq!(scope.children[1].ghost_edges, vec![vec![Target::new(2, 0)]]);
    assert_eq!(scope.children[3].edges, vec![vec![Target::new(5, 0)]]);
    assert_eq!(scope.children[3].ghost_edges, vec![Vec::new()]);
    assert_eq!(scope.wrapper_ghost_edges[&3], vec![(1, 2), (2, 5)]);
    assert_eq!(scope.incomplete, vec![false, true, false, true, true, true]);
    assert_eq!(scope.incomplete_count, 4);
}

#[test]
fn frontiers_and_messages_enter_a_scope() {
    let (mut scope, _) = chain(None);
    scope.shared_progress.frontiers[0].update(4, 1);
    scope.input_messages[0].update(4, 3);
    let updates = scope.begin_schedule(&vec![
        (stamp(Location::new_source(0, 0), 4), -3),
        (stamp(Location::new_target(0, 0), 5), 2),
        (stamp(Location::new_target(1, 0), 4), 3),
    ]);
    assert_eq!(updates.sources, vec![(Source::new(0, 0), 4, 1)]);
    assert_eq!(updates.pointstamps, vec![(stamp(Location::new_target(1, 0), 4), 3)]);
    assert!(scope.shared_progress.frontiers[0].is_empty());
    assert!(scope.input_messages[0].is_empty());
    assert_eq!(scope.shared_progress.consumeds[0].entries(), &vec![(4, 3)]);
    assert_eq!(scope.shared_progress.produceds[0].entries(), &vec![(5, 2)]);
    assert_eq!(
        scope.local_pointstamp.entries(),
        &vec![
            (stamp(Location::new_source(0, 0), 4), -3),
            (stamp(Location::new_target(1, 0), 4), 3),
        ]
    );
}

#[test]
fn the_steps_of_a_round_can_be_taken_one_by_one() {
    let (mut scope, _) = chain(None);
    scope.shared_progress.frontiers[0].update(2, 1);
    assert_eq!(scope.accept_frontier(), vec![(Source::new(0, 0), 2, 1)]);
    assert_eq!(scope.accept_frontier(), Vec::new());
    scope.input_messages[0].update(2, 1);
    scope.harvest_inputs();
    assert_eq!(scope.local_pointstamp.entries().len(), 2);
    scope.final_pointstamp.update(stamp(Location::new_source(0, 0), 2), -1);
    assert_eq!(scope.commit_pointstamps(), Vec::new());
    assert_eq!(scope.shared_progress.consumeds[0].entries(), &vec![(2, 1)]);
}

#[test]
fn capabilities_surface_at_the_outputs() {
    let (mut scope, _) = chain(None);
    scope.report_outputs(&vec![vec![(6, 1)]]);
    assert_eq!(scope.shared_progress.internals[0].entries(), &vec![(6, 1)]);
    scope.report_outputs(&vec![vec![(8, 1)]]);
    assert_eq!(scope.shared_progress.internals[0].entries(), &vec![(6, 1)]);
    assert_eq!(scope.output_capabilities[0].frontier(), &vec![6]);
    scope.propagate_pointstamps(
        &vec![(stamp(Location::new_target(2, 0), 3), 1)],
        &vec![vec![(6, -1)]],
    );
    assert_eq!(scope.shared_progress.internals[0].entries(), &vec![(8, 1)]);
    assert_eq!(scope.children[2].shared_progress.frontiers[0].entries(), &vec![(3, 1)]);
    assert_eq!(scope.next_child(0), Some(2));
}

#[test]
fn changes_at_sources_wake_nobody() {
    let (mut scope, _) = chain(None);
    scope.deliver_frontiers(&vec![(stamp(Location::new_source(2, 0), 3), 1)]);
    assert_eq!(scope.next_child(0), None);
}

#[test]
fn the_operator_that_stands_for_the_device_is_woken_once() {
    let mut builder: SubgraphBuilder<u64, u64> = SubgraphBuilder::new_from(0, vec![], "Device");
    let input = add(&mut builder, info("Input", 0, 1));
    let names = vec!["Filter1".to_string(), "Filter2".to_string()];
    let registered = timely_fpga::registration::register(
        &mut builder,
        Source::new(input, 0),
        &names,
        &vec![1, 2, 3],
        1,
        false,
    );
    assert_eq!(registered.ghosts, vec![2, 3]);
    assert_eq!((registered.wrapper, registered.collector), (4, None));
    let (mut scope, _) = builder.build(None);
    scope.deliver_frontiers(&vec![
        (stamp(Location::new_target(2, 0), 1), 1),
        (stamp(Location::new_target(3, 0), 2), 1),
    ]);
    let wrapper = &scope.children[4].shared_progress;
    assert_eq!(wrapper.wrapper_frontiers[&2][0].entries(), &vec![(1, 1)]);
    assert_eq!(wrapper.wrapper_frontiers[&3][0].entries(), &vec![(2, 1)]);
    assert!(scope.children[2].shared_progress.frontiers[0].is_empty());
    assert_eq!(scope.next_child(0), Some(4));
    assert_eq!(scope.temp_active.pop(), None);
}

#[test]
fn children_are_scheduled_in_order_and_once() {
    let (mut scope, _) = chain(None);
    scope.enqueue(&vec![3, 1, 3]);
    assert_eq!(scope.next_child(0), Some(1));
    scope.enqueue(&vec![1, 2]);
    assert_eq!(scope.next_child(1), Some(2));
    assert_eq!(scope.next_child(2), Some(3));
    assert_eq!(scope.next_child(3), None);
}

#[test]
fn an_idle_child_is_closed() {
    let (mut scope, _) = chain(None);
    let mut state = empty_state();
    state.targets[0].implications.update_iter(&vec![(0, 1)]);
    assert_eq!(scope.activate_child(2, false, &state), (false, None, None));
    assert_eq!(scope.incomplete, vec![false, true, false, true]);
    assert_eq!(scope.incomplete_count, 2);
    assert!(scope.children[2].running);
    assert_eq!(
        scope.activate_child(2, false, &empty_state()),
        (false, None, Some(ShutdownEvent { id: 102 }))
    );
    assert_eq!(scope.activate_child(2, false, &empty_state()), (false, None, None));
    assert!(!scope.children[2].running);
    assert_eq!(scope.children[2].name, "Second(tombstone)");
    assert_eq!(scope.incomplete_count, 2);
    assert_eq!(scope.running_children(), vec![1, 3]);
}

#[test]
fn a_capability_from_nowhere_is_an_error() {
    let (mut scope, _) = chain(None);
    scope.children[2].shared_progress.internals[0].update(9, 1);
    assert_eq!(
        scope.activate_child(2, true, &empty_state()),
        (true, Some(ProgressError::Internal { output: 0, time: 9 }), None)
    );
    let (mut scope, _) = chain(None);
    scope.children[2].shared_progress.produceds[0].update(9, 1);
    assert_eq!(
        scope.activate_child(2, true, &empty_state()),
        (true, Some(ProgressError::Produced { output: 0, time: 9 }), None)
    );
}

#[test]
fn progress_is_held_back_on_demand() {
    let (mut scope, _) = chain(Some("DEMAND".to_string()));
    assert!(!scope.eager_progress_send);
    scope.local_pointstamp.update(stamp(Location::new_target(1, 0), 1), -1);
    scope.local_pointstamp.update(stamp(Location::new_target(2, 0), 1), 1);
    assert!(!scope.must_send(&vec![false, true]));
    assert_eq!(scope.send_progress(&vec![false, true]), None);
    assert_eq!(scope.local_pointstamp.entries().len(), 2);
    assert!(scope.must_send(&vec![true, false]));
    assert_eq!(
        scope.send_progress(&vec![true, false]),
        Some(vec![
            (stamp(Location::new_target(1, 0), 1), -1),
            (stamp(Location::new_target(2, 0), 1), 1),
        ])
    );
    assert!(scope.local_pointstamp.is_empty());
}

#[test]
fn a_round_ends() {
    let (mut scope, _) = chain(None);
    assert_eq!(scope.end_schedule(false), (false, true));
    for child in 1..4 {
        assert_eq!(scope.end_schedule(false), (false, true));
        scope.activate_child(child, false, &empty_state());
    }
    assert_eq!(scope.incomplete_count, 0);
    assert_eq!(scope.end_schedule(false), (false, false));
    assert_eq!(scope.end_schedule(true), (false, true));
    scope.final_pointstamp.update(stamp(Location::new_target(1, 0), 1), 1);
    assert_eq!(scope.end_schedule(false), (true, false));
}

#[test]
fn a_scope_is_summarized() {
    let (mut scope, _) = chain(None);
    scope.children[1].shared_progress.internals[0].update(0, 2);
    let (summary, capabilities) =
        scope.get_internal_summary(&vec![vec![Antichain::from_elem(3)]]);
    assert_eq!(summary.len(), 1);
    assert_eq!(summary[0][0].elements(), &vec![3]);
    assert_eq!(capabilities, vec![(stamp(Location::new_source(1, 0), 0), 2)]);
    assert!(scope.children[1].shared_progress.internals[0].is_empty());
}

#[test]
fn messages_go_through_the_device() {
    let (mut scope, _, mut state) = with_device();
    let (_, capabilities) = scope.get_internal_summary(&vec![]);
    assert_eq!(
        capabilities,
        vec![
            (stamp(Location::new_source(1, 0), 0), 1),
            (stamp(Location::new_source(2, 0), 0), 1),
        ]
    );
    scope.begin_schedule(&vec![]);
    scope.propagate_pointstamps(
        &vec![
            (stamp(Location::new_target(2, 0), 0), 1),
            (stamp(Location::new_target(5, 0), 0), 1),
        ],
        &vec![],
    );
    assert_eq!(scope.next_child(0), Some(3));

    let data: Vec<u64> = (1..17).collect();
    let mut queues = HardwareCommon::new();
    let mut outstanding = Outstanding { counter: 0 };
    let progress = &mut scope.children[3].shared_progress;
    state.begin_round(progress);
    let frames = frame_round(&state, &vec![(0, data.clone())]);
    assert_eq!(frames.len(), 1);
    assert_eq!(frames[0][0], 0);
    assert_eq!(frames[0][1], 1);
    assert_eq!(frames[0][24], 3);
    assert_eq!(frames[0][39], 33);
    for frame in &frames {
        let answer = generate_fpga_output(*frame);
        queues.send_input(*frame, answer);
    }
    assert!(!outstanding.schedule_operator(frames.len() as u64));
    let (sent, collected) = collect(&mut queues, progress, &state.ghost_indexes);
    assert_eq!(sent, vec![(0, data)]);
    assert_eq!(collected, 1);
    assert_eq!(outstanding.schedule_collector(collected as u64), (false, false));

    assert_eq!(scope.activate_child(3, false, &empty_state()), (false, None, None));
    assert!(scope.children[3].running);
    assert_eq!(scope.incomplete_count, 3);
    assert_eq!(
        scope.send_progress(&vec![]),
        Some(vec![
            (stamp(Location::new_target(2, 0), 0), -16),
            (stamp(Location::new_source(2, 0), 0), -1),
            (stamp(Location::new_target(5, 0), 0), 12),
        ])
    );
    assert_eq!(scope.next_child(3), Some(5));
    assert_eq!(scope.end_schedule(false), (false, true));
}
