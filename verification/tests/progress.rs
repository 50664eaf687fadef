use std::collections::HashMap;

use timely_fpga::active::ActiveHeap;
use timely_fpga::change_batch::ChangeBatch;
use timely_fpga::frontier::{Antichain, MutableAntichain};
use timely_fpga::location::{Location, Pointstamp, Target};
use timely_fpga::logging::{
    OperatorEvent, PushProgressEvent, ScheduleEvent, ShutdownEvent, StartStop,
};
use timely_fpga::per_operator::{OperatorInfo, PerOperatorState, ProgressError};
use timely_fpga::reachability::{copy_summary, empty_summary, PerOperator, PortInfo};
use timely_fpga::shared_progress::{
    drain_batch, drain_node_batch, update_batch, update_node_batch, SharedProgress,
};
use timely_fpga::statements::{negate, report_consumed, report_internal, report_produced};

fn stamp(location: Location, time: u64) -> Pointstamp<u64> {
    Pointstamp { location, time }
}

fn operator(inputs: usize, outputs: usize, progress: SharedProgress<u64>) -> PerOperatorState<u64> {
    let mut summary = Vec::new();
    for _ in 0..inputs {
        let mut row = Vec::new();
        for _ in 0..outputs {
            row.push(Antichain::from_elem(0));
        }
        summary.push(row);
    }
    let info = OperatorInfo {
        name: "Map".to_string(),
        local: true,
        notify: false,
        inputs,
        outputs,
        internal_summary: summary,
        shared_progress: progress,
    };
    PerOperatorState::new(info, 3, 17, true)
}

fn port(times: Vec<(u64, i64)>) -> PortInfo<u64> {
    let mut implications = MutableAntichain::new();
    implications.update_iter(&times);
    PortInfo { pointstamps: MutableAntichain::new(), implications }
}

#[test]
fn progress_information_starts_empty() {
    let plain: SharedProgress<u64> = SharedProgress::new(2, 1);
    assert_eq!(plain.frontiers.len(), 2);
    assert_eq!(plain.consumeds.len(), 2);
    assert_eq!(plain.internals.len(), 1);
    assert_eq!(plain.produceds.len(), 1);
    assert!(plain.consumeds[1].is_empty());
    assert!(plain.wrapper_frontiers.is_empty());

    let ghosts: SharedProgress<u64> = SharedProgress::new_ghosts(1, 2, &vec![5, 6]);
    assert_eq!(ghosts.wrapper_frontiers.len(), 2);
    assert_eq!(ghosts.wrapper_frontiers[&5].len(), 1);
    assert_eq!(ghosts.wrapper_consumeds[&6].len(), 1);
    assert_eq!(ghosts.wrapper_internals[&6].len(), 2);
    assert_eq!(ghosts.wrapper_produceds[&5].len(), 2);
    assert!(ghosts.wrapper_produceds[&5][1].is_empty());
}

#[test]
fn batches_are_updated_and_drained_by_port() {
    let mut p: SharedProgress<u64> = SharedProgress::new_ghosts(2, 1, &vec![9]);
    update_batch(&mut p.consumeds, 1, 4, 3);
    assert!(p.consumeds[0].is_empty());
    assert_eq!(drain_batch(&mut p.consumeds, 1), vec![(4, 3)]);
    assert!(p.consumeds[1].is_empty());
    update_node_batch(&mut p.wrapper_consumeds, 9, 1, 4, 2);
    update_node_batch(&mut p.wrapper_consumeds, 9, 1, 4, 5);
    assert_eq!(drain_node_batch(&mut p.wrapper_consumeds, 9, 1), vec![(4, 7)]);
    assert!(p.wrapper_consumeds[&9][1].is_empty());
}

#[test]
fn the_lowest_index_is_handed_out_first() {
    let mut heap = ActiveHeap::new();
    for index in [4, 2, 7, 2, 1] {
        heap.push(index);
    }
    assert_eq!(heap.next_after(1), Some(2));
    assert_eq!(heap.next_after(2), Some(4));
    heap.push(3);
    assert_eq!(heap.next_after(4), Some(7));
    assert_eq!(heap.next_after(7), None);
    assert_eq!(heap.pop(), None);
    heap.push(6);
    heap.push(5);
    assert_eq!(heap.pop(), Some(5));
    assert_eq!(heap.pop(), Some(6));
}

#[test]
fn reports_become_changes_at_places() {
    let mut p: SharedProgress<u64> = SharedProgress::new(1, 1);
    p.consumeds[0].update(2, 5);
    p.internals[0].update(3, 1);
    p.produceds[0].update(2, 4);
    let mut changes: ChangeBatch<Pointstamp<u64>> = ChangeBatch::new();
    let mut active = ActiveHeap::new();
    report_consumed(&mut p.consumeds, 8, &mut changes);
    report_internal(&mut p.internals, 8, &mut changes);
    report_produced(
        &mut p.produceds,
        &vec![vec![Target::new(9, 0), Target::new(10, 1)]],
        &vec![vec![Target::new(11, 2)]],
        &mut changes,
        &mut active,
    );
    assert_eq!(
        changes.drain(),
        vec![
            (stamp(Location::new_target(8, 0), 2), -5),
            (stamp(Location::new_source(8, 0), 3), 1),
            (stamp(Location::new_target(11, 2), 2), 4),
        ]
    );
    assert_eq!(active.pop(), Some(9));
    assert_eq!(active.pop(), Some(10));
    assert_eq!(active.pop(), None);
    assert_eq!(negate(5), -5);
    assert_eq!(negate(i64::MIN), i64::MIN);
}

#[test]
fn the_outside_of_a_scope_is_no_operator() {
    let outside: PerOperatorState<u64> = PerOperatorState::empty(2, 3);
    assert_eq!(outside.name, "External");
    assert_eq!(outside.index, 0);
    assert_eq!(outside.id, usize::MAX);
    assert_eq!((outside.inputs, outside.outputs), (2, 3));
    assert!(outside.notify && !outside.local && !outside.running);
    assert_eq!(outside.edges.len(), 3);
    assert_eq!(outside.ghost_edges.len(), 3);
    assert!(!outside.schedule(true));
}

#[test]
fn an_operator_is_described_as_it_is_added() {
    let state = operator(1, 2, SharedProgress::new(1, 2));
    assert_eq!(state.name, "Map");
    assert_eq!((state.index, state.id), (3, 17));
    assert!(state.local && !state.notify && state.running && state.count_for_incomplete);
    assert_eq!(state.edges, vec![Vec::new(), Vec::new()]);
    assert_eq!(state.internal_summary[0][1].elements(), &vec![0]);
    assert!(state.schedule(true));
    assert!(!state.schedule(false));
}

#[test]
fn an_operator_is_shut_down_once() {
    let mut state = operator(1, 1, SharedProgress::new(1, 1));
    assert_eq!(state.shut_down(), Some(ShutdownEvent { id: 17 }));
    assert_eq!(state.name, "Map(tombstone)");
    assert!(!state.running);
    assert_eq!(state.shut_down(), None);
    assert_eq!(state.name, "Map(tombstone)");
    assert!(state.frontiers_settled());
    assert!(!state.schedule(true));
    state.shared_progress.frontiers[0].update(1, 1);
    assert!(!state.frontiers_settled());
}

#[test]
fn scheduling_an_operator_is_logged() {
    let mut state = operator(1, 1, SharedProgress::new(1, 1));
    let start =
        OperatorEvent::Schedule(ScheduleEvent { id: 17, start_stop: StartStop::Start });
    assert_eq!(state.before_schedule(), vec![start]);
    state.shared_progress.frontiers[0].update(1, 1);
    let push = OperatorEvent::PushProgress(PushProgressEvent { op_id: 17 });
    assert_eq!(state.before_schedule(), vec![push, start]);
    let stop = ScheduleEvent { id: 17, start_stop: StartStop::Stop };
    assert_eq!(state.after_schedule(), Some(stop));
    state.shut_down();
    assert_eq!(state.before_schedule(), Vec::new());
    assert_eq!(state.after_schedule(), None);
}

#[test]
fn an_operator_reports_once() {
    let mut state = operator(1, 1, SharedProgress::new(1, 1));
    state.edges = vec![vec![Target::new(6, 0)]];
    state.ghost_edges = vec![vec![Target::new(5, 0)]];
    state.shared_progress.consumeds[0].update(1, 2);
    state.shared_progress.produceds[0].update(1, 1);
    let mut changes = ChangeBatch::new();
    let mut active = ActiveHeap::new();
    let nobody: HashMap<usize, Vec<usize>> = HashMap::new();
    let nowhere: HashMap<usize, Vec<(usize, usize)>> = HashMap::new();
    state.extract_progress(&nobody, &nowhere, &mut changes, &mut active);
    assert_eq!(
        changes.drain(),
        vec![
            (stamp(Location::new_target(3, 0), 1), -2),
            (stamp(Location::new_target(5, 0), 1), 1),
        ]
    );
    assert_eq!(active.pop(), Some(6));
    assert_eq!(active.pop(), None);
    state.extract_progress(&nobody, &nowhere, &mut changes, &mut active);
    assert!(changes.is_empty());
    assert_eq!(active.pop(), None);
}

#[test]
fn an_operator_reports_for_the_nodes_it_stands_for() {
    let mut state = operator(1, 1, SharedProgress::new_ghosts(1, 1, &vec![1, 2]));
    let progress = &mut state.shared_progress;
    update_node_batch(&mut progress.wrapper_consumeds, 1, 0, 7, 3);
    update_node_batch(&mut progress.wrapper_produceds, 1, 0, 7, 2);
    update_node_batch(&mut progress.wrapper_internals, 2, 0, 7, -1);
    update_node_batch(&mut progress.wrapper_produceds, 2, 0, 7, 1);
    let mut ghosts = HashMap::new();
    ghosts.insert(3, vec![1, 2]);
    let mut edges = HashMap::new();
    edges.insert(3, vec![(1, 2), (2, 4)]);
    let mut changes = ChangeBatch::new();
    let mut active = ActiveHeap::new();
    state.extract_progress(&ghosts, &edges, &mut changes, &mut active);
    assert_eq!(
        changes.drain(),
        vec![
            (stamp(Location::new_target(1, 0), 7), -3),
            (stamp(Location::new_target(2, 0), 7), 2),
            (stamp(Location::new_source(2, 0), 7), -1),
            (stamp(Location::new_target(4, 0), 7), 1),
        ]
    );
    assert_eq!(active.pop(), Some(2));
    assert_eq!(active.pop(), Some(4));
    assert_eq!(active.pop(), None);
}

#[test]
fn increments_need_support() {
    let held = PerOperator { targets: vec![], sources: vec![port(vec![(5, 1)])] };
    let bare = PerOperator { targets: vec![], sources: vec![port(vec![])] };

    let mut state = operator(1, 1, SharedProgress::new(1, 1));
    assert_eq!(state.validate_progress(&bare), Ok(()));
    state.shared_progress.internals[0].update(6, 1);
    assert_eq!(state.validate_progress(&held), Ok(()));
    assert_eq!(
        state.validate_progress(&bare),
        Err(ProgressError::Internal { output: 0, time: 6 })
    );
    state.shared_progress.consumeds[0].update(6, 1);
    assert_eq!(state.validate_progress(&bare), Ok(()));

    let mut state = operator(1, 1, SharedProgress::new(1, 1));
    state.shared_progress.produceds[0].update(4, 1);
    assert_eq!(
        state.validate_progress(&held),
        Err(ProgressError::Produced { output: 0, time: 4 })
    );
    state.shared_progress.consumeds[0].update(5, 1);
    assert_eq!(
        state.validate_progress(&held),
        Err(ProgressError::Produced { output: 0, time: 4 })
    );
    state.shared_progress.consumeds[0].update(3, 1);
    assert_eq!(state.validate_progress(&held), Ok(()));
}

#[test]
fn decrements_need_no_support() {
    let bare = PerOperator { targets: vec![], sources: vec![port(vec![])] };
    let mut state = operator(1, 1, SharedProgress::new(1, 1));
    state.shared_progress.internals[0].update(6, -1);
    state.shared_progress.produceds[0].update(6, -1);
    assert_eq!(state.validate_progress(&bare), Ok(()));
}

#[test]
fn summaries_are_copied_and_made_empty() {
    let none = empty_summary::<u64>(2, 3);
    assert_eq!(none.len(), 2);
    assert_eq!(none[1].len(), 3);
    assert!(none[1][2].elements().is_empty());
    let some = vec![vec![Antichain::from_elem(4u64)]];
    assert_eq!(copy_summary(&some)[0][0].elements(), &vec![4]);
}
