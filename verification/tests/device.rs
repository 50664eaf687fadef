use timely_fpga::access::{push_loads, push_stores, Access};
use timely_fpga::device::{
    read_encoded_group, read_encoded_groups, read_group, read_groups, release, report, report_all,
    ProgressGroup, WrapperState,
};
use timely_fpga::emulation::{emulate, FILTER_WORD};
use timely_fpga::naming::{numbered_name, numbered_names};
use timely_fpga::shared_progress::{update_node_batch, SharedProgress};
use timely_fpga::words::{decode, encode, pad, push_decoded, push_encoded};

#[test]
fn values_become_odd_words() {
    assert_eq!(encode(0), 1);
    assert_eq!(encode(5), 11);
    assert_eq!(decode(11), 5);
    for value in [0, 1, 77, 0x7fff_ffff_ffff_ffff] {
        assert_eq!(decode(encode(value)), value);
    }
}

#[test]
fn the_highest_bit_of_a_value_is_lost() {
    assert_eq!(decode(encode(0x8000_0000_0000_0003)), 3);
}

#[test]
fn zeros_hold_no_value() {
    let mut words = vec![9];
    push_encoded(&mut words, &vec![0, 4]);
    pad(&mut words, 6);
    assert_eq!(words, vec![9, 1, 9, 0, 0, 0]);
    pad(&mut words, 2);
    assert_eq!(words.len(), 6);
    let mut values = vec![8];
    push_decoded(&mut values, &words, 1, 6);
    assert_eq!(values, vec![8, 0, 4]);
}

#[test]
fn accesses_end_in_a_fence() {
    let mut plan = Vec::new();
    push_stores(&mut plan, 3, &vec![7, 8, 9], 1, 3);
    push_loads(&mut plan, 2, 2);
    assert_eq!(
        plan,
        vec![
            Access::Store { slot: 3, word: 8 },
            Access::Store { slot: 4, word: 9 },
            Access::Fence,
            Access::Load { slot: 2 },
            Access::Load { slot: 3 },
            Access::Fence,
        ]
    );
}

#[test]
fn a_report_takes_four_words() {
    let words = vec![0, 16, 12, 7, u64::MAX, 1, 2, 3, 4];
    let first = ProgressGroup { consumed: 16, produced: 12, time: 7, change: -1 };
    let second = ProgressGroup { consumed: 1, produced: 2, time: 3, change: 4 };
    assert_eq!(read_group(&words, 1), first);
    assert_eq!(read_encoded_group(&words, 1), ProgressGroup { time: 3, ..first });
    assert_eq!(read_groups(&words, 1, 2), vec![first, second]);
    assert_eq!(
        read_encoded_groups(&words, 1, 2),
        vec![ProgressGroup { time: 3, ..first }, ProgressGroup { time: 1, ..second }]
    );
}

#[test]
fn reports_reach_the_nodes_they_are_about() {
    let mut p: SharedProgress<u64> = SharedProgress::new_ghosts(1, 1, &vec![4, 6]);
    let group = ProgressGroup { consumed: 5, produced: 3, time: 8, change: -1 };
    release(&mut p, 4, 2, &group);
    assert!(p.wrapper_consumeds[&4][0].is_empty());
    assert_eq!(p.wrapper_produceds[&4][0].entries(), &vec![(2, 3)]);
    assert_eq!(p.wrapper_internals[&4][0].entries(), &vec![(8, -1)]);
    report(&mut p, 4, 2, &group);
    assert_eq!(p.wrapper_consumeds[&4][0].entries(), &vec![(2, 5)]);
    assert_eq!(p.wrapper_produceds[&4][0].entries(), &vec![(2, 6)]);
    assert!(p.wrapper_produceds[&6][0].is_empty());

    let mut p: SharedProgress<u64> = SharedProgress::new_ghosts(1, 1, &vec![4, 6]);
    let other = ProgressGroup { consumed: 3, produced: 2, time: 0, change: 0 };
    report_all(&mut p, &vec![(0, 4), (1, 6)], 9, &vec![group, other], 2);
    assert_eq!(p.wrapper_consumeds[&4][0].entries(), &vec![(9, 5)]);
    assert_eq!(p.wrapper_consumeds[&6][0].entries(), &vec![(9, 3)]);
    assert_eq!(p.wrapper_produceds[&6][0].entries(), &vec![(9, 2)]);
    assert!(p.wrapper_internals[&6][0].is_empty());
}

#[test]
fn initial_capabilities_are_given_up_once() {
    let mut p: SharedProgress<u64> = SharedProgress::new_ghosts(1, 1, &vec![4, 6]);
    let mut state = WrapperState::new(&vec![4, 6]);
    assert_eq!(state.ghost_indexes, vec![(0, 4), (1, 6)]);
    assert!(!state.started);
    update_node_batch(&mut p.wrapper_frontiers, 6, 0, 3, 1);
    state.begin_round(&mut p);
    assert!(state.started);
    assert!(p.wrapper_frontiers[&6][0].is_empty());
    assert!(state.frontier[0].is_empty());
    assert_eq!(state.frontier[1].frontier(), &vec![3]);
    assert_eq!(p.wrapper_internals[&4][0].entries(), &vec![(0, -1)]);
    assert_eq!(p.wrapper_internals[&6][0].entries(), &vec![(0, -1)]);
    state.begin_round(&mut p);
    assert_eq!(p.wrapper_internals[&4][0].entries(), &vec![(0, -1)]);
    let mut words = Vec::new();
    state.push_frontiers(&mut words);
    assert_eq!(words, vec![0, 7]);
}

#[test]
fn the_emulated_device_counts_what_passes() {
    assert_eq!(FILTER_WORD, encode(5));
    let words = vec![99, 9, 0, 11, 13];
    assert_eq!(
        emulate(&words, 1, 5, 2, 14),
        vec![9, 0, 11, 13, 3, 2, 0, 0, 3, 2, 0, 0, 0, 0]
    );
}

#[test]
fn names_are_numbered() {
    assert_eq!(numbered_name("Filter", 0), "Filter0");
    assert_eq!(numbered_name("Filter", 1203), "Filter1203");
    assert_eq!(numbered_names("Map", 3), vec!["Map1", "Map2", "Map3"]);
}
