use timely_fpga::access::Access;
use timely_fpga::device::WrapperState;
use timely_fpga::fpga_wrapper;
use timely_fpga::fpga_wrapper::{HardwareCommon, Outstanding, NO_MESSAGE, TIME_INDEX};
use timely_fpga::fpga_wrapper_eci as eci;
use timely_fpga::fpga_wrapper_eci::{FpgaWrapperECI, Layout, LineSwitch};
use timely_fpga::fpga_wrapper_pci as pci;
use timely_fpga::fpga_wrapper_pci::{FpgaWrapperPCI, FrameSize};
use timely_fpga::fpga_wrapper_simulation as simulation;
use timely_fpga::fpga_wrapper_simulation::FpgaWrapperSimulation;
use timely_fpga::location::{Source, Target};
use timely_fpga::logging::OperatesEvent;
use timely_fpga::registration::chain_nodes;
use timely_fpga::shared_progress::{update_node_batch, SharedProgress};
use timely_fpga::subgraph_builder::SubgraphBuilder;

/// As many nodes as `n`, each with the frontier `frontier`, and places for what they report.
fn nodes(n: usize, frontier: Option<u64>) -> (WrapperState, SharedProgress<u64>) {
    let ghosts: Vec<usize> = (1..n + 1).collect();
    let mut progress: SharedProgress<u64> = SharedProgress::new_ghosts(1, 1, &ghosts);
    let mut state = WrapperState::new(&ghosts);
    if let Some(time) = frontier {
        for ghost in &ghosts {
            update_node_batch(&mut progress.wrapper_frontiers, *ghost, 0, time, 1);
        }
    }
    state.begin_round(&mut progress);
    (state, SharedProgress::new_ghosts(1, 1, &ghosts))
}

fn loads(plan: &Vec<Access>) -> usize {
    plan.iter()
        .map(|a| match a {
            Access::Load { .. } => 1,
            Access::LoadPair { .. } => 2,
            _ => 0,
        })
        .sum()
}

/// Makes the stores of `plan` in memory of as many words as `size`, and answers its loads.
fn perform(plan: &Vec<Access>, memory: &mut Vec<u64>) -> Vec<u64> {
    let mut loaded = Vec::new();
    for access in plan {
        match access {
            Access::Store { slot, word } => memory[*slot] = *word,
            Access::StorePair { slot, first, second } => {
                memory[*slot] = *first;
                memory[*slot + 1] = *second;
            }
            Access::Load { slot } => loaded.push(memory[*slot]),
            Access::LoadPair { slot } => {
                loaded.push(memory[*slot]);
                loaded.push(memory[*slot + 1]);
            }
            Access::Fence => {}
        }
    }
    loaded
}

#[test]
fn a_frame_holds_time_frontier_and_data() {
    let (state, _) = nodes(1, Some(6));
    let frame = fpga_wrapper::frame_message(&state, 6, &vec![2, 8]);
    let mut expected = vec![0; 40];
    expected[0] = 6;
    expected[1] = 13;
    expected[24] = 5;
    expected[25] = 17;
    assert_eq!(frame.to_vec(), expected);
    let idle = fpga_wrapper::frame_idle(&state);
    let mut expected = vec![0; 40];
    expected[0] = u64::MAX;
    expected[1] = 13;
    assert_eq!(idle.to_vec(), expected);
}

#[test]
fn a_round_without_messages_is_one_idle_frame() {
    let (state, _) = nodes(1, Some(6));
    let frames = fpga_wrapper::frame_round(&state, &vec![]);
    assert_eq!(frames, vec![fpga_wrapper::frame_idle(&state)]);
    let frames = fpga_wrapper::frame_round(&state, &vec![(6, vec![1]), (7, vec![])]);
    assert_eq!(frames.len(), 2);
    assert_eq!(frames[1], fpga_wrapper::frame_message(&state, 7, &vec![]));
}

#[test]
fn a_frame_goes_through_two_lines() {
    let (state, _) = nodes(1, Some(6));
    let data: Vec<u64> = (0..16).collect();
    let frame = fpga_wrapper::frame_message(&state, 6, &data);
    let mut memory = vec![77; fpga_wrapper::USED_CACHE_SIZE];
    let plan = fpga_wrapper::send_to_fpga(&frame);
    assert!(perform(&plan, &mut memory).is_empty());
    assert_eq!(memory[0], 13);
    assert_eq!(memory[1..16].to_vec(), vec![0; 15]);
    assert_eq!(memory[16..32].to_vec(), frame[24..40].to_vec());
    let read = fpga_wrapper::read_from_fpga();
    assert_eq!(loads(&read), 32);
    let words = perform(&read, &mut memory);
    let answer = fpga_wrapper::read_answer(&words);
    assert_eq!(answer[0..32].to_vec(), memory);
    assert_eq!(answer[32..97].to_vec(), vec![0; 65]);
}

#[test]
fn an_answer_gets_the_time_of_its_frame() {
    let (state, _) = nodes(1, Some(6));
    let frame = fpga_wrapper::frame_message(&state, 6, &vec![3, 9]);
    assert!(fpga_wrapper::check_input(&frame));
    let answer = fpga_wrapper::generate_fpga_output(frame);
    assert_eq!(answer[0..3].to_vec(), vec![7, 19, 0]);
    assert_eq!(answer[16..20].to_vec(), vec![2, 1, 0, 0]);
    let mut queues = HardwareCommon::new();
    assert_eq!(queues.check_output(), None);
    queues.send_input(frame, answer);
    let stamped = queues.check_output().unwrap();
    assert_eq!(stamped[TIME_INDEX], 6);
    assert_eq!(stamped[0..96].to_vec(), answer[0..96].to_vec());
    assert_eq!(queues.check_output(), None);
    assert_eq!(queues.h_queue.len(), 1);
}

#[test]
fn even_words_are_not_accepted() {
    let mut frame = [0; 40];
    assert!(fpga_wrapper::check_input(&frame));
    frame[30] = 2;
    assert!(!fpga_wrapper::check_input(&frame));
    frame[30] = 3;
    frame[1] = 4;
    assert!(!fpga_wrapper::check_input(&frame));

    let mut input = vec![0; 20];
    assert!(eci::check_input(&input, 4, 2));
    assert!(!eci::check_input(&input, 5, 2));
    assert!(!eci::check_input(&input, 4, 6));
    input[1] = 7;
    assert!(!eci::check_input(&input, 4, 2));
    input[0] = 7;
    assert!(eci::check_input(&input, 4, 2));
    input[19] = 6;
    assert!(!eci::check_input(&input, 4, 2));
    assert!(eci::check_input(&input, 3, 2));
}

#[test]
fn a_frame_without_data_may_end_behind_its_frontiers() {
    let input = vec![7, 7];
    assert!(eci::check_input(&input, 0, 2));
    assert!(!eci::check_input(&input, 0, 3));
    assert!(!eci::check_input(&input, 1, 2));
    assert!(!eci::check_input(&vec![], 0, 0));
    assert_eq!(eci::generate_fpga_output(&input, 0, 2), vec![0; 16]);
}

#[test]
fn an_answer_to_a_message_is_passed_on() {
    let (state, mut progress) = nodes(1, Some(6));
    let mut answer = [0; 97];
    answer[0] = 7;
    answer[2] = 9;
    answer[16] = 4;
    answer[17] = 2;
    answer[18] = 15;
    answer[19] = 1;
    answer[TIME_INDEX] = 6;
    let sent = fpga_wrapper::collect_answer(&mut progress, &state.ghost_indexes, &answer);
    assert_eq!(sent, Some((6, vec![3, 4])));
    assert_eq!(progress.wrapper_consumeds[&1][0].entries(), &vec![(6, 4)]);
    assert_eq!(progress.wrapper_produceds[&1][0].entries(), &vec![(6, 2)]);
    assert_eq!(progress.wrapper_internals[&1][0].entries(), &vec![(7, 1)]);
}

#[test]
fn an_answer_without_a_message_is_passed_on_where_it_has_data() {
    let (state, mut progress) = nodes(1, Some(6));
    let mut answer = [0; 97];
    answer[16] = 4;
    answer[17] = 2;
    answer[18] = 15;
    answer[19] = 1;
    answer[TIME_INDEX] = NO_MESSAGE;
    let sent = fpga_wrapper::collect_answer(&mut progress, &state.ghost_indexes, &answer);
    assert_eq!(sent, None);
    assert!(progress.wrapper_produceds[&1][0].is_empty());
    assert!(progress.wrapper_internals[&1][0].is_empty());
    answer[5] = 21;
    let sent = fpga_wrapper::collect_answer(&mut progress, &state.ghost_indexes, &answer);
    assert_eq!(sent, Some((7, vec![10])));
    assert!(progress.wrapper_consumeds[&1][0].is_empty());
    assert_eq!(progress.wrapper_produceds[&1][0].entries(), &vec![(7, 2)]);
    assert_eq!(progress.wrapper_internals[&1][0].entries(), &vec![(7, 1)]);
}

#[test]
fn a_message_is_echoed() {
    let (state, mut progress) = nodes(1, Some(2));
    let frame = fpga_wrapper::frame_message(&state, 2, &vec![1, 6, 0]);
    let mut queues = HardwareCommon::new();
    queues.send_input(frame, fpga_wrapper::generate_fpga_output(frame));
    let (sent, collected) =
        fpga_wrapper::collect(&mut queues, &mut progress, &state.ghost_indexes);
    assert_eq!(sent, vec![(2, vec![1, 6, 0])]);
    assert_eq!(collected, 1);
    assert!(queues.h_queue.is_empty());
    assert_eq!(progress.wrapper_consumeds[&1][0].entries(), &vec![(2, 3)]);
    assert_eq!(progress.wrapper_produceds[&1][0].entries(), &vec![(2, 1)]);
}

#[test]
fn the_collector_stays_until_all_is_collected() {
    let mut outstanding = Outstanding { counter: 0 };
    assert!(!outstanding.schedule_operator(3));
    assert_eq!(outstanding.counter, 3);
    assert_eq!(outstanding.schedule_collector(1), (true, true));
    assert_eq!(outstanding.counter, 2);
    assert_eq!(outstanding.schedule_collector(2), (false, false));
    assert_eq!(outstanding.counter, 0);
}

#[test]
fn layouts_have_lengths() {
    assert_eq!(Layout::One.node_count(), 1);
    assert_eq!(Layout::Fifteen.node_count(), 15);
    assert_eq!(Layout::Four.get_length(), (16, 16));
    assert_eq!(Layout::Fifteen.get_length(), (16, 64));
    assert_eq!(Layout::Sixteen.get_length(), (16, 64));
    assert_eq!(Layout::Twenty.get_length(), (32, 80));
    assert_eq!(Layout::ThirtyTwo.get_length(), (32, 128));
}

#[test]
fn lines_change_places() {
    let mut switch = LineSwitch { counter: 0 };
    assert_eq!(switch.get_offset(Layout::Twenty), (0, 16));
    assert_eq!(switch.get_offset(Layout::Sixteen), (16, 0));
    assert_eq!(switch.get_offset(Layout::Fifteen), (0, 16));
    assert_eq!(switch.counter, 3);
    assert_eq!(switch.get_offset(Layout::ThirtyTwo), (0, 16));
    assert_eq!(switch.get_offset(Layout::Four), (0, 16));
    assert_eq!(switch.get_offset(Layout::One), (0, 16));
    assert_eq!(switch.counter, 3);
}

#[test]
fn a_message_goes_out_behind_its_frontiers() {
    let (mut state, _) = nodes(4, Some(3));
    state.frontier[1].update_iter(&vec![(3, -1)]);
    state.frontier[2].update_iter(&vec![(2, 1)]);
    let data: Vec<u64> = (1..18).collect();
    let plan = eci::write_data(Layout::Four, &state.frontier, &data, 0, 16);
    assert_eq!(
        plan[0..4].to_vec(),
        vec![
            Access::Store { slot: 0, word: 7 },
            Access::Store { slot: 0, word: 0 },
            Access::Store { slot: 2, word: 5 },
            Access::Store { slot: 3, word: 7 },
        ]
    );
    assert_eq!(plan[16], Access::Fence);
    assert_eq!(plan[17], Access::Store { slot: 16, word: 3 });
    assert_eq!(plan.len(), 34);
    let mut memory = vec![77; eci::AREA];
    perform(&plan, &mut memory);
    assert_eq!(memory[0..5].to_vec(), vec![0, 77, 5, 7, 0]);
    assert_eq!(memory[31], 33);
}

#[test]
fn an_empty_message_goes_out_as_zeros() {
    let (state, _) = nodes(16, Some(3));
    let plan = eci::write_data(Layout::Sixteen, &state.frontier, &vec![], 16, 0);
    let mut memory = vec![77; eci::AREA];
    perform(&plan, &mut memory);
    assert_eq!(memory[0..16].to_vec(), vec![0; 16]);
    assert_eq!(memory[16..32].to_vec(), vec![7; 16]);
}

#[test]
fn wide_frontiers_fill_both_lines() {
    let (mut state, _) = nodes(20, Some(3));
    state.frontier[17].update_iter(&vec![(3, -1)]);
    let data: Vec<u64> = (1..17).collect();
    let plan = eci::write_data(Layout::Twenty, &state.frontier, &data, 0, 16);
    assert_eq!(plan[16], Access::Fence);
    assert_eq!(
        plan[17..21].to_vec(),
        vec![
            Access::Store { slot: 16, word: 7 },
            Access::Store { slot: 17, word: 0 },
            Access::Store { slot: 17, word: 7 },
            Access::Store { slot: 18, word: 7 },
        ]
    );
    assert_eq!(plan[21], Access::Store { slot: 19, word: 0 });
    assert_eq!(plan[32], Access::Store { slot: 30, word: 0 });
    assert_eq!(plan[33], Access::Fence);
    let mut memory = vec![77; eci::AREA];
    perform(&plan, &mut memory);
    assert_eq!(memory[0..3].to_vec(), vec![3, 5, 7]);
    assert_eq!(memory[31], 77);

    let (state, _) = nodes(32, Some(3));
    let plan = eci::write_data(Layout::ThirtyTwo, &state.frontier, &data, 0, 16);
    assert_eq!(plan[32], Access::Store { slot: 31, word: 7 });
    assert_eq!(plan[33], Access::Fence);
}

#[test]
fn an_answer_is_read_from_both_lines() {
    let plan = eci::plan_read(Layout::Four, 0, 16);
    assert_eq!(loads(&plan), 32);
    assert_eq!(plan[0], Access::Load { slot: 0 });
    assert_eq!(plan[17], Access::Load { slot: 16 });
    let plan = eci::plan_read(Layout::One, 0, 16);
    assert_eq!(loads(&plan), 20);
    let plan = eci::plan_read(Layout::ThirtyTwo, 0, 16);
    assert_eq!(loads(&plan), 144);
    assert_eq!(plan[0], Access::Load { slot: 16 });
    assert_eq!(plan[17], Access::Load { slot: 0 });
    assert_eq!(plan[34], Access::Load { slot: 16 });
    let plan = eci::plan_read(Layout::Fifteen, 16, 0);
    assert_eq!(loads(&plan), 76);
    assert_eq!(plan[0], Access::Load { slot: 16 });
    assert_eq!(plan[17], Access::Load { slot: 0 });
    assert_eq!(plan.len(), 81);
}

#[test]
fn what_was_read_is_passed_on() {
    let (state, mut progress) = nodes(4, Some(3));
    let mut words = vec![0; 32];
    words[0] = 9;
    words[3] = 1;
    words[20] = 6;
    words[21] = 5;
    words[22] = 4;
    words[23] = 3;
    let data =
        eci::read_data(Layout::Four, &mut progress, 8, &state.ghost_indexes, &words);
    assert_eq!(data, vec![4, 0]);
    assert!(progress.wrapper_consumeds[&1][0].is_empty());
    assert_eq!(progress.wrapper_consumeds[&2][0].entries(), &vec![(8, 6)]);
    assert_eq!(progress.wrapper_produceds[&2][0].entries(), &vec![(8, 5)]);
    assert_eq!(progress.wrapper_internals[&2][0].entries(), &vec![(4, 3)]);
}

#[test]
fn a_line_that_is_handed_back_holds_what_was_sent() {
    let (state, mut progress) = nodes(4, Some(3));
    let data: Vec<u64> = (40..56).collect();
    let mut memory = vec![0; eci::AREA];
    perform(&eci::write_data(Layout::Four, &state.frontier, &data, 0, 16), &mut memory);
    let mut words = memory[16..32].to_vec();
    words.extend(vec![0; 16]);
    let back =
        eci::read_data(Layout::Four, &mut progress, 3, &state.ghost_indexes, &words);
    assert_eq!(back, data);
}

#[test]
fn a_round_without_messages_exchanges_lines() {
    let (state, mut progress) = nodes(4, Some(3));
    let frame = eci::frame_idle(Layout::Four, &state, 20);
    assert_eq!(frame.len(), 36);
    assert_eq!(frame[0..5].to_vec(), vec![7, 7, 7, 7, 0]);
    let plan = eci::fpga_communication(Layout::Four, &frame, 20, 0, 16);
    assert_eq!(loads(&plan), 32);
    assert_eq!(plan[0], Access::Store { slot: 0, word: 7 });
    assert_eq!(plan[17], Access::Store { slot: 16, word: 0 });
    assert_eq!(plan[34], Access::Load { slot: 0 });
    assert_eq!(plan[51], Access::Load { slot: 16 });

    let mut words = vec![0; 32];
    words[2] = 5;
    words[28] = 1;
    words[29] = 2;
    words[30] = 9;
    words[31] = 3;
    let answer = eci::run(Layout::Four, &words, 20);
    assert_eq!(answer.len(), 36);
    assert_eq!(answer[16..20].to_vec(), vec![0; 4]);
    assert_eq!(answer[32..36].to_vec(), vec![1, 2, 9, 3]);
    let sent = eci::collect_idle(&mut progress, &state.ghost_indexes, &answer, 20);
    assert_eq!(sent, Some((4, vec![2])));
    assert!(progress.wrapper_consumeds[&4][0].is_empty());
    assert_eq!(progress.wrapper_produceds[&4][0].entries(), &vec![(4, 2)]);
    assert_eq!(progress.wrapper_internals[&4][0].entries(), &vec![(4, 3)]);
    assert_eq!(eci::collect_idle(&mut progress, &state.ghost_indexes, &vec![0; 36], 20), None);
}

#[test]
fn a_wide_round_without_messages_sends_two_lines_of_frontiers() {
    let (state, _) = nodes(20, Some(3));
    let frame = eci::frame_idle(Layout::Twenty, &state, 16);
    assert_eq!(frame.len(), 48);
    assert_eq!(frame[19], 7);
    assert_eq!(frame[20], 0);
    let plan = eci::fpga_communication(Layout::Twenty, &frame, 16, 16, 0);
    assert_eq!(loads(&plan), 96);
    assert_eq!(plan[0], Access::Store { slot: 16, word: 7 });
    assert_eq!(plan[17], Access::Store { slot: 0, word: 7 });
    assert_eq!(plan[34], Access::Store { slot: 16, word: 0 });
    assert_eq!(plan[51], Access::Load { slot: 0 });
    assert_eq!(plan[68], Access::Load { slot: 16 });
}

#[test]
fn a_round_sends_each_message_and_passes_on_each_answer() {
    let (state, mut progress) = nodes(4, Some(3));
    let messages = vec![(3, (0..16).collect()), (5, vec![])];
    let plans = eci::plan_round(Layout::Four, &state, &messages, 16, 0, 16);
    assert_eq!(plans.len(), 2);
    assert_eq!((loads(&plans[0]), loads(&plans[1])), (32, 32));
    let mut first = eci::write_data(Layout::Four, &state.frontier, &messages[0].1, 0, 16);
    first.extend(eci::plan_read(Layout::Four, 0, 16));
    assert_eq!(plans[0], first);
    let mut answers = vec![vec![0; 32], vec![0; 32]];
    answers[0][0] = 9;
    answers[0][16] = 2;
    answers[1][16] = 1;
    let ghosts = &state.ghost_indexes;
    let sent = eci::collect_round(Layout::Four, &mut progress, ghosts, &messages, &answers, 16);
    assert_eq!(sent, vec![(3, vec![4]), (5, vec![])]);
    assert_eq!(progress.wrapper_consumeds[&1][0].entries(), &vec![(3, 2), (5, 1)]);

    let none = vec![];
    let plans = eci::plan_round(Layout::Four, &state, &none, 16, 0, 16);
    assert_eq!(plans.len(), 1);
    let frame = eci::frame_idle(Layout::Four, &state, 16);
    assert_eq!(plans[0], eci::fpga_communication(Layout::Four, &frame, 16, 0, 16));
    let mut answer = vec![0; 32];
    answer[0] = 3;
    answer[30] = 9;
    let answers = vec![answer];
    let sent = eci::collect_round(Layout::Four, &mut progress, ghosts, &none, &answers, 16);
    assert_eq!(sent, vec![(4, vec![1])]);
    let answers = vec![vec![0; 32]];
    let sent = eci::collect_round(Layout::Four, &mut progress, ghosts, &none, &answers, 16);
    assert_eq!(sent, Vec::new());
}

#[test]
fn the_answer_can_be_worked_out_without_a_device() {
    let mut input = vec![0; 16 + 4];
    input[0] = 7;
    input[1] = 7;
    input[16] = 11;
    input[17] = 3;
    let output = eci::generate_fpga_output(&input, 4, 2);
    assert_eq!(output.len(), 20);
    assert_eq!(output[0..12].to_vec(), vec![11, 3, 0, 0, 2, 1, 0, 0, 2, 1, 0, 0]);
    assert_eq!(output[12..20].to_vec(), vec![0; 8]);
}

#[test]
fn a_narrow_frame_goes_out_in_pairs() {
    let (state, _) = nodes(31, Some(3));
    let data: Vec<u64> = (0..16).collect();
    let frame = pci::frame_message(FrameSize::Narrow, &state.frontier, &data);
    assert_eq!(frame.len(), 48);
    assert_eq!(frame[0..31].to_vec(), vec![7; 31]);
    assert_eq!(frame[31..34].to_vec(), vec![0, 1, 3]);
    let plan = pci::plan_message(FrameSize::Narrow, &frame);
    assert_eq!(loads(&plan), 140);
    assert_eq!(plan[0], Access::StorePair { slot: 0, first: 7, second: 7 });
    assert_eq!(plan[23], Access::StorePair { slot: 46, first: 29, second: 31 });
    assert_eq!(plan[24], Access::Fence);
    assert_eq!(plan[25], Access::LoadPair { slot: 0 });
    assert_eq!(plan[26], Access::Fence);
    assert_eq!(plan[41], Access::LoadPair { slot: 16 });
    let idle = pci::frame_idle(FrameSize::Narrow, &state.frontier);
    assert_eq!(idle[0..32], frame[0..32]);
    assert_eq!(idle[32..48].to_vec(), vec![0; 16]);
}

#[test]
fn a_wide_frame_may_lack_frontiers() {
    assert_eq!(FrameSize::Narrow.data_words(), 16);
    assert_eq!(FrameSize::Wide.data_words(), 1024);
    let (mut state, _) = nodes(31, Some(3));
    state.frontier[4].update_iter(&vec![(3, -1)]);
    state.frontier[30].update_iter(&vec![(3, -1)]);
    assert!(FrameSize::Wide.check_frontiers(&state.frontier));
    assert!(!FrameSize::Narrow.check_frontiers(&state.frontier));
    let data: Vec<u64> = (0..1024).collect();
    let frame = pci::frame_message(FrameSize::Wide, &state.frontier, &data);
    assert_eq!(frame.len(), 1056);
    assert_eq!(frame[3..7].to_vec(), vec![7, 0, 0, 7]);
    assert_eq!(frame[29..33].to_vec(), vec![7, 0, 0, 1]);
    assert_eq!(loads(&pci::plan_message(FrameSize::Wide, &frame)), 1148);
    assert_eq!(loads(&pci::plan_idle(FrameSize::Wide, &frame, 5)), 6);
    assert_eq!(loads(&pci::plan_idle(FrameSize::Narrow, &frame, 5)), 130);
}

#[test]
fn a_message_is_answered_through_mapped_memory() {
    let (state, mut progress) = nodes(31, Some(3));
    let mut words = vec![0; 140];
    words[1] = 3;
    words[16 + 4 * 30] = 2;
    words[16 + 4 * 30 + 1] = 1;
    words[16 + 4 * 30 + 2] = 9;
    words[16 + 4 * 30 + 3] = 4;
    let data = pci::collect_message(
        FrameSize::Narrow,
        &mut progress,
        5,
        &state.ghost_indexes,
        &words,
    );
    assert_eq!(data, vec![1]);
    assert_eq!(progress.wrapper_consumeds[&31][0].entries(), &vec![(5, 2)]);
    assert_eq!(progress.wrapper_produceds[&31][0].entries(), &vec![(5, 1)]);
    assert_eq!(progress.wrapper_internals[&31][0].entries(), &vec![(9, 4)]);
    assert!(progress.wrapper_consumeds[&1][0].is_empty());
}

#[test]
fn without_mapped_memory_sixteen_messages_are_said_to_pass() {
    let (state, mut progress) = nodes(31, Some(3));
    let data = pci::collect_emulated(&mut progress, 5, &state.ghost_indexes);
    assert_eq!(data, vec![0; 16]);
    for node in 1..32 {
        assert_eq!(progress.wrapper_consumeds[&node][0].entries(), &vec![(5, 16)]);
        assert_eq!(progress.wrapper_produceds[&node][0].entries(), &vec![(5, 16)]);
        assert!(progress.wrapper_internals[&node][0].is_empty());
    }
}

#[test]
fn in_a_round_without_messages_some_operators_consume_nothing() {
    let (state, mut progress) = nodes(31, Some(3));
    let mut words = vec![0; 4 + 124];
    words[2] = 13;
    for node in 0..31 {
        words[4 + 4 * node] = 1;
        words[4 + 4 * node + 1] = 2;
        words[4 + 4 * node + 2] = 7;
    }
    let sent = pci::collect_idle(
        FrameSize::Narrow,
        &mut progress,
        &state.ghost_indexes,
        &words,
        3,
    );
    assert_eq!(sent, Some((7, vec![6])));
    assert!(progress.wrapper_consumeds[&20][0].is_empty());
    assert_eq!(progress.wrapper_consumeds[&21][0].entries(), &vec![(7, 1)]);
    assert_eq!(progress.wrapper_produceds[&1][0].entries(), &vec![(7, 2)]);
    assert_eq!(progress.wrapper_produceds[&31][0].entries(), &vec![(7, 2)]);

    let (state, mut progress) = nodes(31, Some(3));
    let none = pci::collect_idle(
        FrameSize::Narrow,
        &mut progress,
        &state.ghost_indexes,
        &vec![0; 128],
        4,
    );
    assert_eq!(none, None);
    let wide =
        pci::collect_idle(FrameSize::Wide, &mut progress, &state.ghost_indexes, &vec![13, 0], 1);
    assert_eq!(wide, Some((0, vec![6])));
    assert!(progress.wrapper_produceds[&1][0].is_empty());
}

#[test]
fn a_round_through_mapped_memory_sends_each_message() {
    let (state, mut progress) = nodes(31, Some(3));
    let data: Vec<u64> = (0..16).collect();
    let messages = vec![(3, data.clone()), (4, data.clone())];
    let plans = pci::plan_round(FrameSize::Narrow, &state.frontier, &messages, 2);
    let frame = pci::frame_message(FrameSize::Narrow, &state.frontier, &data);
    assert_eq!(plans, vec![pci::plan_message(FrameSize::Narrow, &frame); 2]);
    let mut answers = vec![vec![0; 140]; 2];
    answers[1][15] = 3;
    answers[1][16] = 6;
    let ghosts = &state.ghost_indexes;
    let size = FrameSize::Narrow;
    let sent = pci::collect_round(size, &mut progress, ghosts, &messages, &answers, 2);
    assert_eq!(sent, vec![(3, vec![]), (4, vec![1])]);
    assert_eq!(progress.wrapper_consumeds[&1][0].entries(), &vec![(4, 6)]);

    let none = vec![];
    let plans = pci::plan_round(size, &state.frontier, &none, 2);
    let frame = pci::frame_idle(size, &state.frontier);
    assert_eq!(plans, vec![pci::plan_idle(size, &frame, 2)]);
    let mut answer = vec![0; 126];
    let sent =
        pci::collect_round(size, &mut progress, ghosts, &none, &vec![answer.clone()], 2);
    assert_eq!(sent, Vec::new());
    answer[1] = 5;
    let sent = pci::collect_round(size, &mut progress, ghosts, &none, &vec![answer], 2);
    assert_eq!(sent, vec![(0, vec![2])]);

    let (state, mut progress) = nodes(31, Some(3));
    let sent = pci::emulate_round(&mut progress, &state.ghost_indexes, &messages);
    assert_eq!(sent, vec![(3, vec![0; 16]), (4, vec![0; 16])]);
    assert_eq!(progress.wrapper_produceds[&31][0].entries(), &vec![(3, 16), (4, 16)]);
}

#[test]
fn the_simulated_device_answers_the_same_each_time() {
    let (state, _) = nodes(3, Some(2));
    let frame = simulation::frame_round(&state, &vec![(2, vec![4]), (3, vec![])]);
    let mut expected = vec![0; 32];
    expected[0] = 4;
    expected[1] = 5;
    expected[2] = 5;
    expected[3] = 5;
    expected[24] = 2;
    expected[25] = 1;
    expected[26] = 9;
    expected[27] = 3;
    assert_eq!(frame, expected);
    let answer = simulation::simulate(&frame);
    let mut expected = vec![4, 5, 5, 5, 1, 0, 1, 1, 0, 1, 3];
    expected.extend(vec![0; 12]);
    assert_eq!(answer, expected);
}

#[test]
fn operators_on_the_device_form_a_chain() {
    assert_eq!(chain_nodes(&vec![]), Vec::new());
    assert_eq!(chain_nodes(&vec![5]), Vec::new());
    assert_eq!(chain_nodes(&vec![5, 7, 6]), vec![(5, 7), (7, 6)]);
}

#[test]
fn operators_on_the_device_are_registered() {
    let mut builder: SubgraphBuilder<u64, u64> = SubgraphBuilder::new_from(0, vec![], "Scope");
    let ids = vec![50, 51, 52];
    let (registered, state) = builder.fpga_wrapper_eci(Source::new(0, 0), 2, &ids, 3);
    assert_eq!(registered.ghosts, vec![1, 2]);
    assert_eq!((registered.wrapper, registered.collector), (3, None));
    assert_eq!(registered.stream, Source::new(3, 0));
    assert_eq!(state.ghost_indexes, vec![(0, 1), (1, 2)]);
    let names: Vec<&str> = builder.children.iter().map(|c| c.name.as_str()).collect();
    assert_eq!(names, vec!["External", "Filter1", "Filter2", "Wrapper"]);
    assert_eq!(builder.children[3].id, 52);
    assert!(!builder.children[1].count_for_incomplete);
    assert!(builder.children[3].count_for_incomplete);
    assert!(!builder.children[3].notify);
    assert_eq!(builder.children[1].internal_summary[0][0].elements(), &vec![0]);
    let wrapper = &builder.children[3].shared_progress;
    assert_eq!(wrapper.wrapper_internals[&2][0].entries(), &vec![(0, 3)]);
    assert_eq!(builder.wrapper_ghost[&3], vec![1, 2]);
    assert_eq!(builder.wrapper_ghost_edges[&3], vec![(1, 2)]);
    assert_eq!(builder.edge_stash, vec![(Source::new(0, 0), Target::new(3, 0))]);
    assert!(!state.started);
    assert!(state.frontier.iter().all(|f| f.is_empty()));
    let event = |id: usize, addr: Vec<usize>, name: &str| OperatesEvent {
        id,
        addr,
        name: name.to_string(),
    };
    assert_eq!(
        registered.announced,
        vec![
            event(50, vec![0], "Filter1"),
            event(51, vec![0], "Filter2"),
            event(52, vec![0, 3], "Wrapper"),
        ]
    );
}

#[test]
fn other_ways_to_the_device_register_alike() {
    let mut builder: SubgraphBuilder<u64, u64> = SubgraphBuilder::new_from(0, vec![], "Scope");
    let ids = vec![50, 51, 52, 53];
    let (registered, _) = builder.fpga_wrapper_pci(Source::new(0, 0), 3, &ids, 1);
    assert_eq!(registered.ghosts, vec![1, 2, 3]);
    assert_eq!(registered.wrapper, 4);
    let (registered, _) = builder.fpga_wrapper_simulation(registered.stream, &ids, 1);
    assert_eq!(registered.ghosts, vec![5, 6, 7]);
    let names: Vec<&str> = builder.children.iter().map(|c| c.name.as_str()).collect();
    assert_eq!(names[5..9].to_vec(), vec!["Filter", "Map", "Aggregate", "Wrapper"]);
    assert_eq!(builder.ghost_wrapper[&7], 8);
    assert_eq!(builder.ghost_wrapper[&1], 4);
}
