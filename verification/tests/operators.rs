use timely_fpga::access::Access;
use timely_fpga::bloom::{fill_filter, Bloom, BloomFilter};
use timely_fpga::bloom_hard::{BloomHardware, Lines};
use timely_fpga::delay::{Delay, DelayBuffer, Held};
use timely_fpga::execute::{mapped_bytes, parse_number, Configuration, Params, ParamsError};
use timely_fpga::fakeoperator::{update_each, FakeOperator, FpgaOperator, OperatorShape};
use timely_fpga::frontier::Antichain;
use timely_fpga::shared_progress::SharedProgress;

fn shape(name: &str) -> OperatorShape {
    OperatorShape { name: name.to_string(), notify: false, peers: 2, inputs: 1, outputs: 1 }
}

fn args(words: &[&str]) -> Vec<String> {
    words.iter().map(|w| w.to_string()).collect()
}

#[test]
fn an_operator_on_the_device_does_nothing_on_the_host() {
    let mut fake: FakeOperator<u64> = FakeOperator {
        shape: shape("Filter1"),
        address: vec![0, 3],
        shared_progress: SharedProgress::new(1, 1),
        summary: vec![],
    };
    assert_eq!(fake.name(), "Filter1");
    assert_eq!(fake.path(), &vec![0, 3]);
    assert_eq!((fake.inputs(), fake.outputs()), (1, 1));
    assert!(!fake.notify_me());
    assert!(!fake.schedule());
    assert!(!fake.set_external_summary());
    let summary = fake.get_internal_summary();
    assert_eq!(summary.len(), 1);
    assert_eq!(summary[0].len(), 1);
    assert_eq!(summary[0][0].elements(), &vec![0]);
    assert_eq!(fake.shared_progress.internals[0].entries(), &vec![(0, 2)]);
}

#[test]
fn the_operator_that_stands_for_others_holds_their_capabilities() {
    let mut operator: FpgaOperator<u64> = FpgaOperator {
        shape: shape("Wrapper"),
        address: vec![0, 4],
        shared_progress: SharedProgress::new_ghosts(1, 1, &vec![2, 3]),
        summary: vec![vec![Antichain::from_elem(0)]],
        ghost_indexes: vec![(0, 2), (1, 3)],
    };
    assert_eq!(operator.name(), "Wrapper");
    assert_eq!(operator.path(), &vec![0, 4]);
    assert!(operator.schedule(true));
    assert!(!operator.schedule(false));
    assert!(operator.set_external_summary());
    let summary = operator.get_internal_summary();
    assert_eq!(summary[0][0].elements(), &vec![0]);
    assert!(operator.shared_progress.internals[0].is_empty());
    assert_eq!(operator.shared_progress.wrapper_internals[&2][0].entries(), &vec![(0, 2)]);
    assert_eq!(operator.shared_progress.wrapper_internals[&3][0].entries(), &vec![(0, 2)]);
    let described = operator.describe();
    assert_eq!(described.name, "Wrapper");
    assert!(described.local);
    assert_eq!(described.shared_progress.wrapper_internals[&3][0].entries(), &vec![(0, 4)]);
}

#[test]
fn all_outputs_are_updated() {
    let mut p: SharedProgress<u64> = SharedProgress::new(0, 2);
    update_each(&mut p.internals, 1, 5);
    assert_eq!(p.internals[0].entries(), &vec![(1, 5)]);
    assert_eq!(p.internals[1].entries(), &vec![(1, 5)]);
}

#[test]
fn things_are_held_until_taken() {
    let mut held: Held<u64, char> = Held::new();
    assert!(held.put(3, 'a'));
    assert!(held.put(1, 'b'));
    assert!(!held.put(3, 'c'));
    assert_eq!(held.take(&2), None);
    assert_eq!(held.take(&3), Some(vec!['a', 'c']));
    assert_eq!(held.take(&3), None);
    assert_eq!(held.take(&1), Some(vec!['b']));
}

#[test]
fn records_are_delayed() {
    let mut buffer: DelayBuffer<u64, u64> = DelayBuffer::new();
    let wanted = buffer.delay(1, vec![0, 5, 2, 6], |d, t| if *d < 4 { *t } else { *t + 10 });
    assert_eq!(wanted, vec![1, 11]);
    let wanted = buffer.delay(2, vec![7], |_, _| 11);
    assert_eq!(wanted, Vec::new());
    assert_eq!(buffer.release(&1), Some(vec![0, 2]));
    assert_eq!(buffer.release(&11), Some(vec![5, 6, 7]));
    assert_eq!(buffer.release(&11), None);
    assert_eq!(buffer.release_batches(&11), None);
}

#[test]
fn batches_are_delayed() {
    let mut buffer: DelayBuffer<u64, u64> = DelayBuffer::new();
    assert_eq!(buffer.delay_batch(1, vec![1, 2], |_| 5), Some(5));
    assert_eq!(buffer.delay_batch(2, vec![3], |_| 5), None);
    assert_eq!(buffer.delay_batch(2, vec![4], |t| *t), Some(2));
    assert_eq!(buffer.release(&5), None);
    assert_eq!(buffer.release_batches(&5), Some(vec![vec![1, 2], vec![3]]));
    assert_eq!(buffer.release_batches(&2), Some(vec![vec![4]]));
}

#[test]
fn the_filter_holds_the_mark_of_each_lane() {
    let data: Vec<u8> = (0..128u32).map(|i| (i * 246 % 256) as u8).collect();
    let mut expected = [0u8; 128];
    expected[0] = 163;
    assert_eq!(fill_filter(&data), expected);
    let mut longer = data.clone();
    longer.push(9);
    assert_eq!(fill_filter(&longer), expected);
    assert_eq!(fill_filter(&data[0..127].to_vec()), [0u8; 128]);
    expected[0] = 85;
    assert_eq!(fill_filter(&vec![3; 128]), expected);
}

#[test]
fn a_hash_whose_byte_is_not_in_the_filter_leaves_no_mark() {
    let mut expected = [0u8; 128];
    expected[0] = 212;
    assert_eq!(fill_filter(&vec![1; 128]), expected);
}

#[test]
fn bytes_are_mapped_whatever_the_length_of_the_batch() {
    let mut filter = BloomFilter::new();
    for length in [0, 1, 127, 128, 129, 500] {
        let data = vec![1; length];
        assert_eq!(filter.bloom(data, |x| x + 1), vec![2; length]);
        assert_eq!(filter.cells[0], if length < 128 { 0 } else { 212 });
    }
}

#[test]
fn bytes_go_out_through_one_line_and_come_back_through_another() {
    let lines = Lines::new();
    let data: Vec<u8> = (100..120).collect();
    let plan = lines.bloom_hardware(&data);
    assert_eq!(plan.len(), 44);
    assert_eq!(plan[0], Access::Store { slot: 0, word: 100 });
    assert_eq!(plan[15], Access::Store { slot: 15, word: 115 });
    assert_eq!(plan[16], Access::Fence);
    assert_eq!(plan[17], Access::Load { slot: 16 });
    assert_eq!(plan[33], Access::Fence);
    assert_eq!(plan[34], Access::Store { slot: 0, word: 116 });
    assert_eq!(plan[38], Access::Fence);
    assert_eq!(plan[39], Access::Load { slot: 16 });
    assert_eq!(plan[42], Access::Load { slot: 19 });
    assert_eq!(plan[43], Access::Fence);
    assert_eq!(lines.bloom_hardware(&data[0..16].to_vec()), plan[0..34].to_vec());
    assert_eq!(lines.bloom_hardware(&vec![]), Vec::new());
    assert_eq!(lines.read_bytes(&vec![100, 256, 511]), vec![100, 0, 255]);
}

#[test]
fn a_byte_comes_back_for_each() {
    let lines = Lines::new();
    for length in [0, 1, 15, 16, 17, 32, 100] {
        let plan = lines.bloom_hardware(&vec![7; length]);
        let loads = plan.iter().filter(|a| matches!(a, Access::Load { .. })).count();
        let stores = plan.iter().filter(|a| matches!(a, Access::Store { .. })).count();
        assert_eq!((loads, stores), (length, length));
    }
}

#[test]
fn numbers_are_parsed() {
    assert_eq!(parse_number("0"), Some(0));
    assert_eq!(parse_number("+17"), Some(17));
    assert_eq!(parse_number("-17"), Some(-17));
    assert_eq!(parse_number("0042"), Some(42));
    assert_eq!(parse_number("9223372036854775807"), Some(i64::MAX));
    assert_eq!(parse_number("9223372036854775808"), None);
    assert_eq!(parse_number("-9223372036854775808"), Some(i64::MIN));
    assert_eq!(parse_number("-9223372036854775809"), None);
    for text in ["", "+", "-", " 1", "1 ", "--1", "0x1", "1.5", "\u{0663}"] {
        assert_eq!(parse_number(text), None);
        assert!(text.parse::<i64>().is_err());
    }
}

#[test]
fn parameters_come_from_the_first_three_arguments() {
    assert_eq!(
        Params::from_args(&args(&["run", "10", "16", "-1", "x"])),
        Ok(Params { rounds: 10, data: 16, operators: -1 })
    );
    assert_eq!(
        Params::from_args(&args(&["run", "one", "2", "3"])),
        Err(ParamsError::Invalid(1))
    );
    assert_eq!(Params::from_args(&args(&["run", "1", "2", ""])), Err(ParamsError::Invalid(3)));
}

#[test]
fn absent_parameters_are_zero() {
    assert_eq!(Params::none(), Params { rounds: 0, data: 0, operators: 0 });
    assert_eq!(Params::from_args(&args(&[])), Ok(Params::none()));
    assert_eq!(Params::from_args(&args(&["run"])), Ok(Params::none()));
    assert_eq!(
        Params::from_args(&args(&["run", "7", "8"])),
        Ok(Params { rounds: 7, data: 8, operators: 0 })
    );
}

#[test]
fn options_are_no_parameters() {
    assert_eq!(Params::from_args(&args(&["run", "-w", "2"])), Ok(Params::none()));
    let hosts = ["run", "-w", "2", "-n", "4", "-h", "hosts.txt", "-p", "0"];
    assert_eq!(Params::from_args(&args(&hosts)), Ok(Params::none()));
    assert_eq!(
        Params::from_args(&args(&["run", "5", "--workers", "2", "16", "-p", "1", "3"])),
        Ok(Params { rounds: 5, data: 16, operators: 3 })
    );
    assert_eq!(
        Params::from_args(&args(&["run", "-n", "4", "x"])),
        Err(ParamsError::Invalid(3))
    );
    assert_eq!(Params::from_args(&args(&["run", "-w"])), Ok(Params::none()));
}

#[test]
fn options_configure_workers() {
    let of = |words: &[&str]| match Configuration::from_args(&args(words)) {
        Ok(c) => Ok((c.workers, c.processes, c.process, c.hostfile)),
        Err(e) => Err(e),
    };
    assert_eq!(of(&["run"]), Ok((1, 1, 0, None)));
    assert_eq!(of(&["run", "-w", "2"]), Ok((2, 1, 0, None)));
    assert_eq!(
        of(&["run", "-w", "2", "-n", "4", "-h", "hosts.txt", "-p", "3"]),
        Ok((2, 4, 3, Some("hosts.txt".to_string())))
    );
    assert_eq!(
        of(&["run", "9", "--processes", "4", "--process", "1", "--workers", "6"]),
        Ok((6, 4, 1, None))
    );
    assert_eq!(of(&["run", "--hostfile", "-w"]), Ok((1, 1, 0, Some("-w".to_string()))));
    assert_eq!(of(&["run", "-w"]), Err(ParamsError::Missing(2)));
    assert_eq!(of(&["run", "-h"]), Err(ParamsError::Missing(2)));
    assert_eq!(of(&["run", "-w", "two"]), Err(ParamsError::Invalid(2)));
    assert_eq!(of(&["run", "-n", "-1"]), Err(ParamsError::Invalid(2)));
}

#[test]
fn buffers_have_a_line_more_than_their_data() {
    let params = Params { rounds: 1, data: 16, operators: 1 };
    assert_eq!(params.buffer_size(), 192);
    assert_eq!(mapped_bytes(48), 0x30000);
}
