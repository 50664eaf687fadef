use timely_fpga::frontier::{Antichain, MutableAntichain};
use timely_fpga::order::{Ordered, PartialOrder, Refines, Relation, Timestamp};
use timely_fpga::location::{Location, Pointstamp, Port, Source, Target};

#[test]
fn an_antichain_keeps_the_least() {
    let mut least: Antichain<u64> = Antichain::new();
    assert!(least.insert(5));
    assert!(!least.insert(7));
    assert_eq!(least.elements(), &vec![5]);
    assert!(!least.insert(5));
    assert!(least.insert(3));
    assert_eq!(least.elements(), &vec![3]);
    assert_eq!(least.duplicate().elements(), &vec![3]);
    assert_eq!(Antichain::from_elem(9u64).elements(), &vec![9]);
}

#[test]
fn the_frontier_is_the_least_time_that_counts() {
    let mut f: MutableAntichain<u64> = MutableAntichain::new();
    assert!(f.is_empty());
    assert!(!f.less_equal(&100));
    assert_eq!(f.update_iter(&vec![(4, 1), (9, 1)]), vec![(4, 1)]);
    assert_eq!(f.frontier(), &vec![4]);
    assert!(f.less_equal(&4));
    assert!(f.less_equal(&5));
    assert!(!f.less_equal(&3));
    assert_eq!(f.update_iter(&vec![(4, -1)]), vec![(4, -1), (9, 1)]);
    assert_eq!(f.frontier(), &vec![9]);
    assert_eq!(f.update_iter(&vec![(9, -1)]), vec![(9, -1)]);
    assert!(f.is_empty());
}

#[test]
fn times_behind_the_frontier_change_nothing() {
    let mut f: MutableAntichain<u64> = MutableAntichain::new();
    f.update_iter(&vec![(2, 1)]);
    assert_eq!(f.update_iter(&vec![(6, 3)]), Vec::new());
    assert_eq!(f.update_iter(&vec![(6, -3)]), Vec::new());
    assert_eq!(f.frontier(), &vec![2]);
}

#[test]
fn a_frontier_is_the_sum_of_its_changes() {
    let mut f: MutableAntichain<u64> = MutableAntichain::new();
    let mut changes = f.update_iter(&vec![(3, 2)]);
    changes.extend(f.update_iter(&vec![(1, 1), (3, -2)]));
    changes.extend(f.update_iter(&vec![(1, -1), (8, 1)]));
    let at_eight: i64 = changes.iter().filter(|c| c.0 == 8).map(|c| c.1).sum();
    let elsewhere: i64 = changes.iter().filter(|c| c.0 != 8).map(|c| c.1).sum();
    assert_eq!(at_eight, 1);
    assert_eq!(elsewhere, 0);
    assert_eq!(f.frontier(), &vec![8]);
}

#[test]
fn times_are_ordered() {
    assert!(matches!(3u64.relate(&4), Relation::Before));
    assert!(matches!(4u64.relate(&4), Relation::Same));
    assert!(matches!(5u64.relate(&4), Relation::After));
    assert!(PartialOrder::less_equal(&4u64, &4));
    assert!(!PartialOrder::less_equal(&5u64, &4));
    assert_eq!(<u64 as Timestamp>::minimum(), 0);
    assert_eq!(<u64 as Timestamp>::identity_summary(), 0);
    assert_eq!(<u64 as Refines<u64>>::to_inner(6), 6);
    assert_eq!(Refines::<u64>::to_outer(6u64), 6);
    assert_eq!(<u64 as Refines<u64>>::summarize(2), 2);
}

#[test]
fn places_are_ordered_by_node_and_then_by_port() {
    let target = Location::new_target(2, 9);
    let source = Location::new_source(2, 0);
    assert!(matches!(target.relate(&source), Relation::Before));
    assert!(matches!(source.relate(&target), Relation::After));
    assert!(matches!(Location::new_target(1, 1).relate(&target), Relation::Before));
    assert!(matches!(Location::new_target(2, 8).relate(&target), Relation::Before));
    assert!(matches!(Location::new_source(2, 0).relate(&source), Relation::Same));
    assert!(matches!(Source::new(4, 1), Source { node: 4, port: 1 }));
    assert!(matches!(source.port, Port::Source(0)));
    let early = Pointstamp { location: target, time: 5u64 };
    let late = Pointstamp { location: target, time: 6u64 };
    assert!(matches!(early.relate(&late), Relation::Before));
}
