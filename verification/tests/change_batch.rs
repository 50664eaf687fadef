use timely_fpga::change_batch::ChangeBatch;

#[test]
fn changes_add_up() {
    let mut batch: ChangeBatch<u64> = ChangeBatch::new();
    assert!(batch.is_empty());
    batch.update(3, 2);
    batch.update(1, 5);
    batch.update(3, -2);
    assert_eq!(batch.entries(), &vec![(1, 5)]);
    assert_eq!(batch.drain(), vec![(1, 5)]);
    assert!(batch.is_empty());
    assert_eq!(batch.drain(), Vec::new());
}

#[test]
fn changes_are_kept_in_order_of_time() {
    let mut batch: ChangeBatch<u64> = ChangeBatch::new();
    for time in [9, 2, 5, 0] {
        batch.update(time, time as i64 + 1);
    }
    assert_eq!(batch.entries(), &vec![(0, 1), (2, 3), (5, 6), (9, 10)]);
}

#[test]
fn a_batch_starts_from_one_change() {
    let batch = ChangeBatch::new_from(7u64, -4);
    assert_eq!(batch.entries(), &vec![(7, -4)]);
    let nothing = ChangeBatch::new_from(7u64, 0);
    assert!(nothing.is_empty());
}

#[test]
fn updates_commute() {
    let mut one: ChangeBatch<u64> = ChangeBatch::new();
    one.update(4, 1);
    one.update(2, -3);
    let mut other: ChangeBatch<u64> = ChangeBatch::new();
    other.update(2, -3);
    other.update(4, 1);
    assert_eq!(one.entries(), other.entries());
}

#[test]
fn an_update_is_undone_by_its_opposite() {
    let mut batch = ChangeBatch::new_from(8u64, 3);
    batch.update(5, 6);
    batch.update(5, -6);
    assert_eq!(batch.entries(), &vec![(8, 3)]);
}

#[test]
fn extending_in_parts_is_extending_at_once() {
    let mut whole: ChangeBatch<u64> = ChangeBatch::new();
    whole.extend(&vec![(1, 1), (2, 2), (1, -1), (3, 3)]);
    let mut parts: ChangeBatch<u64> = ChangeBatch::new();
    parts.extend(&vec![(1, 1), (2, 2)]);
    parts.extend(&vec![]);
    parts.extend(&vec![(1, -1), (3, 3)]);
    assert_eq!(whole.entries(), parts.entries());
    assert_eq!(whole.entries(), &vec![(2, 2), (3, 3)]);
}

#[test]
fn draining_into_another_batch_moves_everything() {
    let mut from: ChangeBatch<u64> = ChangeBatch::new();
    from.extend(&vec![(1, 4), (2, 5)]);
    let mut to = ChangeBatch::new_from(2u64, -5);
    from.drain_into(&mut to);
    assert!(from.is_empty());
    assert_eq!(to.entries(), &vec![(1, 4)]);
}

#[test]
fn counts_wrap_around() {
    let mut batch = ChangeBatch::new_from(0u64, i64::MAX);
    batch.update(0, 1);
    assert_eq!(batch.entries(), &vec![(0, i64::MIN)]);
}
