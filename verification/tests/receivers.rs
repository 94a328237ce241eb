use patches::instance_id::InstanceId;
use patches::receivers::{midi_receivers, sort_slots};

fn id(raw: u64) -> InstanceId {
    InstanceId::from_raw(raw)
}

#[test]
fn sort_slots_orders_ascending() {
    assert_eq!(sort_slots(&vec![5, 1, 3, 1]), vec![1, 1, 3, 5]);
    assert!(sort_slots(&vec![]).is_empty());
}

#[test]
fn surviving_receivers_are_kept_and_removed_ones_dropped() {
    let pool_map = vec![(id(1), 4), (id(3), 0), (id(7), 2)];
    let previous = vec![id(1), id(2)];
    let fresh = vec![id(7)];
    let (ids, slots) = midi_receivers(&previous, &fresh, &pool_map);
    assert_eq!(ids, vec![id(1), id(7)]);
    assert_eq!(slots, vec![2, 4]);
}

#[test]
fn no_receivers_gives_no_slots() {
    let pool_map = vec![(id(1), 0)];
    let (ids, slots) = midi_receivers(&vec![], &vec![], &pool_map);
    assert!(ids.is_empty());
    assert!(slots.is_empty());
}
