use patches::instance_id::{IdSource, InstanceId};

#[test]
fn module_instance_ids_are_unique() {
    let mut source = IdSource::new();
    let a = InstanceId::next(&mut source);
    let b = InstanceId::next(&mut source);
    assert_ne!(a, b);
}

#[test]
fn instance_id_instance_ids_are_unique() {
    let mut source = IdSource::new();
    let a = InstanceId::next(&mut source);
    let b = InstanceId::next(&mut source);
    assert_ne!(a, b);
}

#[test]
fn draws_are_consecutive_raw_values() {
    let mut source = IdSource::starting_at(41);
    assert_eq!(InstanceId::next(&mut source).raw(), 41);
    assert_eq!(InstanceId::next(&mut source).raw(), 42);
}

#[test]
fn counter_wraps_at_u64_max() {
    let mut source = IdSource::starting_at(u64::MAX);
    assert_eq!(InstanceId::next(&mut source).raw(), u64::MAX);
    assert_eq!(InstanceId::next(&mut source).raw(), 0);
}

#[test]
fn from_raw_round_trips() {
    assert_eq!(InstanceId::from_raw(7).raw(), 7);
    assert_eq!(InstanceId::from_raw(7), InstanceId::from_raw(7));
}

#[test]
fn every_draw_differs_from_all_earlier_ones() {
    let mut source = IdSource::starting_at(u64::MAX - 500);
    let mut seen: Vec<InstanceId> = Vec::new();
    for _ in 0..1000 {
        let id = InstanceId::next(&mut source);
        assert!(!seen.contains(&id));
        seen.push(id);
    }
}
