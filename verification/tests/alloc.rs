use patches::allocation::{find_slot, ModuleAllocDiff, ModuleAllocState};
use patches::instance_id::{IdSource, InstanceId};
use patches::planner::PlanError;

fn fresh_ids(src: &mut IdSource, n: usize) -> Vec<InstanceId> {
    (0..n).map(|_| InstanceId::next(src)).collect()
}

fn id_set(ids: &[InstanceId]) -> Vec<InstanceId> {
    let mut out: Vec<InstanceId> = Vec::new();
    for id in ids {
        if !out.contains(id) {
            out.push(*id);
        }
    }
    out
}

fn apply(diff: &ModuleAllocDiff) -> ModuleAllocState {
    ModuleAllocState {
        pool_map: diff.slot_map.clone(),
        freelist: diff.freelist.clone(),
        next_hwm: diff.next_hwm,
    }
}

fn slot(diff: &ModuleAllocDiff, id: &InstanceId) -> usize {
    find_slot(&diff.slot_map, *id).expect("id missing from slot_map")
}

#[test]
fn alloc_slot_map_contains_exactly_new_ids() {
    let mut src = IdSource::new();
    let state = ModuleAllocState::default();
    let ids = fresh_ids(&mut src, 4);
    let diff = state.diff(&id_set(&ids), 64).unwrap();

    assert_eq!(diff.slot_map.len(), 4);
    for id in &ids {
        assert!(diff.slot_map.iter().any(|(k, _)| k == id), "id missing from slot_map");
    }
}

#[test]
fn alloc_fresh_slots_are_unique() {
    let mut src = IdSource::new();
    let state = ModuleAllocState::default();
    let ids = fresh_ids(&mut src, 5);
    let diff = state.diff(&id_set(&ids), 64).unwrap();

    let mut slots: Vec<usize> = diff.slot_map.iter().map(|(_, s)| *s).collect();
    slots.sort_unstable();
    slots.dedup();
    assert_eq!(slots.len(), 5, "all assigned slots must be distinct");
}

#[test]
fn alloc_empty_diff_on_empty_state_is_noop() {
    let state = ModuleAllocState::default();
    let diff = state.diff(&Vec::new(), 64).unwrap();

    assert!(diff.slot_map.is_empty());
    assert!(diff.tombstoned.is_empty());
    assert!(diff.freelist.is_empty());
    assert_eq!(diff.next_hwm, 0);
}

#[test]
fn alloc_empty_new_ids_tombstones_all() {
    let mut src = IdSource::new();
    let state = ModuleAllocState::default();
    let ids = fresh_ids(&mut src, 3);
    let diff0 = state.diff(&id_set(&ids), 64).unwrap();
    let hwm = diff0.next_hwm;

    let state1 = apply(&diff0);
    let diff1 = state1.diff(&Vec::new(), 64).unwrap();

    assert!(diff1.slot_map.is_empty());
    assert_eq!(diff1.tombstoned.len(), 3, "all three slots must be tombstoned");
    assert_eq!(diff1.freelist.len(), 3, "all three slots must be freelisted");
    assert_eq!(diff1.next_hwm, hwm, "hwm must not change");
}

#[test]
fn alloc_allocation_at_capacity_boundary_succeeds() {
    let mut src = IdSource::new();
    let state = ModuleAllocState::default();
    let ids = fresh_ids(&mut src, 3);
    let result = state.diff(&id_set(&ids), 3);
    assert!(result.is_ok(), "allocation filling capacity exactly must succeed");
    assert_eq!(result.unwrap().next_hwm, 3);
}

#[test]
fn alloc_allocation_one_past_capacity_fails() {
    let mut src = IdSource::new();
    let state = ModuleAllocState::default();
    let ids = fresh_ids(&mut src, 3);
    let result = state.diff(&id_set(&ids), 2);
    assert!(
        matches!(result, Err(PlanError::ModulePoolExhausted)),
        "allocating beyond capacity must return ModulePoolExhausted"
    );
}

#[test]
fn alloc_recycled_slot_does_not_count_against_capacity() {
    let mut src = IdSource::new();
    let state = ModuleAllocState::default();
    let ids = fresh_ids(&mut src, 2);
    let diff0 = state.diff(&id_set(&ids), 2).unwrap();

    let state1 = apply(&diff0);
    let diff1 = state1.diff(&Vec::new(), 2).unwrap();

    let new_ids = fresh_ids(&mut src, 2);
    let state2 = apply(&diff1);
    let diff2 = state2.diff(&id_set(&new_ids), 2).unwrap();
    assert_eq!(diff2.next_hwm, 2, "hwm must not grow when recycling");
}

#[test]
fn alloc_freelist_is_lifo() {
    let mut src = IdSource::new();
    let state = ModuleAllocState::default();
    let ids = fresh_ids(&mut src, 3);
    let diff0 = state.diff(&id_set(&ids), 64).unwrap();

    let state1 = apply(&diff0);
    let diff1 = state1.diff(&Vec::new(), 64).unwrap();
    let last_on_freelist = *diff1.freelist.last().unwrap();

    let new_id = fresh_ids(&mut src, 1)[0];
    let state2 = apply(&diff1);
    let diff2 = state2.diff(&id_set(&[new_id]), 64).unwrap();

    assert_eq!(
        slot(&diff2, &new_id),
        last_on_freelist,
        "new module must reuse the last slot pushed onto the freelist (LIFO)"
    );
    assert_eq!(diff2.freelist.len(), 2, "two slots remain on freelist after recycling one");
}

#[test]
fn alloc_freelist_accounting_is_correct() {
    let mut src = IdSource::new();
    let state = ModuleAllocState { pool_map: Vec::new(), freelist: vec![5], next_hwm: 6 };

    let ids = fresh_ids(&mut src, 2);
    let diff = state.diff(&id_set(&ids), 64).unwrap();

    assert!(diff.freelist.is_empty(), "freelist must be empty after recycling the one entry");
    assert_eq!(diff.next_hwm, 7, "hwm advanced once for the non-recycled id");
    assert!(diff.tombstoned.is_empty());

    let mut slots: Vec<usize> = diff.slot_map.iter().map(|(_, s)| *s).collect();
    slots.sort_unstable();
    assert_eq!(slots, vec![5, 6], "must contain the recycled slot and the new hwm slot");
}

#[test]
fn alloc_surviving_entries_not_tombstoned() {
    let mut src = IdSource::new();
    let state = ModuleAllocState::default();
    let ids = fresh_ids(&mut src, 3);
    let diff0 = state.diff(&id_set(&ids), 64).unwrap();

    let state1 = apply(&diff0);
    let diff1 = state1.diff(&id_set(&ids[..2]), 64).unwrap();

    assert_eq!(diff1.tombstoned.len(), 1, "only the removed id is tombstoned");
    assert!(diff1.tombstoned.contains(&slot(&diff0, &ids[2])));

    for id in &ids[..2] {
        assert_eq!(slot(&diff0, id), slot(&diff1, id), "surviving slot must be stable");
    }
}

#[test]
fn alloc_tombstoned_and_slot_map_are_disjoint() {
    let mut src = IdSource::new();
    let state = ModuleAllocState::default();
    let ids = fresh_ids(&mut src, 4);
    let diff0 = state.diff(&id_set(&ids), 64).unwrap();

    let state1 = apply(&diff0);
    let diff1 = state1.diff(&id_set(&ids[..2]), 64).unwrap();

    let active_slots: Vec<usize> = diff1.slot_map.iter().map(|(_, s)| *s).collect();
    for &t in &diff1.tombstoned {
        assert!(!active_slots.contains(&t), "tombstoned slot {t} must not appear in slot_map");
    }
}
