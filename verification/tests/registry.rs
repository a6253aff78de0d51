use rend3::handle::{RawResourceHandle, ResourceHandle};
use rend3::registry::ResourceRegistry;
use rend3::types::Mesh;

fn handles(count: usize) -> Vec<ResourceHandle<Mesh>> {
    (0..count).map(|i| ResourceHandle::new(10 + i)).collect()
}

fn filled(handles: &[ResourceHandle<Mesh>]) -> ResourceRegistry<u32, Mesh> {
    let mut registry = ResourceRegistry::new();
    for (i, handle) in handles.iter().enumerate() {
        registry.insert(handle, 100 + i as u32);
    }
    registry
}

#[test]
fn a_new_registry_is_empty() {
    let registry: ResourceRegistry<u32, Mesh> = ResourceRegistry::new();
    assert_eq!(registry.count(), 0);
    assert!(registry.values().is_empty());
    assert!(!registry.contains(RawResourceHandle::new(0)));
    assert!(registry.poll_dead().is_empty());
}

#[test]
fn inserted_values_are_found_by_handle() {
    let handles = handles(3);
    let registry = filled(&handles);
    assert_eq!(registry.count(), 3);
    assert!(registry.contains(handles[1].get_raw()));
    assert!(!registry.contains(RawResourceHandle::new(13)));
    assert_eq!(*registry.get(handles[0].get_raw()), 100);
    assert_eq!(*registry.get(handles[1].get_raw()), 101);
    assert_eq!(*registry.get(handles[2].get_raw()), 102);
    assert_eq!(registry.get_index_of(handles[2].get_raw()), 2);
    assert_eq!(registry.values(), vec![&100, &101, &102]);
}

#[test]
fn get_mut_changes_one_value_in_place() {
    let handles = handles(3);
    let mut registry = filled(&handles);
    *registry.get_mut(handles[1].get_raw()) = 7;
    assert_eq!(registry.values(), vec![&100, &7, &102]);
    assert_eq!(registry.count(), 3);
}

#[test]
fn marked_entries_leave_from_the_back_and_the_last_fills_the_gap() {
    let handles = handles(5);
    let mut registry = filled(&handles);
    let reaped = registry.remove_marked(&vec![true, false, true, false, false]);
    assert_eq!(reaped.len(), 2);
    assert_eq!((reaped[0].idx, reaped[0].dense_index, reaped[0].data), (12, 2, 102));
    assert_eq!((reaped[1].idx, reaped[1].dense_index, reaped[1].data), (10, 0, 100));
    assert_eq!(registry.count(), 3);
    assert_eq!(registry.values(), vec![&103, &101, &104]);
    assert!(!registry.contains(handles[0].get_raw()));
    assert!(!registry.contains(handles[2].get_raw()));
    assert_eq!(*registry.get(handles[3].get_raw()), 103);
    assert_eq!(registry.get_index_of(handles[3].get_raw()), 0);
    assert_eq!(registry.get_index_of(handles[4].get_raw()), 2);
}

#[test]
fn nothing_marked_changes_nothing() {
    let handles = handles(2);
    let mut registry = filled(&handles);
    let reaped = registry.remove_marked(&vec![false, false]);
    assert!(reaped.is_empty());
    assert_eq!(registry.values(), vec![&100, &101]);
}

#[test]
fn everything_marked_empties_the_registry() {
    let handles = handles(3);
    let mut registry = filled(&handles);
    let reaped = registry.remove_marked(&vec![true, true, true]);
    assert_eq!(reaped.iter().map(|r| r.idx).collect::<Vec<_>>(), vec![12, 11, 10]);
    assert_eq!(registry.count(), 0);
}

#[test]
fn an_entry_is_dead_once_its_handle_is_dropped() {
    let mut handles = handles(3);
    let mut registry = filled(&handles);
    assert_eq!(registry.poll_dead(), vec![false, false, false]);
    let kept = handles[1].clone();
    handles.remove(1);
    handles.remove(0);
    assert_eq!(registry.poll_dead(), vec![true, false, false]);
    let reaped = registry.remove_all_dead();
    assert_eq!(reaped.len(), 1);
    assert_eq!(reaped[0].idx, 10);
    assert_eq!(reaped[0].data, 100);
    assert_eq!(registry.count(), 2);
    assert!(registry.contains(kept.get_raw()));
    drop(kept);
    drop(handles);
    let reaped = registry.remove_all_dead();
    assert_eq!(reaped.len(), 2);
    assert_eq!(registry.count(), 0);
}

#[test]
fn entries_are_reached_by_their_dense_index() {
    let handles = handles(3);
    let mut registry = filled(&handles);
    assert_eq!(registry.key_at(0), 10);
    assert_eq!(registry.key_at(2), 12);
    assert_eq!(*registry.value_at(1), 101);
    *registry.value_at_mut(2) = 9;
    assert_eq!(registry.values(), vec![&100, &101, &9]);
    assert_eq!(*registry.get(handles[2].get_raw()), 9);
}
