use rend3::handle::{leaves_none_outside, RawResourceHandle, ResourceHandle};
use rend3::mesh::MeshManager;
use rend3::skeleton::SkeletonManager;
use rend3::types::{Mesh, Skeleton};
use std::sync::atomic::{AtomicUsize, Ordering};

#[test]
fn a_handle_keeps_its_index() {
    let handle: ResourceHandle<Skeleton> = ResourceHandle::new(7);
    assert_eq!(handle.get_raw().idx, 7);
    let copy = handle.clone();
    assert_eq!(copy.get_raw().idx, 7);
    let raw: RawResourceHandle<Skeleton> = RawResourceHandle::new(9);
    let raw_copy = raw;
    assert_eq!(raw.idx, 9);
    assert_eq!(raw_copy.clone().idx, 9);
}

#[test]
fn a_share_is_last_once_every_copy_is_dropped() {
    let handle: ResourceHandle<Mesh> = ResourceHandle::new(0);
    let share = handle.get_refcount();
    assert!(!share.is_last());
    let copy = handle.clone();
    drop(handle);
    assert!(!share.is_last());
    drop(copy);
    assert!(share.is_last());
}

#[test]
fn allocated_skeleton_handles_count_up() {
    let counter = AtomicUsize::new(0);
    let first = SkeletonManager::allocate(&counter);
    let second = SkeletonManager::allocate(&counter);
    let third = SkeletonManager::allocate(&counter);
    assert_eq!(first.get_raw().idx, 0);
    assert_eq!(second.get_raw().idx, 1);
    assert_eq!(third.get_raw().idx, 2);
    assert_eq!(counter.load(Ordering::Relaxed), 3);
}

#[test]
fn allocated_mesh_handles_start_at_the_counter() {
    let counter = AtomicUsize::new(41);
    let first = MeshManager::allocate(&counter);
    let second = MeshManager::allocate(&counter);
    assert_eq!(first.get_raw().idx, 41);
    assert_eq!(second.get_raw().idx, 42);
}

#[test]
fn a_count_of_one_is_the_registrys_share_alone() {
    assert!(leaves_none_outside(0));
    assert!(leaves_none_outside(1));
    assert!(!leaves_none_outside(2));
    assert!(!leaves_none_outside(usize::MAX));
}

#[test]
fn a_second_share_keeps_the_first_from_being_last() {
    let handle: ResourceHandle<Mesh> = ResourceHandle::new(4);
    let first = handle.get_refcount();
    let second = handle.get_refcount();
    drop(handle);
    assert!(!first.is_last());
    drop(second);
    assert!(first.is_last());
}
