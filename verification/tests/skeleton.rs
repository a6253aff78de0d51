use glam::{Mat4, Vec3};
use rend3::mesh::MeshManager;
use rend3::skeleton::{pack, SkeletonError, SkeletonManager};
use rend3::types::{Mesh, MeshHandle, RawSkeletonHandle, Skeleton, SkeletonHandle};

fn mesh_with(meshes: &mut MeshManager, idx: usize, vertex_count: usize, num_joints: u16) -> MeshHandle {
    let handle = MeshHandle::new(idx);
    meshes.fill(&handle, Mesh { vertex_count, num_joints });
    handle
}

fn identities(mesh: &MeshHandle, count: usize) -> Skeleton {
    Skeleton { mesh: mesh.clone(), joint_matrices: vec![Mat4::IDENTITY; count] }
}

fn back_references(meshes: &MeshManager, mesh: &MeshHandle) -> Vec<usize> {
    let mut listed: Vec<usize> = meshes.internal_data(mesh.get_raw()).skeletons.iter().map(|s| s.idx).collect();
    listed.sort_unstable();
    listed
}

fn joints_of_all(skeletons: &SkeletonManager) -> usize {
    skeletons.skeletons().iter().map(|s| s.joint_matrices.len()).sum()
}

#[test]
fn a_new_manager_has_no_skeleton_and_no_joint() {
    let skeletons = SkeletonManager::new();
    assert_eq!(skeletons.global_joint_count(), 0);
    assert!(skeletons.skeletons().is_empty());
    assert!(!skeletons.contains(RawSkeletonHandle::new(0)));
}

#[test]
fn one_skeleton_is_created_and_swept() {
    let mut meshes = MeshManager::new();
    let mut skeletons = SkeletonManager::new();
    let mesh = mesh_with(&mut meshes, 0, 10, 2);
    assert_eq!(meshes.internal_data(mesh.get_raw()).vertex_range, 0..10);

    let s1 = SkeletonHandle::new(0);
    skeletons.fill(&mut meshes, &s1, identities(&mesh, 2));
    let stored = skeletons.internal_data(s1.get_raw());
    assert_eq!(stored.skeleton_vertex_range, 10..20);
    assert_eq!(stored.joint_matrices, vec![Mat4::IDENTITY, Mat4::IDENTITY]);
    assert_eq!(stored.mesh_handle.get_raw().idx, 0);
    assert_eq!((stored.ranges.mesh_range.x, stored.ranges.mesh_range.y), (0, 10));
    assert_eq!((stored.ranges.skeleton_range.x, stored.ranges.skeleton_range.y), (10, 20));
    assert_eq!(skeletons.global_joint_count(), 2);
    assert_eq!(back_references(&meshes, &mesh), vec![0]);

    drop(s1);
    skeletons.ready(&mut meshes);
    assert_eq!(skeletons.global_joint_count(), 0);
    assert!(back_references(&meshes, &mesh).is_empty());
    assert!(skeletons.skeletons().is_empty());
    assert!(!skeletons.contains(RawSkeletonHandle::new(0)));
    assert_eq!(meshes.allocate_skeleton_mesh(&mesh), 10..20);
}

#[test]
fn of_two_skeletons_over_one_mesh_only_the_dropped_one_is_swept() {
    let mut meshes = MeshManager::new();
    let mut skeletons = SkeletonManager::new();
    let mesh = mesh_with(&mut meshes, 0, 10, 2);
    let s1 = SkeletonHandle::new(1);
    let s2 = SkeletonHandle::new(2);
    skeletons.fill(&mut meshes, &s1, identities(&mesh, 2));
    skeletons.fill(&mut meshes, &s2, identities(&mesh, 2));
    assert_eq!(back_references(&meshes, &mesh), vec![1, 2]);
    assert_eq!(skeletons.internal_data(s1.get_raw()).skeleton_vertex_range, 10..20);
    assert_eq!(skeletons.internal_data(s2.get_raw()).skeleton_vertex_range, 20..30);
    assert_eq!(skeletons.global_joint_count(), 4);

    drop(s1);
    skeletons.ready(&mut meshes);
    assert_eq!(back_references(&meshes, &mesh), vec![2]);
    assert_eq!(skeletons.global_joint_count(), 2);
    assert!(!skeletons.contains(RawSkeletonHandle::new(1)));
    assert_eq!(skeletons.internal_data(s2.get_raw()).skeleton_vertex_range, 20..30);
    assert_eq!(skeletons.skeletons().len(), 1);

    let s3 = SkeletonHandle::new(3);
    skeletons.fill(&mut meshes, &s3, identities(&mesh, 2));
    assert_eq!(skeletons.internal_data(s3.get_raw()).skeleton_vertex_range, 10..20);
    assert_eq!(back_references(&meshes, &mesh), vec![2, 3]);
}

#[test]
fn a_copy_of_the_handle_keeps_the_skeleton_alive() {
    let mut meshes = MeshManager::new();
    let mut skeletons = SkeletonManager::new();
    let mesh = mesh_with(&mut meshes, 0, 4, 1);
    let handle = SkeletonHandle::new(0);
    let copy = handle.clone();
    skeletons.fill(&mut meshes, &handle, identities(&mesh, 1));
    drop(handle);
    skeletons.ready(&mut meshes);
    assert!(skeletons.contains(copy.get_raw()));
    assert_eq!(skeletons.global_joint_count(), 1);
    drop(copy);
    skeletons.ready(&mut meshes);
    assert_eq!(skeletons.global_joint_count(), 0);
    assert!(back_references(&meshes, &mesh).is_empty());
}

#[test]
fn a_sweep_with_nothing_dropped_changes_nothing() {
    let mut meshes = MeshManager::new();
    let mut skeletons = SkeletonManager::new();
    let mesh = mesh_with(&mut meshes, 0, 4, 3);
    let handle = SkeletonHandle::new(0);
    skeletons.fill(&mut meshes, &handle, identities(&mesh, 3));
    skeletons.ready(&mut meshes);
    assert_eq!(skeletons.global_joint_count(), 3);
    assert_eq!(back_references(&meshes, &mesh), vec![0]);
    assert_eq!(skeletons.internal_data(handle.get_raw()).skeleton_vertex_range, 4..8);
}

#[test]
fn the_joint_count_is_the_sum_over_the_stored_skeletons() {
    let mut meshes = MeshManager::new();
    let mut skeletons = SkeletonManager::new();
    let small = mesh_with(&mut meshes, 0, 3, 1);
    let large = mesh_with(&mut meshes, 1, 5, 4);
    let mut handles = Vec::new();
    for (idx, (mesh, joints)) in [(&small, 1), (&large, 4), (&large, 4), (&small, 1), (&large, 4)].into_iter().enumerate() {
        let handle = SkeletonHandle::new(idx);
        skeletons.fill(&mut meshes, &handle, identities(mesh, joints));
        handles.push(handle);
        assert_eq!(skeletons.global_joint_count(), joints_of_all(&skeletons));
    }
    assert_eq!(skeletons.global_joint_count(), 14);
    handles.remove(1);
    handles.remove(2);
    skeletons.ready(&mut meshes);
    assert_eq!(skeletons.global_joint_count(), 9);
    assert_eq!(skeletons.global_joint_count(), joints_of_all(&skeletons));
    assert_eq!(back_references(&meshes, &small), vec![0]);
    assert_eq!(back_references(&meshes, &large), vec![2, 4]);
    handles.clear();
    skeletons.ready(&mut meshes);
    assert_eq!(skeletons.global_joint_count(), 0);
    assert_eq!(joints_of_all(&skeletons), 0);
}

#[test]
fn sweep_marked_reclaims_exactly_the_marked_skeletons() {
    let mut meshes = MeshManager::new();
    let mut skeletons = SkeletonManager::new();
    let mesh = mesh_with(&mut meshes, 0, 10, 2);
    let handles: Vec<SkeletonHandle> = (0..4).map(SkeletonHandle::new).collect();
    for handle in &handles {
        skeletons.fill(&mut meshes, handle, identities(&mesh, 2));
    }
    skeletons.sweep_marked(&mut meshes, &vec![false, true, false, true]);
    assert_eq!(skeletons.global_joint_count(), 4);
    assert_eq!(back_references(&meshes, &mesh), vec![0, 2]);
    assert!(skeletons.contains(handles[0].get_raw()));
    assert!(!skeletons.contains(handles[1].get_raw()));
    assert!(skeletons.contains(handles[2].get_raw()));
    assert!(!skeletons.contains(handles[3].get_raw()));
    assert_eq!(meshes.allocate_skeleton_mesh(&mesh), 20..30);
    assert_eq!(meshes.allocate_skeleton_mesh(&mesh), 40..50);
    assert_eq!(meshes.allocate_skeleton_mesh(&mesh), 50..60);
}

#[test]
fn a_skeleton_with_the_wrong_number_of_joints_is_refused_and_nothing_changes() {
    let mut meshes = MeshManager::new();
    let mut skeletons = SkeletonManager::new();
    let mesh = mesh_with(&mut meshes, 0, 10, 2);
    let handle = SkeletonHandle::new(0);
    let result = skeletons.try_fill(&mut meshes, &handle, identities(&mesh, 3));
    assert_eq!(result, Err(SkeletonError::JointCountMismatch { expected: 2, actual: 3 }));
    assert_eq!(skeletons.global_joint_count(), 0);
    assert!(!skeletons.contains(handle.get_raw()));
    assert!(skeletons.skeletons().is_empty());
    assert!(back_references(&meshes, &mesh).is_empty());
    assert_eq!(meshes.allocate_skeleton_mesh(&mesh), 10..20);
}

#[test]
fn try_fill_creates_what_fill_creates() {
    let mut meshes = MeshManager::new();
    let mut skeletons = SkeletonManager::new();
    let mesh = mesh_with(&mut meshes, 0, 10, 2);
    let handle = SkeletonHandle::new(5);
    assert_eq!(skeletons.try_fill(&mut meshes, &handle, identities(&mesh, 2)), Ok(()));
    assert_eq!(skeletons.global_joint_count(), 2);
    assert_eq!(skeletons.internal_data(handle.get_raw()).skeleton_vertex_range, 10..20);
    assert_eq!(back_references(&meshes, &mesh), vec![5]);
}

#[test]
fn try_fill_names_the_first_thing_that_is_wrong() {
    let mut meshes = MeshManager::new();
    let mut skeletons = SkeletonManager::new();
    let mesh = mesh_with(&mut meshes, 0, 10, 2);
    let stranger = MeshHandle::new(9);
    let handle = SkeletonHandle::new(0);
    assert_eq!(
        skeletons.try_fill(&mut meshes, &handle, identities(&stranger, 2)),
        Err(SkeletonError::UnknownMesh)
    );
    assert_eq!(skeletons.try_fill(&mut meshes, &handle, identities(&mesh, 2)), Ok(()));
    assert_eq!(
        skeletons.try_fill(&mut meshes, &handle, identities(&mesh, 2)),
        Err(SkeletonError::AlreadyFilled)
    );
    assert_eq!(
        skeletons.try_fill(&mut meshes, &handle, identities(&mesh, 1)),
        Err(SkeletonError::JointCountMismatch { expected: 2, actual: 1 })
    );
    assert_eq!(skeletons.global_joint_count(), 2);
    assert_eq!(back_references(&meshes, &mesh), vec![0]);
}

#[test]
fn a_skeleton_that_would_outgrow_the_buffer_is_refused() {
    let mut meshes = MeshManager::new();
    let mut skeletons = SkeletonManager::new();
    let huge = mesh_with(&mut meshes, 0, usize::MAX - 65536, 0);
    assert_eq!(meshes.capacity(), usize::MAX);
    let handle = SkeletonHandle::new(0);
    assert_eq!(skeletons.try_fill(&mut meshes, &handle, identities(&huge, 0)), Err(SkeletonError::TooLarge));
    assert!(!skeletons.contains(handle.get_raw()));
    assert!(back_references(&meshes, &huge).is_empty());
    assert_eq!(meshes.capacity(), usize::MAX);
}

#[test]
fn joint_matrices_are_replaced_by_as_many() {
    let mut meshes = MeshManager::new();
    let mut skeletons = SkeletonManager::new();
    let mesh = mesh_with(&mut meshes, 0, 10, 2);
    let handle = SkeletonHandle::new(0);
    skeletons.fill(&mut meshes, &handle, identities(&mesh, 2));
    let moved = vec![Mat4::from_translation(Vec3::X), Mat4::from_translation(Vec3::Y)];
    skeletons.set_joint_matrices(handle.get_raw(), moved.clone());
    let stored = skeletons.internal_data(handle.get_raw());
    assert_eq!(stored.joint_matrices, moved);
    assert_eq!(stored.skeleton_vertex_range, 10..20);
    assert_eq!(skeletons.global_joint_count(), 2);
}

#[test]
fn joint_matrices_of_another_length_are_refused_and_the_old_ones_stay() {
    let mut meshes = MeshManager::new();
    let mut skeletons = SkeletonManager::new();
    let mesh = mesh_with(&mut meshes, 0, 10, 2);
    let handle = SkeletonHandle::new(0);
    let first = vec![Mat4::from_translation(Vec3::X), Mat4::from_translation(Vec3::Y)];
    skeletons.fill(&mut meshes, &handle, Skeleton { mesh: mesh.clone(), joint_matrices: first.clone() });
    assert_eq!(
        skeletons.try_set_joint_matrices(handle.get_raw(), vec![Mat4::IDENTITY; 3]),
        Err(SkeletonError::JointCountMismatch { expected: 2, actual: 3 })
    );
    assert_eq!(skeletons.internal_data(handle.get_raw()).joint_matrices, first);
    assert_eq!(
        skeletons.try_set_joint_matrices(handle.get_raw(), Vec::new()),
        Err(SkeletonError::JointCountMismatch { expected: 2, actual: 0 })
    );
    assert_eq!(skeletons.internal_data(handle.get_raw()).joint_matrices, first);
    assert_eq!(skeletons.global_joint_count(), 2);
    assert_eq!(
        skeletons.try_set_joint_matrices(RawSkeletonHandle::new(8), vec![Mat4::IDENTITY; 2]),
        Err(SkeletonError::UnknownSkeleton)
    );
    assert_eq!(skeletons.try_set_joint_matrices(handle.get_raw(), vec![Mat4::IDENTITY; 2]), Ok(()));
    assert_eq!(skeletons.internal_data(handle.get_raw()).joint_matrices, vec![Mat4::IDENTITY; 2]);
}

#[test]
fn a_relocated_skeleton_holds_only_the_new_ranges() {
    let mut meshes = MeshManager::new();
    let mut skeletons = SkeletonManager::new();
    let mesh = mesh_with(&mut meshes, 0, 10, 2);
    let moved = SkeletonHandle::new(0);
    let other = SkeletonHandle::new(1);
    skeletons.fill(&mut meshes, &moved, identities(&mesh, 2));
    skeletons.fill(&mut meshes, &other, identities(&mesh, 2));
    skeletons.set_skeleton_range(moved.get_raw(), &(130..140), &(100..110));
    let stored = skeletons.internal_data(moved.get_raw());
    assert_eq!(stored.skeleton_vertex_range, 130..140);
    assert_eq!((stored.ranges.mesh_range.x, stored.ranges.mesh_range.y), (100, 110));
    assert_eq!((stored.ranges.skeleton_range.x, stored.ranges.skeleton_range.y), (130, 140));
    assert_eq!(stored.joint_matrices.len(), 2);
    let untouched = skeletons.internal_data(other.get_raw());
    assert_eq!(untouched.skeleton_vertex_range, 20..30);
    assert_eq!((untouched.ranges.mesh_range.x, untouched.ranges.mesh_range.y), (0, 10));
    assert_eq!(skeletons.global_joint_count(), 4);
}

#[test]
fn packing_keeps_the_low_32_bits_of_start_and_end() {
    let packed = pack(&(3..7));
    assert_eq!((packed.x, packed.y), (3, 7));
    let cut = pack(&(0x1_0000_0005..0x2_0000_0009));
    assert_eq!((cut.x, cut.y), (5, 9));
}

#[test]
fn skeletons_are_listed_in_dense_order() {
    let mut meshes = MeshManager::new();
    let mut skeletons = SkeletonManager::new();
    let mesh = mesh_with(&mut meshes, 0, 2, 1);
    let handles: Vec<SkeletonHandle> = (0..3).map(SkeletonHandle::new).collect();
    for handle in &handles {
        skeletons.fill(&mut meshes, handle, identities(&mesh, 1));
    }
    let ranges: Vec<_> = skeletons.skeletons().iter().map(|s| s.skeleton_vertex_range.clone()).collect();
    assert_eq!(ranges, vec![2..4, 4..6, 6..8]);
    skeletons.sweep_marked(&mut meshes, &vec![true, false, false]);
    let ranges: Vec<_> = skeletons.skeletons().iter().map(|s| s.skeleton_vertex_range.clone()).collect();
    assert_eq!(ranges, vec![6..8, 4..6]);
}

#[test]
fn compaction_packs_meshes_and_their_skeletons_to_the_front() {
    let mut meshes = MeshManager::new();
    let mut skeletons = SkeletonManager::new();
    let a = mesh_with(&mut meshes, 0, 10, 2);
    let s1 = SkeletonHandle::new(1);
    skeletons.fill(&mut meshes, &s1, identities(&a, 2));
    let b = mesh_with(&mut meshes, 1, 5, 1);
    let s2 = SkeletonHandle::new(2);
    let s3 = SkeletonHandle::new(3);
    let turned = vec![Mat4::from_translation(Vec3::X), Mat4::from_translation(Vec3::Z)];
    skeletons.fill(&mut meshes, &s2, Skeleton { mesh: a.clone(), joint_matrices: turned.clone() });
    skeletons.fill(&mut meshes, &s3, identities(&b, 1));
    assert_eq!(skeletons.internal_data(s1.get_raw()).skeleton_vertex_range, 10..20);
    assert_eq!(meshes.internal_data(b.get_raw()).vertex_range, 20..25);
    assert_eq!(skeletons.internal_data(s2.get_raw()).skeleton_vertex_range, 25..35);
    assert_eq!(skeletons.internal_data(s3.get_raw()).skeleton_vertex_range, 35..40);

    drop(s1);
    skeletons.ready(&mut meshes);
    let moves = meshes.compact(&mut skeletons);

    let moved: Vec<_> = moves.iter().map(|m| (m.from.clone(), m.to.clone())).collect();
    assert_eq!(moved, vec![(0..10, 0..10), (25..35, 10..20), (20..25, 20..25), (35..40, 25..30)]);
    assert_eq!(meshes.capacity(), 65536);
    assert_eq!(meshes.internal_data(a.get_raw()).vertex_range, 0..10);
    assert_eq!(meshes.internal_data(b.get_raw()).vertex_range, 20..25);
    assert_eq!(back_references(&meshes, &a), vec![2]);
    assert_eq!(back_references(&meshes, &b), vec![3]);
    let second = skeletons.internal_data(s2.get_raw());
    assert_eq!(second.skeleton_vertex_range, 10..20);
    assert_eq!((second.ranges.mesh_range.x, second.ranges.mesh_range.y), (0, 10));
    assert_eq!((second.ranges.skeleton_range.x, second.ranges.skeleton_range.y), (10, 20));
    assert_eq!(second.joint_matrices, turned);
    let third = skeletons.internal_data(s3.get_raw());
    assert_eq!(third.skeleton_vertex_range, 25..30);
    assert_eq!((third.ranges.mesh_range.x, third.ranges.mesh_range.y), (20, 25));
    assert_eq!((third.ranges.skeleton_range.x, third.ranges.skeleton_range.y), (25, 30));
    assert_eq!(skeletons.global_joint_count(), 3);
    assert_eq!(meshes.allocate_skeleton_mesh(&a), 30..40);
}

#[test]
fn compaction_moves_a_mesh_into_the_gap_before_it() {
    let mut meshes = MeshManager::new();
    let mut skeletons = SkeletonManager::new();
    let a = mesh_with(&mut meshes, 0, 4, 1);
    let s1 = SkeletonHandle::new(0);
    let s2 = SkeletonHandle::new(1);
    skeletons.fill(&mut meshes, &s1, identities(&a, 1));
    skeletons.fill(&mut meshes, &s2, identities(&a, 1));
    let b = mesh_with(&mut meshes, 1, 6, 0);
    assert_eq!(meshes.internal_data(b.get_raw()).vertex_range, 12..18);
    skeletons.sweep_marked(&mut meshes, &vec![true, true]);
    let moves = meshes.compact(&mut skeletons);
    assert_eq!(moves.len(), 2);
    assert_eq!((moves[1].from.clone(), moves[1].to.clone()), (12..18, 4..10));
    assert_eq!(meshes.internal_data(a.get_raw()).vertex_range, 0..4);
    assert_eq!(meshes.internal_data(b.get_raw()).vertex_range, 4..10);
    assert!(skeletons.skeletons().is_empty());
    assert_eq!(meshes.allocate_skeleton_mesh(&b), 10..16);
}

#[test]
fn compaction_of_an_empty_or_a_packed_buffer_changes_nothing() {
    let mut meshes = MeshManager::new();
    let mut skeletons = SkeletonManager::new();
    assert!(meshes.compact(&mut skeletons).is_empty());
    assert_eq!(meshes.capacity(), 65536);
    let a = mesh_with(&mut meshes, 0, 3, 1);
    assert_eq!(meshes.internal_data(a.get_raw()).vertex_range, 0..3);
    let s1 = SkeletonHandle::new(0);
    skeletons.fill(&mut meshes, &s1, identities(&a, 1));
    let moves = meshes.compact(&mut skeletons);
    assert!(moves.iter().all(|m| m.from == m.to));
    assert_eq!(meshes.internal_data(a.get_raw()).vertex_range, 0..3);
    assert_eq!(skeletons.internal_data(s1.get_raw()).skeleton_vertex_range, 3..6);
    assert_eq!(meshes.allocate_skeleton_mesh(&a), 6..9);
}
