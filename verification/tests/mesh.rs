use rend3::mesh::{MeshManager, STARTING_VERTICES};
use rend3::types::{Mesh, MeshHandle, RawMeshHandle, RawSkeletonHandle};

#[test]
fn a_new_manager_has_the_starting_capacity_and_no_mesh() {
    let meshes = MeshManager::new();
    assert_eq!(meshes.capacity(), STARTING_VERTICES);
    assert_eq!(STARTING_VERTICES, 65536);
    assert!(!meshes.contains(RawMeshHandle::new(0)));
}

#[test]
fn meshes_are_placed_one_after_the_other() {
    let mut meshes = MeshManager::new();
    let a = MeshHandle::new(0);
    let b = MeshHandle::new(1);
    meshes.fill(&a, Mesh { vertex_count: 10, num_joints: 2 });
    meshes.fill(&b, Mesh { vertex_count: 5, num_joints: 0 });
    assert!(meshes.contains(a.get_raw()));
    let first = meshes.internal_data(a.get_raw());
    assert_eq!(first.vertex_range, 0..10);
    assert_eq!(first.num_joints, 2);
    assert!(first.skeletons.is_empty());
    let second = meshes.internal_data(b.get_raw());
    assert_eq!(second.vertex_range, 10..15);
    assert_eq!(second.num_joints, 0);
}

#[test]
fn a_mesh_without_vertices_takes_no_room() {
    let mut meshes = MeshManager::new();
    let empty = MeshHandle::new(0);
    let next = MeshHandle::new(1);
    meshes.fill(&empty, Mesh { vertex_count: 0, num_joints: 0 });
    meshes.fill(&next, Mesh { vertex_count: 4, num_joints: 0 });
    assert_eq!(meshes.internal_data(empty.get_raw()).vertex_range, 0..0);
    assert_eq!(meshes.internal_data(next.get_raw()).vertex_range, 0..4);
    assert_eq!(meshes.allocate_skeleton_mesh(&empty), 0..0);
    meshes.free_skeleton_mesh(0..0);
    assert_eq!(meshes.allocate_skeleton_mesh(&next), 4..8);
}

#[test]
fn the_buffer_grows_in_place_where_a_mesh_does_not_fit() {
    let mut meshes = MeshManager::new();
    let small = MeshHandle::new(0);
    let large = MeshHandle::new(1);
    meshes.fill(&small, Mesh { vertex_count: 100, num_joints: 0 });
    meshes.fill(&large, Mesh { vertex_count: STARTING_VERTICES, num_joints: 0 });
    assert_eq!(meshes.capacity(), 2 * STARTING_VERTICES);
    assert_eq!(meshes.internal_data(small.get_raw()).vertex_range, 0..100);
    assert_eq!(meshes.internal_data(large.get_raw()).vertex_range, 100..100 + STARTING_VERTICES);
}

#[test]
fn a_skeleton_range_is_as_long_as_its_mesh() {
    let mut meshes = MeshManager::new();
    let mesh = MeshHandle::new(3);
    meshes.fill(&mesh, Mesh { vertex_count: 10, num_joints: 1 });
    assert_eq!(meshes.allocate_skeleton_mesh(&mesh), 10..20);
    assert_eq!(meshes.allocate_skeleton_mesh(&mesh), 20..30);
    meshes.free_skeleton_mesh(10..20);
    assert_eq!(meshes.allocate_skeleton_mesh(&mesh), 10..20);
    assert_eq!(meshes.internal_data(mesh.get_raw()).vertex_range, 0..10);
}

#[test]
fn back_references_are_added_last_and_removed_by_swapping() {
    let mut meshes = MeshManager::new();
    let mesh = MeshHandle::new(0);
    meshes.fill(&mesh, Mesh { vertex_count: 1, num_joints: 1 });
    for idx in [5, 6, 7, 8] {
        meshes.add_skeleton(mesh.get_raw(), RawSkeletonHandle::new(idx));
    }
    let listed = |meshes: &MeshManager| -> Vec<usize> {
        meshes.internal_data(mesh.get_raw()).skeletons.iter().map(|s| s.idx).collect()
    };
    assert_eq!(listed(&meshes), vec![5, 6, 7, 8]);
    meshes.remove_skeleton(mesh.get_raw(), RawSkeletonHandle::new(6));
    assert_eq!(listed(&meshes), vec![5, 8, 7]);
    meshes.remove_skeleton(mesh.get_raw(), RawSkeletonHandle::new(7));
    assert_eq!(listed(&meshes), vec![5, 8]);
    meshes.remove_skeleton(mesh.get_raw(), RawSkeletonHandle::new(5));
    assert_eq!(listed(&meshes), vec![8]);
    meshes.remove_skeleton(mesh.get_raw(), RawSkeletonHandle::new(8));
    assert!(listed(&meshes).is_empty());
}

#[test]
fn a_full_grown_buffer_still_has_room_for_what_fits() {
    let mut meshes = MeshManager::new();
    assert!(meshes.has_room(0));
    assert!(meshes.has_room(usize::MAX - STARTING_VERTICES));
    assert!(!meshes.has_room(usize::MAX - STARTING_VERTICES + 1));
    let huge = MeshHandle::new(0);
    meshes.fill(&huge, Mesh { vertex_count: usize::MAX - STARTING_VERTICES, num_joints: 0 });
    assert_eq!(meshes.capacity(), usize::MAX);
    assert_eq!(meshes.internal_data(huge.get_raw()).vertex_range, 0..usize::MAX - STARTING_VERTICES);
    assert!(meshes.has_room(STARTING_VERTICES));
    assert!(!meshes.has_room(STARTING_VERTICES + 1));
    let small = MeshHandle::new(1);
    meshes.fill(&small, Mesh { vertex_count: 10, num_joints: 0 });
    let start = usize::MAX - STARTING_VERTICES;
    assert_eq!(meshes.internal_data(small.get_raw()).vertex_range, start..start + 10);
    assert_eq!(meshes.capacity(), usize::MAX);
}
