use velos::camera::CameraRegistry;

#[test]
fn insert_camera_assigns_sequential_ids() {
    let mut registry = CameraRegistry::new();
    assert_eq!(registry.insert_camera("cam-1", vec![3, 4]), 1);
    assert_eq!(registry.insert_camera("cam-2", Vec::new()), 2);
    assert!(registry.contains(1) && registry.contains(2));
    assert!(!registry.contains(3));
}

#[test]
fn get_returns_the_stored_camera() {
    let mut registry = CameraRegistry::default();
    registry.insert_camera("test-cam", vec![10, 11]);
    let cam = registry.get(1).expect("camera 1 should exist");
    assert_eq!(cam.id, 1);
    assert_eq!(cam.name, "test-cam");
    assert_eq!(cam.covered_edges, vec![10, 11]);
    assert!(registry.get(999).is_none());
}

#[test]
fn list_returns_every_camera_once() {
    let mut registry = CameraRegistry::new();
    for i in 0..3 {
        registry.insert_camera(&format!("cam-{i}"), vec![i]);
    }
    let mut ids: Vec<u32> = registry.list().iter().map(|c| c.id).collect();
    ids.sort();
    assert_eq!(ids, vec![1, 2, 3]);
}
