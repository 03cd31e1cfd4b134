use velos::view::ViewMode;

#[test]
fn test_view_mode_enum() {
    let _top = ViewMode::TopDown2D;
    let _persp = ViewMode::Perspective3D;
    assert_ne!(ViewMode::TopDown2D, ViewMode::Perspective3D);
}
