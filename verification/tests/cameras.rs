use sindri::cameras::{deactivate_other_cameras, has_active_camera, normalize_scene_cameras, set_camera_active, CameraRef};

fn cam(entity: u64, component: usize, active: bool) -> CameraRef {
    CameraRef { entity, component, active }
}

fn flags(cams: &[CameraRef]) -> Vec<bool> {
    cams.iter().map(|c| c.active).collect()
}

#[test]
fn has_active() {
    assert!(!has_active_camera(&vec![]));
    assert!(!has_active_camera(&vec![cam(1, 0, false)]));
    assert!(has_active_camera(&vec![cam(1, 0, false), cam(2, 1, true)]));
}

#[test]
fn normalize_keeps_first_active_in_order() {
    // Listed out of order, as a hash map would give them.
    let mut cams = vec![cam(5, 0, true), cam(2, 3, true), cam(2, 1, false), cam(1, 0, false)];
    normalize_scene_cameras(&mut cams);
    assert_eq!(flags(&cams), vec![false, true, false, false]);
}

#[test]
fn normalize_activates_first_camera_when_none_active() {
    let mut cams = vec![cam(5, 0, false), cam(2, 3, false), cam(2, 1, false)];
    normalize_scene_cameras(&mut cams);
    assert_eq!(flags(&cams), vec![false, false, true]);
    let mut none: Vec<CameraRef> = vec![];
    normalize_scene_cameras(&mut none);
    assert!(none.is_empty());
}

#[test]
fn deactivate_others() {
    let mut cams = vec![cam(1, 0, true), cam(2, 0, true), cam(2, 1, true)];
    deactivate_other_cameras(&mut cams, 2, 1);
    assert_eq!(flags(&cams), vec![false, false, true]);
}

#[test]
fn set_active_switches_entity_cameras() {
    let mut cams = vec![cam(1, 0, true), cam(2, 0, false)];
    set_camera_active(&mut cams, 2, true);
    assert_eq!(flags(&cams), vec![false, true]);
    set_camera_active(&mut cams, 2, false);
    // No camera left active: the first one in order takes over.
    assert_eq!(flags(&cams), vec![true, false]);
}
