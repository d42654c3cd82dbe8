use sindri::runtime::{ControlAction, ControlBody, PlaybackMode, PlaybackState};

#[test]
fn parse_control_requests() {
    assert_eq!(ControlAction::parse(Some("play"), None), Some(ControlAction::Play));
    assert_eq!(ControlAction::parse(Some("pause"), Some(false)), Some(ControlAction::Pause));
    assert_eq!(ControlAction::parse(Some("stop"), None), Some(ControlAction::Stop));
    assert_eq!(ControlAction::parse(Some("rewind"), None), None);
    assert_eq!(ControlAction::parse(None, Some(true)), Some(ControlAction::SetPaused(true)));
    assert_eq!(ControlAction::parse(None, None), None);
    assert!(ControlAction::Play.starts_play());
    assert!(ControlAction::SetPaused(false).starts_play());
    assert!(!ControlAction::SetPaused(true).starts_play());
}

#[test]
fn play_pause_stop_restores_scene() {
    let mut p: PlaybackState<&str> = PlaybackState::default();
    assert_eq!(p.mode, PlaybackMode::Stopped);
    assert_eq!(p.apply_control(ControlAction::Play, Some("edited")), None);
    assert_eq!(p.mode, PlaybackMode::Playing);
    p.apply_control(ControlAction::Pause, None);
    assert_eq!(p.mode, PlaybackMode::Paused);
    // Resuming does not replace the kept scene.
    p.apply_control(ControlAction::SetPaused(false), Some("running"));
    assert_eq!(p.mode, PlaybackMode::Playing);
    assert_eq!(p.apply_control(ControlAction::Stop, None), Some("edited"));
    assert_eq!(p.mode, PlaybackMode::Stopped);
    assert_eq!(p.edit_scene, None);
}

#[test]
fn pause_only_from_playing() {
    let mut p: PlaybackState<u8> = PlaybackState::default();
    p.apply_control(ControlAction::SetPaused(true), None);
    assert_eq!(p.mode, PlaybackMode::Stopped);
    assert_eq!(p.apply_control(ControlAction::Stop, None), None);
}

#[test]
fn control_body() {
    let b = ControlBody { paused: Some(false), action: None };
    assert_eq!(ControlAction::from_body(&b), Some(ControlAction::SetPaused(false)));
    let b2 = ControlBody { paused: None, action: Some("stop".to_string()) };
    assert_eq!(ControlAction::from_body(&b2), Some(ControlAction::Stop));
    let b3 = ControlBody { paused: None, action: None };
    assert_eq!(ControlAction::from_body(&b3), None);
}
