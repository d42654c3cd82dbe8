use sindri::runtime::{
    default_pixel_art_mode, default_project_name, default_resolution_height, default_resolution_width, normalize_key,
    push_error, BuiltinFont, PlaybackMode, MAX_ERRORS,
};

#[test]
fn playback_mode_names() {
    assert_eq!(PlaybackMode::Stopped.as_str(), "stopped");
    assert_eq!(PlaybackMode::Playing.as_str(), "playing");
    assert_eq!(PlaybackMode::Paused.as_str(), "paused");
}

#[test]
fn builtin_font_keys() {
    assert_eq!(BuiltinFont::Ui.key(), "builtin_ui");
    assert_eq!(BuiltinFont::Mono.key(), "builtin_mono");
    assert_eq!(BuiltinFont::Title.key(), "builtin_title");
}

#[test]
fn project_defaults() {
    assert_eq!(default_project_name(), "My Game");
    assert_eq!(default_resolution_width(), 1280);
    assert_eq!(default_resolution_height(), 720);
    assert!(default_pixel_art_mode());
}

#[test]
fn key_names_are_normalized() {
    assert_eq!(normalize_key(" "), "Space");
    assert_eq!(normalize_key("ArrowLeft"), "Left");
    assert_eq!(normalize_key("ArrowRight"), "Right");
    assert_eq!(normalize_key("ArrowUp"), "Up");
    assert_eq!(normalize_key("ArrowDown"), "Down");
    assert_eq!(normalize_key("a"), "A");
    assert_eq!(normalize_key("Z"), "Z");
    assert_eq!(normalize_key("1"), "1");
    assert_eq!(normalize_key("Enter"), "Enter");
    assert_eq!(normalize_key("é"), "é");
    assert_eq!(normalize_key(""), "");
}

#[test]
fn error_log_keeps_the_last_fifty() {
    let mut log: Vec<String> = Vec::new();
    push_error(&mut log, "first".to_string());
    assert_eq!(log, vec!["first".to_string()]);
    for i in 0..54 {
        push_error(&mut log, format!("e{i}"));
    }
    assert_eq!(MAX_ERRORS, 50);
    assert_eq!(log.len(), 50);
    assert_eq!(log[0], "e4");
    assert_eq!(log[49], "e53");
}
