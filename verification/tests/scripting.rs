use sindri::scripting::{key_frame, ScriptSessions};

fn strings(v: &[&str]) -> Vec<String> {
    v.iter().map(|s| s.to_string()).collect()
}

fn sorted(mut v: Vec<String>) -> Vec<String> {
    v.sort();
    v
}

#[test]
fn key_frame_normalizes_and_finds_new_presses() {
    let prev = strings(&["a", "ArrowLeft"]);
    let now = strings(&["A", "ArrowLeft", " ", "a", "Shift"]);
    let frame = key_frame(&now, &prev);
    assert_eq!(sorted(frame.down), strings(&["A", "Left", "Shift", "Space"]));
    assert_eq!(sorted(frame.pressed), strings(&["Shift", "Space"]));
}

#[test]
fn key_frame_without_keys() {
    let frame = key_frame(&Vec::new(), &strings(&["x"]));
    assert!(frame.down.is_empty());
    assert!(frame.pressed.is_empty());
}

#[test]
fn scripts_start_once_per_session() {
    let mut s = ScriptSessions::new();
    assert!(s.mark_started(1, "player.lua"));
    assert!(!s.mark_started(1, "player.lua"));
    assert!(s.mark_started(2, "player.lua"));
    assert!(s.mark_missing(3, "gone.lua"));
    assert!(!s.mark_missing(3, "gone.lua"));
    s.evict(1);
    assert!(s.mark_started(1, "player.lua"));
    assert!(!s.mark_started(2, "player.lua"));
    s.reset();
    assert!(s.mark_started(2, "player.lua"));
    assert!(s.mark_missing(3, "gone.lua"));
}
