use sindri::input::{mouse_button_index, ActionId, AxisBinding, Button, ElementState, InputMap, InputState, MouseButton};

const KEY_A: u32 = 30;
const KEY_D: u32 = 32;
const SPACE: u32 = 57;

#[test]
fn key_press_shows_after_begin_frame() {
    let mut input = InputState::new();
    input.handle_key(SPACE, ElementState::Pressed);
    assert!(input.is_key_down(SPACE));
    assert!(!input.is_key_pressed(SPACE));
    input.begin_frame();
    assert!(input.is_key_pressed(SPACE));
    assert!(input.is_key_down(SPACE));
    input.begin_frame();
    assert!(!input.is_key_pressed(SPACE));
    assert!(input.is_key_down(SPACE));
}

#[test]
fn key_release_shows_after_begin_frame() {
    let mut input = InputState::new();
    input.handle_key(SPACE, ElementState::Pressed);
    input.begin_frame();
    input.handle_key(SPACE, ElementState::Released);
    assert!(!input.is_key_down(SPACE));
    input.begin_frame();
    assert!(input.is_key_released(SPACE));
    input.begin_frame();
    assert!(!input.is_key_released(SPACE));
}

#[test]
fn held_key_is_not_pressed_again() {
    let mut input = InputState::new();
    input.handle_key(KEY_A, ElementState::Pressed);
    input.begin_frame();
    input.handle_key(KEY_A, ElementState::Pressed);
    input.begin_frame();
    assert!(!input.is_key_pressed(KEY_A));
}

#[test]
fn mouse_buttons() {
    let mut input = InputState::new();
    input.handle_mouse_button(MouseButton::Left, ElementState::Pressed);
    assert!(input.is_mouse_down(MouseButton::Left));
    input.begin_frame();
    assert!(input.is_mouse_pressed(MouseButton::Left));
    input.handle_mouse_button(MouseButton::Left, ElementState::Released);
    input.begin_frame();
    assert!(input.is_mouse_released(MouseButton::Left));
    assert!(!input.is_mouse_down(MouseButton::Left));
    // Buttons without a slot are ignored.
    input.handle_mouse_button(MouseButton::Other(9), ElementState::Pressed);
    assert!(!input.is_mouse_down(MouseButton::Other(9)));
}

#[test]
fn mouse_button_slots() {
    assert_eq!(mouse_button_index(MouseButton::Left), Some(0));
    assert_eq!(mouse_button_index(MouseButton::Forward), Some(4));
    assert_eq!(mouse_button_index(MouseButton::Other(2)), Some(7));
    assert_eq!(mouse_button_index(MouseButton::Other(3)), None);
}

#[test]
fn actions_and_axes() {
    let mut map = InputMap::new();
    map.bind_key(ActionId::new("jump"), SPACE);
    map.bind_mouse_button(ActionId::new("jump"), MouseButton::Right);
    map.set_axis(ActionId::new("move_x"), AxisBinding::new(vec![Button::Key(KEY_A)], vec![Button::Key(KEY_D)]));
    let mut input = InputState::new();
    assert!(!map.action_down(&input, &ActionId::new("jump")));
    input.handle_mouse_button(MouseButton::Right, ElementState::Pressed);
    assert!(map.action_down(&input, &ActionId::new("jump")));
    input.begin_frame();
    assert!(map.action_pressed(&input, &ActionId::new("jump")));
    assert!(!map.action_down(&input, &ActionId::new("unknown")));

    assert_eq!(map.axis(&input, &ActionId::new("move_x")), 0);
    input.handle_key(KEY_A, ElementState::Pressed);
    assert_eq!(map.axis(&input, &ActionId::new("move_x")), -1);
    input.handle_key(KEY_D, ElementState::Pressed);
    assert_eq!(map.axis(&input, &ActionId::new("move_x")), 0);
    input.handle_key(KEY_A, ElementState::Released);
    assert_eq!(map.axis(&input, &ActionId::new("move_x")), 1);
    assert_eq!(map.axis(&input, &ActionId::new("none")), 0);
}

#[test]
fn action_id_holds_name() {
    assert_eq!(ActionId::new("fire").0, "fire");
}
