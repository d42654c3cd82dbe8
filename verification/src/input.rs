//! Keyboard and mouse state across frames, and action/axis bindings.
use vstd::prelude::*;
use vstd::hash_set::HashSetWithView;
use vstd::hash_map::StringHashMap;

verus! {

/// A physical key, by its code.
pub type KeyCode = u32;

/// Mouse buttons.
#[derive(Clone, Copy, Debug, PartialEq, Eq, Structural, Hash)]
pub enum MouseButton {
    Left,
    Right,
    Middle,
    Back,
    Forward,
    Other(u16),
}

/// Whether a key or button went down or up.
#[derive(Clone, Copy, Debug, PartialEq, Eq, Structural)]
pub enum ElementState {
    Pressed,
    Released,
}

/// The slot (0..8) that tracks a mouse button: the five standard buttons take
/// 0-4, other buttons 5 + their number while that stays below 8.
pub open spec fn button_slot(button: MouseButton) -> Option<usize> {
    match button {
        MouseButton::Left => Some(0usize),
        MouseButton::Right => Some(1usize),
        MouseButton::Middle => Some(2usize),
        MouseButton::Back => Some(3usize),
        MouseButton::Forward => Some(4usize),
        MouseButton::Other(raw) => if raw < 3 { Some((5 + raw) as usize) } else { None },
    }
}

pub fn mouse_button_index(button: MouseButton) -> (r: Option<usize>)
    ensures
        r == button_slot(button),
        r matches Some(i) ==> i < 8,
{
    match button {
        MouseButton::Left => Some(0),
        MouseButton::Right => Some(1),
        MouseButton::Middle => Some(2),
        MouseButton::Back => Some(3),
        MouseButton::Forward => Some(4),
        MouseButton::Other(raw) => {
            let idx = raw as usize;
            if idx < 3 {
                Some(5 + idx)
            } else {
                None
            }
        },
    }
}

/// Distinct mouse buttons are tracked in distinct slots, all below 8.
pub proof fn law_button_slots_distinct(a: MouseButton, b: MouseButton)
    requires
        a != b,
        button_slot(a) is Some,
        button_slot(b) is Some,
    ensures
        button_slot(a) != button_slot(b),
        button_slot(a)->0 < 8,
{
}

/// The five standard buttons and the first three other buttons each have a
/// slot; the later other buttons have none.
pub proof fn law_button_slots_cover(a: MouseButton)
    ensures
        button_slot(a) is Some <==> !(a matches MouseButton::Other(r) && r >= 3),
{
}

/// Pressing or releasing one mouse button does not change whether any other
/// button is held.
pub proof fn law_buttons_independent(
    s0: InputState,
    s1: InputState,
    b: MouseButton,
    state: ElementState,
    a: MouseButton,
)
    requires
        s0.mouse_down_spec().len() == 8,
        a != b,
        button_slot(b) is None ==> s1.mouse_down_spec() == s0.mouse_down_spec(),
        button_slot(b) matches Some(i) ==> s1.mouse_down_spec() == s0.mouse_down_spec().update(
            i as int,
            state == ElementState::Pressed,
        ),
    ensures
        (button_slot(a) matches Some(j) && s1.mouse_down_spec()[j as int])
            == (button_slot(a) matches Some(j) && s0.mouse_down_spec()[j as int]),
{
    if button_slot(a) is Some && button_slot(b) is Some {
        law_button_slots_distinct(a, b);
    }
}

/// Tracks keyboard and mouse button state across frames.
pub struct InputState {
    keys_down: HashSetWithView<u32>,
    keys_pressed: HashSetWithView<u32>,
    keys_released: HashSetWithView<u32>,
    pending_keys_pressed: HashSetWithView<u32>,
    pending_keys_released: HashSetWithView<u32>,
    mouse_down: [bool; 8],
    mouse_pressed: [bool; 8],
    mouse_released: [bool; 8],
    pending_mouse_pressed: [bool; 8],
    pending_mouse_released: [bool; 8],
}

impl InputState {
    /// Keys held down.
    pub closed spec fn down(&self) -> Set<u32> {
        self.keys_down@
    }

    /// Keys pressed in the current frame.
    pub closed spec fn pressed(&self) -> Set<u32> {
        self.keys_pressed@
    }

    /// Keys released in the current frame.
    pub closed spec fn released(&self) -> Set<u32> {
        self.keys_released@
    }

    /// Keys pressed since the last frame boundary.
    pub closed spec fn pending_pressed(&self) -> Set<u32> {
        self.pending_keys_pressed@
    }

    /// Keys released since the last frame boundary.
    pub closed spec fn pending_released(&self) -> Set<u32> {
        self.pending_keys_released@
    }

    pub closed spec fn mouse_down_spec(&self) -> Seq<bool> {
        self.mouse_down@
    }

    pub closed spec fn mouse_pressed_spec(&self) -> Seq<bool> {
        self.mouse_pressed@
    }

    pub closed spec fn mouse_released_spec(&self) -> Seq<bool> {
        self.mouse_released@
    }

    pub closed spec fn pending_mouse_pressed_spec(&self) -> Seq<bool> {
        self.pending_mouse_pressed@
    }

    pub closed spec fn pending_mouse_released_spec(&self) -> Seq<bool> {
        self.pending_mouse_released@
    }

    pub fn new() -> (s: Self)
        ensures
            s.down() == Set::<u32>::empty(),
            s.pressed() == Set::<u32>::empty(),
            s.released() == Set::<u32>::empty(),
            s.pending_pressed() == Set::<u32>::empty(),
            s.pending_released() == Set::<u32>::empty(),
            s.mouse_down_spec() == Seq::new(8, |i: int| false),
            s.mouse_pressed_spec() == Seq::new(8, |i: int| false),
            s.mouse_released_spec() == Seq::new(8, |i: int| false),
            s.pending_mouse_pressed_spec() == Seq::new(8, |i: int| false),
            s.pending_mouse_released_spec() == Seq::new(8, |i: int| false),
    {
        broadcast use vstd::std_specs::hash::group_hash_axioms;
        let s = InputState {
            keys_down: HashSetWithView::new(),
            keys_pressed: HashSetWithView::new(),
            keys_released: HashSetWithView::new(),
            pending_keys_pressed: HashSetWithView::new(),
            pending_keys_released: HashSetWithView::new(),
            mouse_down: [false; 8],
            mouse_pressed: [false; 8],
            mouse_released: [false; 8],
            pending_mouse_pressed: [false; 8],
            pending_mouse_released: [false; 8],
        };
        assert(s.mouse_down@ =~= Seq::new(8, |i: int| false));
        s
    }

    /// Advance the frame: what was pressed or released since the last frame
    /// boundary becomes this frame's pressed/released state.
    pub fn begin_frame(&mut self)
        ensures
            final(self).pressed() == old(self).pending_pressed(),
            final(self).released() == old(self).pending_released(),
            final(self).pending_pressed() == Set::<u32>::empty(),
            final(self).pending_released() == Set::<u32>::empty(),
            final(self).down() == old(self).down(),
            final(self).mouse_pressed_spec() == old(self).pending_mouse_pressed_spec(),
            final(self).mouse_released_spec() == old(self).pending_mouse_released_spec(),
            final(self).pending_mouse_pressed_spec() == Seq::new(8, |i: int| false),
            final(self).pending_mouse_released_spec() == Seq::new(8, |i: int| false),
            final(self).mouse_down_spec() == old(self).mouse_down_spec(),
    {
        std::mem::swap(&mut self.keys_pressed, &mut self.pending_keys_pressed);
        self.pending_keys_pressed.clear();
        std::mem::swap(&mut self.keys_released, &mut self.pending_keys_released);
        self.pending_keys_released.clear();
        self.mouse_pressed = self.pending_mouse_pressed;
        self.mouse_released = self.pending_mouse_released;
        self.pending_mouse_pressed = [false; 8];
        self.pending_mouse_released = [false; 8];
        assert(self.pending_mouse_pressed@ =~= Seq::new(8, |i: int| false));
        assert(self.pending_mouse_released@ =~= Seq::new(8, |i: int| false));
    }

    /// Handle a key going down or up.
    pub fn handle_key(&mut self, keycode: KeyCode, state: ElementState)
        ensures
            state == ElementState::Pressed ==> {
                &&& final(self).down() == old(self).down().insert(keycode)
                &&& final(self).pending_pressed() == (if old(self).down().contains(keycode) {
                    old(self).pending_pressed()
                } else {
                    old(self).pending_pressed().insert(keycode)
                })
                &&& final(self).pending_released() == old(self).pending_released()
            },
            state == ElementState::Released ==> {
                &&& final(self).down() == old(self).down().remove(keycode)
                &&& final(self).pending_released() == old(self).pending_released().insert(keycode)
                &&& final(self).pending_pressed() == old(self).pending_pressed()
            },
            final(self).pressed() == old(self).pressed(),
            final(self).released() == old(self).released(),
            final(self).mouse_down_spec() == old(self).mouse_down_spec(),
            final(self).mouse_pressed_spec() == old(self).mouse_pressed_spec(),
            final(self).mouse_released_spec() == old(self).mouse_released_spec(),
            final(self).pending_mouse_pressed_spec() == old(self).pending_mouse_pressed_spec(),
            final(self).pending_mouse_released_spec() == old(self).pending_mouse_released_spec(),
    {
        match state {
            ElementState::Pressed => {
                if !self.keys_down.contains(&keycode) {
                    self.pending_keys_pressed.insert(keycode);
                }
                self.keys_down.insert(keycode);
            },
            ElementState::Released => {
                self.keys_down.remove(&keycode);
                self.pending_keys_released.insert(keycode);
            },
        }
    }

    /// Handle a mouse button going down or up.
    pub fn handle_mouse_button(&mut self, button: MouseButton, state: ElementState)
        ensures
            final(self).down() == old(self).down(),
            final(self).pressed() == old(self).pressed(),
            final(self).released() == old(self).released(),
            final(self).pending_pressed() == old(self).pending_pressed(),
            final(self).pending_released() == old(self).pending_released(),
            final(self).mouse_pressed_spec() == old(self).mouse_pressed_spec(),
            final(self).mouse_released_spec() == old(self).mouse_released_spec(),
            button_slot(button) is None ==> *final(self) == *old(self),
            button_slot(button) matches Some(i) ==> {
                &&& state == ElementState::Pressed ==> {
                    &&& final(self).mouse_down_spec() == old(self).mouse_down_spec().update(i as int, true)
                    &&& final(self).pending_mouse_pressed_spec() == (if old(self).mouse_down_spec()[i as int] {
                        old(self).pending_mouse_pressed_spec()
                    } else {
                        old(self).pending_mouse_pressed_spec().update(i as int, true)
                    })
                    &&& final(self).pending_mouse_released_spec() == old(self).pending_mouse_released_spec()
                }
                &&& state == ElementState::Released ==> {
                    &&& final(self).mouse_down_spec() == old(self).mouse_down_spec().update(i as int, false)
                    &&& final(self).pending_mouse_released_spec() == old(self).pending_mouse_released_spec().update(i as int, true)
                    &&& final(self).pending_mouse_pressed_spec() == old(self).pending_mouse_pressed_spec()
                }
            },
    {
        if let Some(idx) = mouse_button_index(button) {
            match state {
                ElementState::Pressed => {
                    if !self.mouse_down[idx] {
                        self.pending_mouse_pressed.set(idx, true);
                    }
                    self.mouse_down.set(idx, true);
                },
                ElementState::Released => {
                    self.mouse_down.set(idx, false);
                    self.pending_mouse_released.set(idx, true);
                },
            }
        }
    }

    /// Returns true if the key is currently held down.
    pub fn is_key_down(&self, key: KeyCode) -> (b: bool)
        ensures
            b == self.down().contains(key),
    {
        self.keys_down.contains(&key)
    }

    /// Returns true if the key was pressed this frame.
    pub fn is_key_pressed(&self, key: KeyCode) -> (b: bool)
        ensures
            b == self.pressed().contains(key),
    {
        self.keys_pressed.contains(&key)
    }

    /// Returns true if the key was released this frame.
    pub fn is_key_released(&self, key: KeyCode) -> (b: bool)
        ensures
            b == self.released().contains(key),
    {
        self.keys_released.contains(&key)
    }

    /// Returns true if the mouse button is currently held down.
    pub fn is_mouse_down(&self, button: MouseButton) -> (b: bool)
        ensures
            b == (button_slot(button) matches Some(i) && self.mouse_down_spec()[i as int]),
    {
        match mouse_button_index(button) {
            Some(idx) => self.mouse_down[idx],
            None => false,
        }
    }

    /// Returns true if the mouse button was pressed this frame.
    pub fn is_mouse_pressed(&self, button: MouseButton) -> (b: bool)
        ensures
            b == (button_slot(button) matches Some(i) && self.mouse_pressed_spec()[i as int]),
    {
        match mouse_button_index(button) {
            Some(idx) => self.mouse_pressed[idx],
            None => false,
        }
    }

    /// Returns true if the mouse button was released this frame.
    pub fn is_mouse_released(&self, button: MouseButton) -> (b: bool)
        ensures
            b == (button_slot(button) matches Some(i) && self.mouse_released_spec()[i as int]),
    {
        match mouse_button_index(button) {
            Some(idx) => self.mouse_released[idx],
            None => false,
        }
    }
}

/// A key pressed while it was up is reported as pressed (and down) in the
/// next frame.
pub proof fn law_press_shows_next_frame(s0: InputState, s1: InputState, s2: InputState, key: KeyCode)
    requires
        !s0.down().contains(key),
        s1.down() == s0.down().insert(key),
        s1.pending_pressed() == s0.pending_pressed().insert(key),
        s2.pressed() == s1.pending_pressed(),
        s2.down() == s1.down(),
    ensures
        s2.pressed().contains(key),
        s2.down().contains(key),
{
}

/// A key released is reported as released (and no longer down) in the next
/// frame.
pub proof fn law_release_shows_next_frame(s0: InputState, s1: InputState, s2: InputState, key: KeyCode)
    requires
        s1.down() == s0.down().remove(key),
        s1.pending_released() == s0.pending_released().insert(key),
        s2.released() == s1.pending_released(),
        s2.down() == s1.down(),
    ensures
        s2.released().contains(key),
        !s2.down().contains(key),
{
}

/// A logical input action (e.g. "move_left", "jump").
#[derive(Clone, Debug, PartialEq, Eq, Hash)]
pub struct ActionId(pub String);

impl ActionId {
    /// Create a new action identifier.
    pub fn new(name: &str) -> (a: Self)
        ensures
            a.0@ == name@,
    {
        ActionId(name.to_string())
    }
}

/// A physical button that can be bound to an action or axis.
#[derive(Clone, Copy, Debug, PartialEq, Eq, Structural, Hash)]
pub enum Button {
    Key(KeyCode),
    Mouse(MouseButton),
}

impl Button {
    pub open spec fn down_in(self, input: &InputState) -> bool {
        match self {
            Button::Key(k) => input.down().contains(k),
            Button::Mouse(b) => button_slot(b) matches Some(i) && input.mouse_down_spec()[i as int],
        }
    }

    pub open spec fn pressed_in(self, input: &InputState) -> bool {
        match self {
            Button::Key(k) => input.pressed().contains(k),
            Button::Mouse(b) => button_slot(b) matches Some(i) && input.mouse_pressed_spec()[i as int],
        }
    }

    fn is_down(self, input: &InputState) -> (b: bool)
        ensures
            b == self.down_in(input),
    {
        match self {
            Button::Key(k) => input.is_key_down(k),
            Button::Mouse(b) => input.is_mouse_down(b),
        }
    }

    fn is_pressed(self, input: &InputState) -> (b: bool)
        ensures
            b == self.pressed_in(input),
    {
        match self {
            Button::Key(k) => input.is_key_pressed(k),
            Button::Mouse(b) => input.is_mouse_pressed(b),
        }
    }
}

/// Some button of `buttons` is down.
pub open spec fn any_down(buttons: Seq<Button>, input: &InputState) -> bool {
    exists|i: int| 0 <= i < buttons.len() && #[trigger] buttons[i].down_in(input)
}

/// Some button of `buttons` was pressed this frame.
pub open spec fn any_pressed(buttons: Seq<Button>, input: &InputState) -> bool {
    exists|i: int| 0 <= i < buttons.len() && #[trigger] buttons[i].pressed_in(input)
}

fn scan_down(buttons: &Vec<Button>, input: &InputState) -> (b: bool)
    ensures
        b == any_down(buttons@, input),
{
    let mut i: usize = 0;
    while i < buttons.len()
        invariant
            i <= buttons@.len(),
            forall|j: int| 0 <= j < i ==> !(#[trigger] buttons@[j]).down_in(input),
        decreases buttons@.len() - i,
    {
        if buttons[i].is_down(input) {
            return true;
        }
        i = i + 1;
    }
    false
}

fn scan_pressed(buttons: &Vec<Button>, input: &InputState) -> (b: bool)
    ensures
        b == any_pressed(buttons@, input),
{
    let mut i: usize = 0;
    while i < buttons.len()
        invariant
            i <= buttons@.len(),
            forall|j: int| 0 <= j < i ==> !(#[trigger] buttons@[j]).pressed_in(input),
        decreases buttons@.len() - i,
    {
        if buttons[i].is_pressed(input) {
            return true;
        }
        i = i + 1;
    }
    false
}

/// A one-dimensional axis binding (e.g. horizontal movement).
#[derive(Clone, Debug)]
pub struct AxisBinding {
    /// Buttons contributing the negative direction.
    pub negative: Vec<Button>,
    /// Buttons contributing the positive direction.
    pub positive: Vec<Button>,
}

impl AxisBinding {
    pub fn new(negative: Vec<Button>, positive: Vec<Button>) -> (a: Self)
        ensures
            a.negative == negative,
            a.positive == positive,
    {
        AxisBinding { negative, positive }
    }
}

/// Mapping from actions and axes to physical inputs.
pub struct InputMap {
    actions: StringHashMap<Vec<Button>>,
    axes: StringHashMap<AxisBinding>,
}

/// The axis value: -1 when a negative button is down, +1 when a positive one
/// is, 0 when both or neither are.
pub open spec fn axis_value(b: AxisBinding, input: &InputState) -> int {
    (if any_down(b.negative@, input) { -1int } else { 0int }) + (if any_down(b.positive@, input) { 1int } else { 0int })
}

impl InputMap {
    /// The buttons bound to each action.
    pub closed spec fn actions(&self) -> Map<Seq<char>, Seq<Button>> {
        Map::new(|k: Seq<char>| self.actions@.contains_key(k), |k: Seq<char>| self.actions@[k]@)
    }

    /// The binding of each axis.
    pub closed spec fn axes(&self) -> Map<Seq<char>, AxisBinding> {
        self.axes@
    }

    /// Create an empty input map.
    pub fn new() -> (m: Self)
        ensures
            m.actions() == Map::<Seq<char>, Seq<Button>>::empty(),
            m.axes() == Map::<Seq<char>, AxisBinding>::empty(),
    {
        let m = InputMap { actions: StringHashMap::new(), axes: StringHashMap::new() };
        assert(m.actions() =~= Map::<Seq<char>, Seq<Button>>::empty());
        m
    }

    fn bind(&mut self, action: ActionId, button: Button)
        ensures
            final(self).actions() == old(self).actions().insert(
                action.0@,
                if old(self).actions().contains_key(action.0@) {
                    old(self).actions()[action.0@].push(button)
                } else {
                    seq![button]
                },
            ),
            final(self).axes() == old(self).axes(),
    {
        let mut buttons: Vec<Button> = Vec::new();
        match self.actions.get(action.0.as_str()) {
            Some(existing) => {
                let mut i: usize = 0;
                while i < existing.len()
                    invariant
                        i <= existing@.len(),
                        buttons@ == existing@.take(i as int),
                    decreases existing@.len() - i,
                {
                    buttons.push(existing[i]);
                    assert(buttons@ =~= existing@.take(i + 1));
                    i = i + 1;
                }
                assert(existing@.take(existing@.len() as int) =~= existing@);
            },
            None => {},
        }
        buttons.push(button);
        let ghost key = action.0@;
        self.actions.insert(action.0, buttons);
        assert(self.actions() =~= old(self).actions().insert(
            key,
            if old(self).actions().contains_key(key) {
                old(self).actions()[key].push(button)
            } else {
                seq![button]
            },
        ));
    }

    /// Bind a key to an action.
    pub fn bind_key(&mut self, action: ActionId, key: KeyCode)
        ensures
            final(self).actions() == old(self).actions().insert(
                action.0@,
                if old(self).actions().contains_key(action.0@) {
                    old(self).actions()[action.0@].push(Button::Key(key))
                } else {
                    seq![Button::Key(key)]
                },
            ),
            final(self).axes() == old(self).axes(),
    {
        self.bind(action, Button::Key(key));
    }

    /// Bind a mouse button to an action.
    pub fn bind_mouse_button(&mut self, action: ActionId, button: MouseButton)
        ensures
            final(self).actions() == old(self).actions().insert(
                action.0@,
                if old(self).actions().contains_key(action.0@) {
                    old(self).actions()[action.0@].push(Button::Mouse(button))
                } else {
                    seq![Button::Mouse(button)]
                },
            ),
            final(self).axes() == old(self).axes(),
    {
        self.bind(action, Button::Mouse(button));
    }

    /// Define or replace an axis binding.
    pub fn set_axis(&mut self, axis: ActionId, binding: AxisBinding)
        ensures
            final(self).axes() == old(self).axes().insert(axis.0@, binding),
            final(self).actions() == old(self).actions(),
    {
        self.axes.insert(axis.0, binding);
    }

    /// Check if an action is currently held down.
    pub fn action_down(&self, input: &InputState, action: &ActionId) -> (b: bool)
        ensures
            b == (self.actions().contains_key(action.0@) && any_down(self.actions()[action.0@], input)),
    {
        match self.actions.get(action.0.as_str()) {
            Some(buttons) => scan_down(buttons, input),
            None => false,
        }
    }

    /// Check if an action was pressed this frame.
    pub fn action_pressed(&self, input: &InputState, action: &ActionId) -> (b: bool)
        ensures
            b == (self.actions().contains_key(action.0@) && any_pressed(self.actions()[action.0@], input)),
    {
        match self.actions.get(action.0.as_str()) {
            Some(buttons) => scan_pressed(buttons, input),
            None => false,
        }
    }

    /// The value of an axis (-1, 0 or 1): negative buttons contribute -1,
    /// positive ones +1; both sides pressed cancel out; 0 for an unknown axis.
    pub fn axis(&self, input: &InputState, axis: &ActionId) -> (v: i32)
        ensures
            v == (if self.axes().contains_key(axis.0@) { axis_value(self.axes()[axis.0@], input) } else { 0 }),
    {
        match self.axes.get(axis.0.as_str()) {
            Some(binding) => {
                let mut value: i32 = 0;
                if scan_down(&binding.negative, input) {
                    value = value - 1;
                }
                if scan_down(&binding.positive, input) {
                    value = value + 1;
                }
                value
            },
            None => 0,
        }
    }
}

} // verus!
