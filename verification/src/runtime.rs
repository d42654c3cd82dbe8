//! Small pieces of the editor runtime: the playback mode, the project
//! defaults, the names of the built-in fonts, and key-name normalisation for
//! scripts.
use vstd::prelude::*;
use vstd::utf8::{encode_utf8, encode_scalar, has_width_1_encoding};
use vstd::string::StringSliceAdditionalSpecFns;

verus! {

/// Whether the game preview is stopped, running or paused.
#[derive(Debug, Clone, Copy, PartialEq, Eq, Structural)]
pub enum PlaybackMode {
    Stopped,
    Playing,
    Paused,
}

impl PlaybackMode {
    /// The name of the mode as the control API spells it.
    pub fn as_str(self) -> (s: &'static str)
        ensures
            s@ == (match self {
                PlaybackMode::Stopped => "stopped"@,
                PlaybackMode::Playing => "playing"@,
                PlaybackMode::Paused => "paused"@,
            }),
    {
        match self {
            PlaybackMode::Stopped => "stopped",
            PlaybackMode::Playing => "playing",
            PlaybackMode::Paused => "paused",
        }
    }
}

/// Built-in font identifiers; each names a key in the asset cache.
#[derive(Clone, Copy, Debug, PartialEq, Eq, Structural)]
pub enum BuiltinFont {
    /// Default UI / HUD font.
    Ui,
    /// Monospace font for debug text / consoles.
    Mono,
    /// Larger display font for titles/headings.
    Title,
}

impl BuiltinFont {
    /// String key used for this font in the asset cache.
    pub fn key(self) -> (s: &'static str)
        ensures
            s@ == (match self {
                BuiltinFont::Ui => "builtin_ui"@,
                BuiltinFont::Mono => "builtin_mono"@,
                BuiltinFont::Title => "builtin_title"@,
            }),
    {
        match self {
            BuiltinFont::Ui => "builtin_ui",
            BuiltinFont::Mono => "builtin_mono",
            BuiltinFont::Title => "builtin_title",
        }
    }
}

/// The project name used when the settings file gives none.
pub fn default_project_name() -> (s: String)
    ensures
        s@ == "My Game"@,
{
    "My Game".to_owned()
}

/// The window width used when the settings file gives none.
pub fn default_resolution_width() -> (w: u32)
    ensures
        w == 1280,
{
    1280
}

/// The window height used when the settings file gives none.
pub fn default_resolution_height() -> (h: u32)
    ensures
        h == 720,
{
    720
}

/// Pixel-art rendering is on unless the settings file says otherwise.
pub fn default_pixel_art_mode() -> (b: bool)
    ensures
        b,
{
    true
}

/// How many error messages the runtime keeps for the editor.
pub const MAX_ERRORS: usize = 50;

/// The error log after appending `message`: the last `MAX_ERRORS` messages.
pub open spec fn log_after(log: Seq<String>, message: String) -> Seq<String> {
    let all = log.push(message);
    if all.len() > MAX_ERRORS { all.subrange(all.len() - MAX_ERRORS, all.len() as int) } else { all }
}

/// The error log never holds more than `MAX_ERRORS` messages, and the newest
/// message is always the one just appended.
pub proof fn law_error_log_bounded(log: Seq<String>, message: String)
    ensures
        log_after(log, message).len() == (if log.len() + 1 > MAX_ERRORS { MAX_ERRORS as int } else { log.len() + 1int }),
        log_after(log, message).last() == message,
{
}

/// Append `message` to the error log, dropping the oldest messages beyond
/// the last `MAX_ERRORS`.
pub fn push_error(log: &mut Vec<String>, message: String)
    ensures
        final(log)@ == log_after(old(log)@, message),
{
    log.push(message);
    if log.len() > MAX_ERRORS {
        let excess = log.len() - MAX_ERRORS;
        let kept = log.split_off(excess);
        *log = kept;
    }
}

/// The ASCII upper-case of a character: 'a'..='z' map to 'A'..='Z', every
/// other character is left as it is.
pub open spec fn ascii_upper(c: char) -> char {
    if 'a' <= c && c <= 'z' {
        ((c as u32) - 32) as char
    } else {
        c
    }
}

/// A key name that is a single byte long (one ASCII character).
pub open spec fn is_single_byte(k: Seq<char>) -> bool {
    k.len() == 1 && (k[0] as u32) < 0x80
}

/// The name a script sees for a key that the browser reports as `k`:
/// arrows lose their "Arrow" prefix, the space bar becomes "Space", a
/// one-character name is upper-cased and any other name is kept.
pub open spec fn normalized_key(k: Seq<char>) -> Seq<char> {
    if k == " "@ {
        "Space"@
    } else if k == "ArrowLeft"@ {
        "Left"@
    } else if k == "ArrowRight"@ {
        "Right"@
    } else if k == "ArrowUp"@ {
        "Up"@
    } else if k == "ArrowDown"@ {
        "Down"@
    } else if is_single_byte(k) {
        seq![ascii_upper(k[0])]
    } else {
        k
    }
}

/// A string is one byte long in UTF-8 exactly when it is one ASCII character.
proof fn lemma_one_byte(k: Seq<char>)
    ensures
        (encode_utf8(k).len() == 1) == is_single_byte(k),
{
    if k.len() > 0 {
        let rest = k.drop_first();
        let c = k[0] as u32;
        assert(encode_utf8(k) == encode_scalar(c) + encode_utf8(rest));
        assert(encode_scalar(c).len() >= 1);
        if rest.len() > 0 {
            assert(encode_utf8(rest) == encode_scalar(rest[0] as u32) + encode_utf8(rest.drop_first()));
            assert(encode_scalar(rest[0] as u32).len() >= 1);
        }
        assert(has_width_1_encoding(c) == (c <= 0x7F));
    }
}

/// `str::to_ascii_uppercase`: by its documentation, ASCII letters 'a' to
/// 'z' are mapped to 'A' to 'Z' and every other character is unchanged.
#[verifier::external_body]
fn to_ascii_uppercase(s: &str) -> (r: String)
    ensures
        r@ == s@.map_values(|c: char| ascii_upper(c)),
{
    s.to_ascii_uppercase()
}

/// Normalise a key name for the script key table (see `normalized_key`).
pub fn normalize_key(key: &str) -> (r: String)
    ensures
        r@ == normalized_key(key@),
{
    let k = key.to_owned();
    if k == " ".to_owned() {
        return "Space".to_owned();
    }
    if k == "ArrowLeft".to_owned() {
        return "Left".to_owned();
    }
    if k == "ArrowRight".to_owned() {
        return "Right".to_owned();
    }
    if k == "ArrowUp".to_owned() {
        return "Up".to_owned();
    }
    if k == "ArrowDown".to_owned() {
        return "Down".to_owned();
    }
    let n = key.as_bytes().len();
    if n == 1 {
        proof {
            lemma_one_byte(key@);
            assert(key.spec_bytes() == encode_utf8(key@));
            assert(is_single_byte(key@));
        }
        let r = to_ascii_uppercase(key);
        assert(r@ =~= seq![ascii_upper(key@[0])]);
        return r;
    }
    proof {
        lemma_one_byte(key@);
        assert(key.spec_bytes() == encode_utf8(key@));
    }
    k
}

/// The preview's playback mode, and the edited scene saved when play started
/// (restored on stop).
pub struct PlaybackState<S> {
    pub mode: PlaybackMode,
    pub edit_scene: Option<S>,
}

impl<S> Default for PlaybackState<S> {
    fn default() -> (p: Self)
        ensures
            p.mode == PlaybackMode::Stopped,
            p.edit_scene is None,
    {
        PlaybackState { mode: PlaybackMode::Stopped, edit_scene: None }
    }
}

/// A request of the control API.
#[derive(Clone, Copy, Debug, PartialEq, Eq, Structural)]
pub enum ControlAction {
    /// Start or resume playing.
    Play,
    /// Pause while playing.
    Pause,
    /// Stop playing and restore the edited scene.
    Stop,
    /// Pause (`true`) or play (`false`) without an action name.
    SetPaused(bool),
}

/// The request for an action name (`play`, `pause` or `stop`) or, without
/// one, for a `paused` flag; `None` for an unknown action or for neither.
pub open spec fn control_spec(action: Option<Seq<char>>, paused: Option<bool>) -> Option<ControlAction> {
    match action {
        Some(a) => if a == "play"@ {
            Some(ControlAction::Play)
        } else if a == "pause"@ {
            Some(ControlAction::Pause)
        } else if a == "stop"@ {
            Some(ControlAction::Stop)
        } else {
            None
        },
        None => match paused {
            Some(p) => Some(ControlAction::SetPaused(p)),
            None => None,
        },
    }
}

/// The body of a control request: an action name, or a `paused` flag.
pub struct ControlBody {
    pub paused: Option<bool>,
    pub action: Option<String>,
}

impl ControlAction {
    /// Read the body of a control request (see `control_spec`); `None` is a
    /// bad request.
    pub fn from_body(body: &ControlBody) -> (r: Option<ControlAction>)
        ensures
            r == control_spec(
                match body.action {
                    Some(a) => Some(a@),
                    None => None,
                },
                body.paused,
            ),
    {
        match &body.action {
            Some(a) => Self::parse(Some(a.as_str()), body.paused),
            None => Self::parse(None, body.paused),
        }
    }

    /// Read a control request (see `control_spec`); `None` is a bad request.
    pub fn parse(action: Option<&str>, paused: Option<bool>) -> (r: Option<ControlAction>)
        ensures
            r == control_spec(
                match action {
                    Some(a) => Some(a@),
                    None => None,
                },
                paused,
            ),
    {
        match action {
            Some(a) => {
                let s = a.to_owned();
                if s == "play".to_owned() {
                    Some(ControlAction::Play)
                } else if s == "pause".to_owned() {
                    Some(ControlAction::Pause)
                } else if s == "stop".to_owned() {
                    Some(ControlAction::Stop)
                } else {
                    None
                }
            },
            None => match paused {
                Some(p) => Some(ControlAction::SetPaused(p)),
                None => None,
            },
        }
    }

    /// The action starts play (and so takes a snapshot of the scene).
    pub fn starts_play(self) -> (b: bool)
        ensures
            b == (self == ControlAction::Play || self == ControlAction::SetPaused(false)),
    {
        match self {
            ControlAction::Play => true,
            ControlAction::SetPaused(p) => !p,
            _ => false,
        }
    }
}

/// The action starts play (and so takes a snapshot of the scene).
pub open spec fn starts_play(a: ControlAction) -> bool {
    a == ControlAction::Play || a == ControlAction::SetPaused(false)
}

/// What applying `action` (with `snapshot`) to `before` does: the state
/// `after` and the scene `restore` handed back.
pub open spec fn control_post<S>(
    before: PlaybackState<S>,
    action: ControlAction,
    snapshot: Option<S>,
    after: PlaybackState<S>,
    restore: Option<S>,
) -> bool {
    &&& starts_play(action) ==> {
        &&& after.mode == PlaybackMode::Playing
        &&& after.edit_scene == (if before.mode == PlaybackMode::Stopped { snapshot } else { before.edit_scene })
        &&& restore is None
    }
    &&& (action == ControlAction::Pause || action == ControlAction::SetPaused(true)) ==> {
        &&& after.mode == (if before.mode == PlaybackMode::Playing { PlaybackMode::Paused } else { before.mode })
        &&& after.edit_scene == before.edit_scene
        &&& restore is None
    }
    &&& action == ControlAction::Stop ==> {
        &&& after.mode == PlaybackMode::Stopped
        &&& after.edit_scene is None
        &&& restore == before.edit_scene
    }
}

impl<S> PlaybackState<S> {
    /// Apply a control request. Playing from the stopped mode keeps
    /// `snapshot` (the scene as edited) to restore on stop; play and resume
    /// switch to playing; pause switches from playing to paused; stop
    /// switches to stopped and hands back the kept scene.
    pub fn apply_control(&mut self, action: ControlAction, snapshot: Option<S>) -> (restore: Option<S>)
        ensures
            control_post(*old(self), action, snapshot, *final(self), restore),
    {
        match action {
            ControlAction::Play => {
                self.start_playing(snapshot);
                None
            },
            ControlAction::SetPaused(false) => {
                self.start_playing(snapshot);
                None
            },
            ControlAction::Pause => {
                self.pause();
                None
            },
            ControlAction::SetPaused(true) => {
                self.pause();
                None
            },
            ControlAction::Stop => {
                self.mode = PlaybackMode::Stopped;
                let mut taken: Option<S> = None;
                std::mem::swap(&mut taken, &mut self.edit_scene);
                taken
            },
        }
    }

    fn start_playing(&mut self, snapshot: Option<S>)
        ensures
            final(self).mode == PlaybackMode::Playing,
            final(self).edit_scene == (if old(self).mode == PlaybackMode::Stopped { snapshot } else { old(self).edit_scene }),
    {
        if self.mode == PlaybackMode::Stopped {
            self.edit_scene = snapshot;
        }
        self.mode = PlaybackMode::Playing;
    }

    fn pause(&mut self)
        ensures
            final(self).mode == (if old(self).mode == PlaybackMode::Playing { PlaybackMode::Paused } else { old(self).mode }),
            final(self).edit_scene == old(self).edit_scene,
    {
        if self.mode == PlaybackMode::Playing {
            self.mode = PlaybackMode::Paused;
        }
    }
}

/// Stopping hands back the scene saved when play started from the stopped
/// mode, however often play was paused and resumed in between.
pub proof fn law_stop_restores_edit_scene<S>(
    states: Seq<PlaybackState<S>>,
    actions: Seq<ControlAction>,
    snapshots: Seq<Option<S>>,
    restores: Seq<Option<S>>,
)
    requires
        actions.len() >= 2,
        states.len() == actions.len() + 1,
        snapshots.len() == actions.len(),
        restores.len() == actions.len(),
        forall|k: int| 0 <= k < actions.len() ==> control_post(states[k], #[trigger] actions[k], snapshots[k], states[k + 1], restores[k]),
        states[0].mode == PlaybackMode::Stopped,
        starts_play(actions[0]),
        forall|k: int| 0 < k < actions.len() - 1 ==> #[trigger] actions[k] != ControlAction::Stop,
        actions.last() == ControlAction::Stop,
    ensures
        restores.last() == snapshots[0],
{
    let n = actions.len() as int;
    assert(control_post(states[0], actions[0], snapshots[0], states[1], restores[0]));
    assert forall|k: int| 1 <= k < n implies #[trigger] states[k].edit_scene == snapshots[0] && states[k].mode != PlaybackMode::Stopped by {
        lemma_kept_scene(states, actions, snapshots, restores, k);
    }
    assert(control_post(states[n - 1], actions[n - 1], snapshots[n - 1], states[n], restores[n - 1]));
}

proof fn lemma_kept_scene<S>(
    states: Seq<PlaybackState<S>>,
    actions: Seq<ControlAction>,
    snapshots: Seq<Option<S>>,
    restores: Seq<Option<S>>,
    k: int,
)
    requires
        actions.len() >= 2,
        states.len() == actions.len() + 1,
        snapshots.len() == actions.len(),
        restores.len() == actions.len(),
        forall|j: int| 0 <= j < actions.len() ==> control_post(states[j], #[trigger] actions[j], snapshots[j], states[j + 1], restores[j]),
        states[0].mode == PlaybackMode::Stopped,
        starts_play(actions[0]),
        forall|j: int| 0 < j < actions.len() - 1 ==> #[trigger] actions[j] != ControlAction::Stop,
        1 <= k < actions.len(),
    ensures
        states[k].edit_scene == snapshots[0],
        states[k].mode != PlaybackMode::Stopped,
    decreases k,
{
    assert(control_post(states[0], actions[0], snapshots[0], states[1], restores[0]));
    if k > 1 {
        lemma_kept_scene(states, actions, snapshots, restores, k - 1);
        assert(control_post(states[k - 1], actions[k - 1], snapshots[k - 1], states[k], restores[k - 1]));
        assert(actions[k - 1] != ControlAction::Stop);
        match actions[k - 1] {
            ControlAction::SetPaused(p) => {},
            _ => {},
        }
    }
}

} // verus!
