use sindri::state::{PendingTransitions, State, StateMachine, StateMachineLike};

#[derive(Debug, PartialEq)]
enum Screen {
    Menu,
    Game,
    Pause,
}

#[derive(Default)]
struct Log {
    events: Vec<String>,
}

impl State<Log, Vec<String>, String> for Screen {
    fn on_enter(&mut self, ctx: &mut Log) -> Result<(), String> {
        ctx.events.push(format!("enter {:?}", self));
        Ok(())
    }

    fn on_exit(&mut self, ctx: &mut Log) -> Result<(), String> {
        ctx.events.push(format!("exit {:?}", self));
        Ok(())
    }

    fn update(&mut self, _ctx: &mut Log, transitions: &mut PendingTransitions<Self>) -> Result<(), String> {
        if *self == Screen::Menu {
            transitions.replace(Screen::Game);
        }
        Ok(())
    }

    fn draw(&mut self, target: &mut Vec<String>) -> Result<(), String> {
        target.push(format!("{:?}", self));
        Ok(())
    }
}

#[test]
fn push_pop_replace_apply_at_next_update() {
    let mut ctx = Log::default();
    let mut sm: StateMachine<Screen> = StateMachine::with_initial_state(Screen::Menu);
    assert_eq!(sm.len(), 1);
    sm.init_top_state::<Log, Vec<String>, String>(&mut ctx).unwrap();
    assert_eq!(ctx.events, vec!["enter Menu"]);

    sm.update_top::<Log, Vec<String>, String>(&mut ctx).unwrap();
    // The replacement waits for the next transition step.
    assert_eq!(sm.states(), &vec![Screen::Menu]);
    sm.apply_transitions::<Log, Vec<String>, String>(&mut ctx).unwrap();
    assert_eq!(sm.states(), &vec![Screen::Game]);
    assert_eq!(ctx.events, vec!["enter Menu", "exit Menu", "enter Game"]);

    sm.push(Screen::Pause);
    assert_eq!(sm.len(), 1);
    sm.apply_transitions::<Log, Vec<String>, String>(&mut ctx).unwrap();
    assert_eq!(sm.states(), &vec![Screen::Game, Screen::Pause]);

    let mut drawn: Vec<String> = Vec::new();
    sm.draw_all::<Log, Vec<String>, String>(&mut drawn).unwrap();
    assert_eq!(drawn, vec!["Game", "Pause"]);

    sm.pop();
    sm.apply_transitions::<Log, Vec<String>, String>(&mut ctx).unwrap();
    assert_eq!(sm.states(), &vec![Screen::Game]);
    assert_eq!(ctx.events.last().unwrap(), "exit Pause");
}

#[test]
fn pop_and_push_in_one_step() {
    let mut ctx = Log::default();
    let mut sm: StateMachine<Screen> = StateMachine::new();
    assert!(sm.is_empty());
    sm.push(Screen::Game);
    sm.apply_transitions::<Log, Vec<String>, String>(&mut ctx).unwrap();
    sm.pop();
    sm.push(Screen::Menu);
    sm.apply_transitions::<Log, Vec<String>, String>(&mut ctx).unwrap();
    assert_eq!(sm.states(), &vec![Screen::Menu]);
    assert_eq!(ctx.events, vec!["enter Game", "exit Game", "enter Menu"]);
}

#[test]
fn empty_machine_updates_nothing() {
    let mut ctx = Log::default();
    let mut sm: StateMachine<Screen> = StateMachine::default();
    assert!(sm.update_top::<Log, Vec<String>, String>(&mut ctx).is_ok());
    assert!(sm.init_top_state::<Log, Vec<String>, String>(&mut ctx).is_ok());
    assert!(ctx.events.is_empty());
    assert!(sm.is_empty());
}

#[test]
fn pending_transitions_record_requests() {
    let mut p: PendingTransitions<u8> = PendingTransitions::new();
    assert!(p.push.is_none() && !p.pop && p.replace.is_none());
    p.push(1);
    p.pop();
    p.replace(2);
    assert_eq!(p.push, Some(1));
    assert!(p.pop);
    assert_eq!(p.replace, Some(2));
}

#[test]
fn replace_acts_like_pop_then_push() {
    let mut ca = Log::default();
    let mut a: StateMachine<Screen> = StateMachine::with_initial_state(Screen::Menu);
    a.replace(Screen::Pause);
    a.apply_transitions::<Log, Vec<String>, String>(&mut ca).unwrap();

    let mut cb = Log::default();
    let mut b: StateMachine<Screen> = StateMachine::with_initial_state(Screen::Menu);
    b.pop();
    b.push(Screen::Pause);
    b.apply_transitions::<Log, Vec<String>, String>(&mut cb).unwrap();

    assert_eq!(a.states(), b.states());
    assert_eq!(a.states(), &vec![Screen::Pause]);
    assert_eq!(ca.events, cb.events);
    assert_eq!(ca.events, vec!["exit Menu", "enter Pause"]);
}

#[test]
fn apply_with_nothing_pending_changes_nothing() {
    let mut ctx = Log::default();
    let mut sm: StateMachine<Screen> = StateMachine::with_initial_state(Screen::Game);
    assert!(sm.apply_transitions::<Log, Vec<String>, String>(&mut ctx).is_ok());
    assert_eq!(sm.states(), &vec![Screen::Game]);
    assert!(ctx.events.is_empty());
}
