use joshuto::builder::AppKeyMapping;
use joshuto::command::{Command, FileType};
use joshuto::event::{AppEvent, KeyCode, KeyEvent, Notification};
use joshuto::keymap::insert_keycommand;
use joshuto::outcome::{Dispatch, DispatchError, Outcome, Step};
use joshuto::resolve::{resolve, Interaction, KeyResolver, ViewKind};

fn key(c: char) -> AppEvent {
    AppEvent::Terminal(KeyEvent::char(c))
}

fn typed(text: &str) -> Vec<AppEvent> {
    text.chars().map(key).collect()
}

fn escape() -> AppEvent {
    AppEvent::Terminal(KeyEvent::plain(KeyCode::Escape))
}

fn path(text: &str) -> Vec<KeyEvent> {
    text.chars().map(KeyEvent::char).collect()
}

fn keymaps() -> AppKeyMapping {
    let mut keymaps = AppKeyMapping::new();
    let map = &mut keymaps.default_view;
    insert_keycommand(map, Command::MoveDown { offset: 1 }, None, &path("j")).unwrap();
    insert_keycommand(map, Command::DeleteFiles, None, &path("dd")).unwrap();
    insert_keycommand(map, Command::TouchFile, None, &path("dtf")).unwrap();
    insert_keycommand(map, Command::OpenEntry, Some(FileType::File), &path("l")).unwrap();
    insert_keycommand(map, Command::ParentDirectory, None, &path("l")).unwrap();
    insert_keycommand(map, Command::Quit, None, &vec![KeyEvent::plain(KeyCode::Escape)]).unwrap();
    insert_keycommand(&mut keymaps.task_view, Command::MoveHome, None, &path("1")).unwrap();
    insert_keycommand(&mut keymaps.task_view, Command::Quit, None, &path("q")).unwrap();
    keymaps
}

fn done(result: Result<Outcome, DispatchError>, consumed: usize) -> Dispatch {
    Dispatch { result, forwarded: vec![], consumed }
}

fn run(commands: Vec<Command>) -> Result<Outcome, DispatchError> {
    Ok(Outcome::Execute { commands })
}

#[test]
fn single_key_resolves_to_its_command() {
    let dispatch = resolve(&typed("jj"), &keymaps(), ViewKind::Default, None);
    assert_eq!(dispatch, done(run(vec![Command::MoveDown { offset: 1 }]), 1));
}

#[test]
fn chord_resolves_after_its_last_key() {
    assert_eq!(resolve(&typed("dd"), &keymaps(), ViewKind::Default, None), done(run(vec![Command::DeleteFiles]), 2));
    assert_eq!(resolve(&typed("dtfx"), &keymaps(), ViewKind::Default, None), done(run(vec![Command::TouchFile]), 3));
}

#[test]
fn unbound_key_is_unrecognized_and_a_chord_is_dropped() {
    assert_eq!(
        resolve(&typed("x"), &keymaps(), ViewKind::Default, None),
        done(Err(DispatchError::UnrecognizedCommand), 1)
    );
    assert_eq!(
        resolve(&typed("dxd"), &keymaps(), ViewKind::Default, None),
        done(Err(DispatchError::UnrecognizedCommand), 2)
    );
}

#[test]
fn escape_cancels_a_chord_but_is_a_key_from_idle() {
    let events = vec![key('d'), escape(), key('d')];
    assert_eq!(resolve(&events, &keymaps(), ViewKind::Default, None), done(Ok(Outcome::Cancelled), 2));
    assert_eq!(
        resolve(&vec![escape()], &keymaps(), ViewKind::Default, None),
        done(run(vec![Command::Quit]), 1)
    );
    assert_eq!(
        resolve(&vec![escape()], &keymaps(), ViewKind::Help, None),
        done(Err(DispatchError::UnrecognizedCommand), 1)
    );
}

#[test]
fn command_follows_the_selected_file_type() {
    let file = resolve(&typed("l"), &keymaps(), ViewKind::Default, Some(FileType::File));
    assert_eq!(file, done(run(vec![Command::OpenEntry]), 1));
    let directory = resolve(&typed("l"), &keymaps(), ViewKind::Default, Some(FileType::Directory));
    assert_eq!(directory, done(run(vec![Command::ParentDirectory]), 1));
    let nothing = resolve(&typed("l"), &keymaps(), ViewKind::Default, None);
    assert_eq!(nothing, done(run(vec![Command::ParentDirectory]), 1));
}

#[test]
fn digit_begins_a_prefix_in_the_default_view_only() {
    let counted = resolve(&typed("25j"), &keymaps(), ViewKind::Default, None);
    assert_eq!(
        counted,
        done(
            Ok(Outcome::NumberedExecute {
                commands: vec![Command::MoveDown { offset: 1 }],
                count: 25
            }),
            3
        )
    );
    let task = resolve(&typed("1q"), &keymaps(), ViewKind::Task, None);
    assert_eq!(task, done(run(vec![Command::MoveHome]), 1));
    let help = resolve(&typed("1q"), &keymaps(), ViewKind::Help, None);
    assert_eq!(help, done(Err(DispatchError::UnrecognizedCommand), 1));
}

#[test]
fn application_events_pass_by_an_interaction() {
    let events = vec![
        AppEvent::Application(Notification::TimerFired),
        key('d'),
        AppEvent::Application(Notification::TaskFinished),
        key('d'),
        AppEvent::Application(Notification::TaskProgress),
    ];
    let dispatch = resolve(&events, &keymaps(), ViewKind::Default, None);
    assert_eq!(
        dispatch,
        Dispatch {
            result: run(vec![Command::DeleteFiles]),
            forwarded: vec![Notification::TimerFired, Notification::TaskFinished],
            consumed: 4,
        }
    );
}

#[test]
fn events_that_run_out_leave_nothing_to_do() {
    assert_eq!(resolve(&vec![], &keymaps(), ViewKind::Default, None), done(Ok(Outcome::Cancelled), 0));
    assert_eq!(resolve(&typed("d"), &keymaps(), ViewKind::Default, None), done(Ok(Outcome::Cancelled), 1));
}

#[test]
fn resolver_keeps_the_keys_of_a_chord_until_it_ends() {
    let keymaps = keymaps();
    let keymap = &keymaps.default_view;
    let mut resolver = KeyResolver::new();
    assert_eq!(resolver.pending(), &path(""));
    assert_eq!(resolver.step(key('d'), keymap, None), Step::Continue);
    assert_eq!(resolver.pending(), &path("d"));
    let notice = AppEvent::Application(Notification::TaskProgress);
    assert_eq!(resolver.step(notice, keymap, None), Step::Forward(Notification::TaskProgress));
    assert_eq!(resolver.step(key('t'), keymap, None), Step::Continue);
    assert_eq!(resolver.pending(), &path("dt"));
    assert_eq!(resolver.step(key('f'), keymap, None), Step::Done(run(vec![Command::TouchFile])));
    assert_eq!(resolver.pending(), &path(""));
    assert_eq!(resolver.step(key('d'), keymap, None), Step::Continue);
    assert_eq!(
        resolver.step(key('q'), keymap, None),
        Step::Done(Err(DispatchError::UnrecognizedCommand))
    );
    assert_eq!(resolver.pending(), &path(""));
    assert_eq!(resolver.step(key('d'), keymap, None), Step::Continue);
    assert_eq!(resolver.step(escape(), keymap, None), Step::Done(Ok(Outcome::Cancelled)));
    assert_eq!(resolver.pending(), &path(""));
}

#[test]
fn interaction_is_idle_again_when_it_has_ended() {
    let keymaps = keymaps();
    let mut state = Interaction::Idle;
    assert_eq!(state.step(key('3'), &keymaps, ViewKind::Default, None), Step::Continue);
    assert!(matches!(state, Interaction::Prefix(_)));
    assert_eq!(
        state.step(key('j'), &keymaps, ViewKind::Default, None),
        Step::Done(Ok(Outcome::NumberedExecute {
            commands: vec![Command::MoveDown { offset: 1 }],
            count: 3
        }))
    );
    assert!(matches!(state, Interaction::Idle));
    assert_eq!(state.step(key('d'), &keymaps, ViewKind::Default, None), Step::Continue);
    assert!(matches!(state, Interaction::Chord(_)));
    assert_eq!(
        state.step(key('d'), &keymaps, ViewKind::Default, None),
        Step::Done(run(vec![Command::DeleteFiles]))
    );
    assert!(matches!(state, Interaction::Idle));
    assert_eq!(
        state.step(key('x'), &keymaps, ViewKind::Default, None),
        Step::Done(Err(DispatchError::UnrecognizedCommand))
    );
    assert!(matches!(state, Interaction::Idle));
}

#[test]
fn events_are_told_apart() {
    assert_eq!(key('a').key(), Some(KeyEvent::char('a')));
    assert_eq!(AppEvent::Unsupported.key(), None);
    assert_eq!(AppEvent::Application(Notification::TimerFired).key(), None);
    assert!(key('a').is_interactive());
    assert!(AppEvent::Unsupported.is_interactive());
    assert!(!AppEvent::Application(Notification::TaskFinished).is_interactive());
}

#[test]
fn input_that_is_no_key_is_unrecognized() {
    assert_eq!(
        resolve(&vec![AppEvent::Unsupported, key('j')], &keymaps(), ViewKind::Default, None),
        done(Err(DispatchError::UnrecognizedCommand), 1)
    );
    assert_eq!(
        resolve(&vec![key('d'), AppEvent::Unsupported, key('d')], &keymaps(), ViewKind::Default, None),
        done(Err(DispatchError::UnrecognizedCommand), 2)
    );
    let keymaps = keymaps();
    let mut resolver = KeyResolver::new();
    assert_eq!(resolver.step(key('d'), &keymaps.default_view, None), Step::Continue);
    assert_eq!(
        resolver.step(AppEvent::Unsupported, &keymaps.default_view, None),
        Step::Done(Err(DispatchError::UnrecognizedCommand))
    );
    assert_eq!(resolver.pending(), &path(""));
}
