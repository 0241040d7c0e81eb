use joshuto::builder::{vec_to_map, AppKeyMapping, CommandKeymap};
use joshuto::command::{Command, FileType};
use joshuto::event::{AppEvent, KeyCode, KeyEvent, Modifiers, Notification};
use joshuto::keymap::{insert_keycommand, KeyMapping};
use joshuto::numbered::{digit, dispatch_key, numbered_command, NumberedPrefix};
use joshuto::outcome::{copy_commands, Dispatch, DispatchError, Outcome, Step};

fn key(c: char) -> AppEvent {
    AppEvent::Terminal(KeyEvent::char(c))
}

fn typed(text: &str) -> Vec<AppEvent> {
    text.chars().map(key).collect()
}

fn escape() -> AppEvent {
    AppEvent::Terminal(KeyEvent::plain(KeyCode::Escape))
}

fn keymaps() -> AppKeyMapping {
    let mut keymaps = AppKeyMapping::new();
    let map = &mut keymaps.default_view;
    insert_keycommand(map, Command::MoveDown { offset: 1 }, None, &vec![KeyEvent::char('j')])
        .unwrap();
    insert_keycommand(map, Command::MoveUp { offset: 1 }, None, &vec![KeyEvent::char('k')])
        .unwrap();
    insert_keycommand(
        map,
        Command::DeleteFiles,
        None,
        &vec![KeyEvent::char('d'), KeyEvent::char('d')],
    )
    .unwrap();
    insert_keycommand(map, Command::OpenEntry, Some(FileType::File), &vec![KeyEvent::char('l')])
        .unwrap();
    insert_keycommand(map, Command::MoveHome, None, &vec![KeyEvent::char('g')]).unwrap();
    keymaps
}

fn done(result: Result<Outcome, DispatchError>, consumed: usize) -> Dispatch {
    Dispatch { result, forwarded: vec![], consumed }
}

#[test]
fn three_then_j_moves_down_three_rows() {
    let declared = vec![CommandKeymap {
        command: Ok(Command::MoveDown { offset: 1 }),
        keys: vec![Ok(KeyEvent::char('j'))],
        filetype: None,
        description: None,
    }];
    let (default_view, diagnostics) = vec_to_map(&declared);
    assert_eq!(diagnostics, vec![]);
    let keymaps =
        AppKeyMapping { default_view, task_view: KeyMapping::new(), help_view: KeyMapping::new() };
    let dispatch = numbered_command('3', &typed("j"), &keymaps, None);
    assert_eq!(
        dispatch,
        done(
            Ok(Outcome::NumberedExecute {
                commands: vec![Command::MoveDown { offset: 1 }],
                count: 3
            }),
            1
        )
    );
    match dispatch.result {
        Ok(Outcome::NumberedExecute { commands, count }) => {
            assert_eq!(commands[0].with_count(count), Command::MoveDown { offset: 3 });
        }
        other => panic!("{:?}", other),
    }
}

#[test]
fn twelve_then_g_goes_to_row_eleven() {
    let dispatch = numbered_command('1', &typed("2g"), &keymaps(), None);
    assert_eq!(dispatch, done(Ok(Outcome::CursorMove { index: 11 }), 2));
}

#[test]
fn nine_then_unbound_key_is_unrecognized() {
    let dispatch = numbered_command('9', &typed("Q"), &keymaps(), None);
    assert_eq!(dispatch, done(Err(DispatchError::UnrecognizedCommand), 1));
}

#[test]
fn digits_give_the_count_of_the_bound_command() {
    let dispatch = numbered_command('4', &typed("2k"), &keymaps(), None);
    assert_eq!(
        dispatch,
        done(
            Ok(Outcome::NumberedExecute { commands: vec![Command::MoveUp { offset: 1 }], count: 42 }),
            2
        )
    );
    let dispatch = numbered_command('0', &typed("0107j"), &keymaps(), Some(FileType::Directory));
    assert_eq!(
        dispatch,
        done(
            Ok(Outcome::NumberedExecute {
                commands: vec![Command::MoveDown { offset: 1 }],
                count: 107
            }),
            5
        )
    );
}

#[test]
fn escape_cancels_whatever_was_typed() {
    assert_eq!(numbered_command('5', &vec![escape()], &keymaps(), None), done(Ok(Outcome::Cancelled), 1));
    let mut events = typed("123");
    events.push(escape());
    events.push(key('j'));
    assert_eq!(numbered_command('5', &events, &keymaps(), None), done(Ok(Outcome::Cancelled), 4));
    let mut events = typed("99999999999999999999999999999999");
    events.push(escape());
    assert_eq!(numbered_command('9', &events, &keymaps(), None), done(Ok(Outcome::Cancelled), 33));
}

#[test]
fn events_that_run_out_end_the_prefix_without_a_command() {
    assert_eq!(numbered_command('5', &vec![], &keymaps(), None), done(Ok(Outcome::Cancelled), 0));
    assert_eq!(numbered_command('5', &typed("12"), &keymaps(), None), done(Ok(Outcome::Cancelled), 2));
}

#[test]
fn count_too_large_is_an_error_when_the_count_is_needed() {
    let dispatch = numbered_command('9', &typed("9999999999999999999999999j"), &keymaps(), None);
    assert_eq!(dispatch, done(Err(DispatchError::NumberTooLarge), 26));
    let dispatch = numbered_command('9', &typed("9999999999999999999999999g"), &keymaps(), None);
    assert_eq!(dispatch, done(Err(DispatchError::NumberTooLarge), 26));
    let dispatch = numbered_command('9', &typed("9999999999999999999999999Q"), &keymaps(), None);
    assert_eq!(dispatch, done(Err(DispatchError::NumberTooLarge), 26));
}

#[test]
fn largest_count_is_taken() {
    let digits = usize::MAX.to_string();
    let first = digits.chars().next().unwrap();
    let mut events = typed(&digits[1..]);
    events.push(key('j'));
    let dispatch = numbered_command(first, &events, &keymaps(), None);
    assert_eq!(
        dispatch.result,
        Ok(Outcome::NumberedExecute {
            commands: vec![Command::MoveDown { offset: 1 }],
            count: usize::MAX
        })
    );
    let mut state = NumberedPrefix::new(first).unwrap();
    for c in digits[1..].chars() {
        assert_eq!(state.step(key(c), &keymaps().default_view, None), Step::Continue);
    }
    assert_eq!(state.count(), Some(usize::MAX));
    assert_eq!(state.step(key('0'), &keymaps().default_view, None), Step::Continue);
    assert_eq!(state.count(), None);
}

#[test]
fn line_zero_is_the_first_row() {
    assert_eq!(numbered_command('0', &typed("g"), &keymaps(), None), done(Ok(Outcome::CursorMove { index: 0 }), 1));
    assert_eq!(numbered_command('1', &typed("g"), &keymaps(), None), done(Ok(Outcome::CursorMove { index: 0 }), 1));
    assert_eq!(numbered_command('0', &typed("00g"), &keymaps(), None), done(Ok(Outcome::CursorMove { index: 0 }), 3));
}

#[test]
fn g_goes_to_a_line_even_where_it_is_bound() {
    let dispatch = numbered_command('7', &typed("g"), &keymaps(), None);
    assert_eq!(dispatch, done(Ok(Outcome::CursorMove { index: 6 }), 1));
}

#[test]
fn key_that_asks_for_more_keys_takes_no_count() {
    let dispatch = numbered_command('2', &typed("dd"), &keymaps(), None);
    assert_eq!(dispatch, done(Err(DispatchError::UnrecognizedCommand), 1));
}

#[test]
fn command_is_chosen_by_the_selected_file_type() {
    let for_file = numbered_command('2', &typed("l"), &keymaps(), Some(FileType::File));
    assert_eq!(
        for_file,
        done(Ok(Outcome::NumberedExecute { commands: vec![Command::OpenEntry], count: 2 }), 1)
    );
    let for_directory = numbered_command('2', &typed("l"), &keymaps(), Some(FileType::Directory));
    assert_eq!(for_directory, done(Err(DispatchError::UnrecognizedCommand), 1));
    let for_none = numbered_command('2', &typed("l"), &keymaps(), None);
    assert_eq!(for_none, done(Err(DispatchError::UnrecognizedCommand), 1));
}

#[test]
fn application_events_are_handed_on_and_lose_no_digit() {
    let events = vec![
        AppEvent::Application(Notification::TaskProgress),
        key('2'),
        AppEvent::Application(Notification::TaskFinished),
        AppEvent::Application(Notification::TimerFired),
        key('3'),
        key('j'),
        AppEvent::Application(Notification::TaskProgress),
    ];
    let dispatch = numbered_command('1', &events, &keymaps(), None);
    assert_eq!(
        dispatch,
        Dispatch {
            result: Ok(Outcome::NumberedExecute {
                commands: vec![Command::MoveDown { offset: 1 }],
                count: 123
            }),
            forwarded: vec![
                Notification::TaskProgress,
                Notification::TaskFinished,
                Notification::TimerFired
            ],
            consumed: 6,
        }
    );
    let plain = numbered_command('1', &typed("23j"), &keymaps(), None);
    assert_eq!(plain.result, dispatch.result);
}

#[test]
fn modified_digit_is_no_digit() {
    let ctrl_one = KeyEvent {
        code: KeyCode::Char('1'),
        modifiers: Modifiers { ctrl: true, alt: false, shift: false },
    };
    let dispatch = numbered_command('4', &vec![AppEvent::Terminal(ctrl_one)], &keymaps(), None);
    assert_eq!(dispatch, done(Err(DispatchError::UnrecognizedCommand), 1));
}

#[test]
fn prefix_steps_one_event_at_a_time() {
    let keymaps = keymaps();
    let keymap = &keymaps.default_view;
    assert!(NumberedPrefix::new('x').is_none());
    assert!(NumberedPrefix::new('/').is_none());
    assert!(NumberedPrefix::new(':').is_none());
    let mut state = NumberedPrefix::new('4').unwrap();
    assert_eq!(state.prefix(), "4");
    assert_eq!(state.count(), Some(4));
    assert_eq!(state.step(key('0'), keymap, None), Step::Continue);
    assert_eq!(state.prefix(), "40");
    assert_eq!(state.count(), Some(40));
    let notice = AppEvent::Application(Notification::TaskFinished);
    assert_eq!(state.step(notice, keymap, None), Step::Forward(Notification::TaskFinished));
    assert_eq!(state.prefix(), "40");
    assert_eq!(state.count(), Some(40));
    assert_eq!(state.step(key('9'), keymap, None), Step::Continue);
    assert_eq!(state.prefix(), "409");
    assert_eq!(state.step(escape(), keymap, None), Step::Done(Ok(Outcome::Cancelled)));
    assert_eq!(state.prefix(), "409");
    assert_eq!(
        state.step(key('k'), keymap, None),
        Step::Done(Ok(Outcome::NumberedExecute {
            commands: vec![Command::MoveUp { offset: 1 }],
            count: 409
        }))
    );
    let started = NumberedPrefix::start('7');
    assert_eq!(started.prefix(), "7");
    assert_eq!(started.count(), Some(7));
}

#[test]
fn digits_and_their_values() {
    assert_eq!(digit('0'), Some(0));
    assert_eq!(digit('7'), Some(7));
    assert_eq!(digit('9'), Some(9));
    assert_eq!(digit('a'), None);
    assert_eq!(digit('/'), None);
    assert_eq!(digit(':'), None);
    assert_eq!(digit('٣'), None);
}

#[test]
fn key_after_a_count() {
    let keymaps = keymaps();
    let keymap = &keymaps.default_view;
    assert_eq!(
        dispatch_key(5, KeyEvent::char('g'), keymap, None),
        Ok(Outcome::CursorMove { index: 4 })
    );
    assert_eq!(
        dispatch_key(5, KeyEvent::char('j'), keymap, None),
        Ok(Outcome::NumberedExecute { commands: vec![Command::MoveDown { offset: 1 }], count: 5 })
    );
    assert_eq!(
        dispatch_key(5, KeyEvent::char('x'), keymap, None),
        Err(DispatchError::UnrecognizedCommand)
    );
    assert_eq!(copy_commands(&vec![Command::Quit, Command::MoveEnd]), vec![Command::Quit, Command::MoveEnd]);
}

#[test]
fn input_that_is_no_key_ends_the_prefix_in_an_error() {
    let dispatch = numbered_command('4', &vec![key('2'), AppEvent::Unsupported, key('j')], &keymaps(), None);
    assert_eq!(dispatch, done(Err(DispatchError::UnrecognizedCommand), 2));
    let mut events = typed("9999999999999999999999999");
    events.push(AppEvent::Unsupported);
    let dispatch = numbered_command('9', &events, &keymaps(), None);
    assert_eq!(dispatch, done(Err(DispatchError::NumberTooLarge), 26));
}
