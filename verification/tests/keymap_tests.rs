use joshuto::command::{Command, FileType};
use joshuto::event::{KeyCode, KeyEvent, Modifiers};
use joshuto::keybind::{same_filetype, CommandKeybind, CommandTable};
use joshuto::keymap::{
    insert_described, insert_keycommand, AmbiguityError, Conflict, KeyMapping,
};

fn keys(text: &str) -> Vec<KeyEvent> {
    text.chars().map(KeyEvent::char).collect()
}

fn bound(keymap: &KeyMapping, path: &str, filetype: Option<FileType>) -> Option<Vec<Command>> {
    match keymap.lookup(&keys(path)) {
        Some(CommandKeybind::SimpleKeybind { commands, .. }) => commands.get(filetype).cloned(),
        _ => None,
    }
}

#[test]
fn new_mapping_binds_nothing() {
    let keymap = KeyMapping::new();
    assert_eq!(keymap.len(), 0);
    assert!(keymap.get(KeyEvent::char('j')).is_none());
    assert!(keymap.lookup(&keys("j")).is_none());
    assert!(keymap.lookup(&keys("")).is_none());
    assert_eq!(keymap.find_conflict(&keys("dd"), None), None);
}

#[test]
fn single_key_is_bound() {
    let mut keymap = KeyMapping::new();
    let result = insert_keycommand(&mut keymap, Command::MoveDown { offset: 1 }, None, &keys("j"));
    assert_eq!(result, Ok(()));
    assert_eq!(keymap.len(), 1);
    assert_eq!(bound(&keymap, "j", None), Some(vec![Command::MoveDown { offset: 1 }]));
    assert_eq!(bound(&keymap, "j", Some(FileType::File)), None);
    assert_eq!(bound(&keymap, "k", None), None);
}

#[test]
fn chord_is_bound_through_composite_levels() {
    let mut keymap = KeyMapping::new();
    assert_eq!(insert_keycommand(&mut keymap, Command::MoveHome, None, &keys("gg")), Ok(()));
    assert_eq!(insert_keycommand(&mut keymap, Command::MoveEnd, None, &keys("ge")), Ok(()));
    assert_eq!(keymap.len(), 1);
    match keymap.lookup(&keys("g")) {
        Some(CommandKeybind::CompositeKeybind(next)) => {
            assert_eq!(next.len(), 2);
            assert_eq!(next.entry(0).0, KeyEvent::char('g'));
            assert_eq!(next.entry(1).0, KeyEvent::char('e'));
        }
        other => panic!("{:?}", other),
    }
    assert_eq!(bound(&keymap, "gg", None), Some(vec![Command::MoveHome]));
    assert_eq!(bound(&keymap, "ge", None), Some(vec![Command::MoveEnd]));
    assert!(keymap.lookup(&keys("gx")).is_none());
    assert!(keymap.lookup(&keys("ggg")).is_none());
}

#[test]
fn empty_key_sequence_binds_nothing_and_is_no_error() {
    let mut keymap = KeyMapping::new();
    assert_eq!(insert_keycommand(&mut keymap, Command::Quit, None, &keys("")), Ok(()));
    assert_eq!(keymap.len(), 0);
}

#[test]
fn same_slot_twice_is_refused() {
    let mut keymap = KeyMapping::new();
    assert_eq!(insert_keycommand(&mut keymap, Command::Quit, None, &keys("q")), Ok(()));
    let second = insert_keycommand(&mut keymap, Command::DeleteFiles, None, &keys("q"));
    assert_eq!(
        second,
        Err(AmbiguityError { command: Command::DeleteFiles, conflict: Conflict::SlotTaken })
    );
    assert_eq!(bound(&keymap, "q", None), Some(vec![Command::Quit]));
    assert_eq!(keymap.find_conflict(&keys("q"), None), Some(Conflict::SlotTaken));
    assert_eq!(keymap.find_conflict(&keys("q"), Some(FileType::File)), None);
}

#[test]
fn same_keys_for_different_file_types_are_both_bound() {
    let mut keymap = KeyMapping::new();
    let directory = Some(FileType::Directory);
    let file = Some(FileType::File);
    assert_eq!(insert_keycommand(&mut keymap, Command::OpenEntry, file, &keys("l")), Ok(()));
    assert_eq!(insert_keycommand(&mut keymap, Command::ParentDirectory, directory, &keys("l")), Ok(()));
    assert_eq!(insert_keycommand(&mut keymap, Command::MoveEnd, None, &keys("l")), Ok(()));
    assert_eq!(bound(&keymap, "l", file), Some(vec![Command::OpenEntry]));
    assert_eq!(bound(&keymap, "l", directory), Some(vec![Command::ParentDirectory]));
    assert_eq!(bound(&keymap, "l", None), Some(vec![Command::MoveEnd]));
    match keymap.lookup(&keys("l")) {
        Some(CommandKeybind::SimpleKeybind { commands, description }) => {
            assert_eq!(commands.len(), 3);
            assert_eq!(commands.entry(0).0, file);
            assert_eq!(commands.entry(1).0, directory);
            assert_eq!(commands.entry(2).0, None);
            assert_eq!(*description, None);
        }
        other => panic!("{:?}", other),
    }
}

#[test]
fn longer_then_shorter_is_refused() {
    let mut keymap = KeyMapping::new();
    assert_eq!(insert_keycommand(&mut keymap, Command::DeleteFiles, None, &keys("dd")), Ok(()));
    let second = insert_keycommand(&mut keymap, Command::Quit, None, &keys("d"));
    assert_eq!(
        second,
        Err(AmbiguityError { command: Command::Quit, conflict: Conflict::PrefixOfBinding })
    );
    assert_eq!(bound(&keymap, "dd", None), Some(vec![Command::DeleteFiles]));
    assert!(matches!(keymap.lookup(&keys("d")), Some(CommandKeybind::CompositeKeybind(_))));
}

#[test]
fn shorter_then_longer_is_refused() {
    let mut keymap = KeyMapping::new();
    assert_eq!(insert_keycommand(&mut keymap, Command::Quit, None, &keys("d")), Ok(()));
    let second = insert_keycommand(&mut keymap, Command::DeleteFiles, None, &keys("dd"));
    assert_eq!(
        second,
        Err(AmbiguityError { command: Command::DeleteFiles, conflict: Conflict::ExtendsBinding })
    );
    assert_eq!(bound(&keymap, "d", None), Some(vec![Command::Quit]));
    assert!(keymap.lookup(&keys("dd")).is_none());
    assert_eq!(keymap.len(), 1);
}

#[test]
fn refusal_deep_in_a_chord_leaves_the_mapping_as_it_was() {
    let mut keymap = KeyMapping::new();
    assert_eq!(insert_keycommand(&mut keymap, Command::MoveHome, None, &keys("abc")), Ok(()));
    let refused = insert_keycommand(&mut keymap, Command::Quit, None, &keys("abcd"));
    assert_eq!(refused.map_err(|e| e.conflict), Err(Conflict::ExtendsBinding));
    let refused = insert_keycommand(&mut keymap, Command::Quit, None, &keys("ab"));
    assert_eq!(refused.map_err(|e| e.conflict), Err(Conflict::PrefixOfBinding));
    let refused = insert_keycommand(&mut keymap, Command::Quit, None, &keys("abc"));
    assert_eq!(refused.map_err(|e| e.conflict), Err(Conflict::SlotTaken));
    assert_eq!(bound(&keymap, "abc", None), Some(vec![Command::MoveHome]));
    assert_eq!(insert_keycommand(&mut keymap, Command::Quit, None, &keys("abd")), Ok(()));
    assert_eq!(bound(&keymap, "abd", None), Some(vec![Command::Quit]));
    assert_eq!(bound(&keymap, "abc", None), Some(vec![Command::MoveHome]));
}

#[test]
fn bindings_that_do_not_collide_are_both_bound() {
    let mut keymap = KeyMapping::new();
    assert_eq!(insert_keycommand(&mut keymap, Command::MoveUp { offset: 1 }, None, &keys("k")), Ok(()));
    assert_eq!(insert_keycommand(&mut keymap, Command::MoveDown { offset: 1 }, None, &keys("j")), Ok(()));
    assert_eq!(insert_keycommand(&mut keymap, Command::DeleteFiles, None, &keys("dd")), Ok(()));
    assert_eq!(insert_keycommand(&mut keymap, Command::TouchFile, None, &keys("dt")), Ok(()));
    assert_eq!(keymap.len(), 3);
    assert_eq!(keymap.entry(0).0, KeyEvent::char('k'));
    assert_eq!(keymap.entry(1).0, KeyEvent::char('j'));
    assert_eq!(keymap.entry(2).0, KeyEvent::char('d'));
}

#[test]
fn modifiers_tell_keys_apart() {
    let mut keymap = KeyMapping::new();
    let plain = KeyEvent::char('r');
    let ctrl = KeyEvent {
        code: KeyCode::Char('r'),
        modifiers: Modifiers { ctrl: true, alt: false, shift: false },
    };
    assert_eq!(insert_keycommand(&mut keymap, Command::Quit, None, &vec![plain]), Ok(()));
    assert_eq!(insert_keycommand(&mut keymap, Command::TouchFile, None, &vec![ctrl]), Ok(()));
    assert_eq!(keymap.len(), 2);
    assert!(keymap.get(ctrl).is_some());
    assert_eq!(KeyEvent::plain(KeyCode::Char('r')), plain);
    assert_ne!(plain, ctrl);
    assert_eq!(Modifiers::none(), Modifiers { ctrl: false, alt: false, shift: false });
}

#[test]
fn table_selects_by_file_type_and_falls_back_to_wildcard() {
    let mut table = CommandTable::new();
    assert_eq!(table.len(), 0);
    assert_eq!(table.select(None), None);
    assert!(table.insert(Some(FileType::Directory), vec![Command::OpenEntry]));
    assert_eq!(table.select(Some(FileType::File)), None);
    assert_eq!(table.select(None), None);
    assert!(table.insert(None, vec![Command::Quit, Command::MoveHome]));
    assert!(!table.insert(None, vec![Command::DeleteFiles]));
    assert!(!table.insert(Some(FileType::Directory), vec![Command::DeleteFiles]));
    assert_eq!(table.len(), 2);
    assert_eq!(table.select(Some(FileType::Directory)), Some(&vec![Command::OpenEntry]));
    assert_eq!(table.select(Some(FileType::File)), Some(&vec![Command::Quit, Command::MoveHome]));
    assert_eq!(table.select(None), Some(&vec![Command::Quit, Command::MoveHome]));
    assert_eq!(table.get(Some(FileType::File)), None);
    assert_eq!(table.entry(1), (None, &vec![Command::Quit, Command::MoveHome]));
}

#[test]
fn file_type_filters_compare_by_value() {
    assert!(same_filetype(None, None));
    assert!(same_filetype(Some(FileType::File), Some(FileType::File)));
    assert!(!same_filetype(Some(FileType::File), Some(FileType::Directory)));
    assert!(!same_filetype(None, Some(FileType::Directory)));
}

#[test]
fn node_descriptions() {
    let mut keymap = KeyMapping::new();
    insert_keycommand(&mut keymap, Command::OpenEntry, Some(FileType::File), &keys("l")).unwrap();
    insert_keycommand(&mut keymap, Command::ParentDirectory, Some(FileType::Directory), &keys("l"))
        .unwrap();
    insert_keycommand(&mut keymap, Command::MoveEnd, None, &keys("l")).unwrap();
    insert_keycommand(&mut keymap, Command::MoveHome, None, &keys("gg")).unwrap();
    let simple = keymap.lookup(&keys("l")).unwrap();
    assert_eq!(simple.describe(), "open [File], parent_directory [Directory], move_end, ");
    let composite = keymap.lookup(&keys("g")).unwrap();
    assert_eq!(composite.describe(), "...");
    let mut commands = CommandTable::new();
    commands.insert(None, vec![Command::Quit]);
    let described = CommandKeybind::SimpleKeybind {
        commands,
        description: Some(String::from("leave the program")),
    };
    assert_eq!(described.describe(), "leave the program");
}

#[test]
fn command_names_and_counts() {
    assert_eq!(Command::MoveDown { offset: 1 }.name(), "move_down");
    assert_eq!(Command::MoveUp { offset: 7 }.name(), "move_up");
    assert_eq!(Command::TouchFile.name(), "touch");
    assert_eq!(Command::MoveDown { offset: 1 }.with_count(3), Command::MoveDown { offset: 3 });
    assert_eq!(Command::MoveUp { offset: 1 }.with_count(12), Command::MoveUp { offset: 12 });
    assert_eq!(Command::Quit.with_count(9), Command::Quit);
    assert_eq!(FileType::annotation(None), "");
    assert_eq!(FileType::annotation(Some(FileType::Directory)), " [Directory]");
    assert_eq!(FileType::annotation(Some(FileType::File)), " [File]");
}

#[test]
fn key_labels() {
    assert_eq!(KeyEvent::char('j').label(), "j");
    assert_eq!(KeyEvent::plain(KeyCode::Escape).label(), "escape");
    assert_eq!(KeyEvent::plain(KeyCode::F(1)).label(), "f1");
    assert_eq!(KeyEvent::plain(KeyCode::F(12)).label(), "f12");
    assert_eq!(KeyEvent::plain(KeyCode::F(255)).label(), "f255");
    assert_eq!(KeyEvent::plain(KeyCode::PageDown).label(), "page_down");
    let ctrl_alt = KeyEvent {
        code: KeyCode::Char('x'),
        modifiers: Modifiers { ctrl: true, alt: true, shift: false },
    };
    assert_eq!(ctrl_alt.label(), "ctrl+alt+x");
    let shift_left = KeyEvent {
        code: KeyCode::Left,
        modifiers: Modifiers { ctrl: false, alt: false, shift: true },
    };
    assert_eq!(shift_left.label(), "shift+arrow_left");
}

fn description(keymap: &KeyMapping, path: &str) -> Option<String> {
    match keymap.lookup(&keys(path)) {
        Some(CommandKeybind::SimpleKeybind { description, .. }) => description.clone(),
        _ => None,
    }
}

#[test]
fn binding_with_a_description() {
    let mut keymap = KeyMapping::new();
    let shown = Some(String::from("go down"));
    assert_eq!(
        insert_described(&mut keymap, Command::MoveDown { offset: 1 }, shown, None, &keys("j")),
        Ok(())
    );
    assert_eq!(description(&keymap, "j"), Some(String::from("go down")));
    assert_eq!(bound(&keymap, "j", None), Some(vec![Command::MoveDown { offset: 1 }]));
    assert_eq!(keymap.lookup(&keys("j")).unwrap().describe(), "go down");

    let file = Some(FileType::File);
    assert_eq!(insert_keycommand(&mut keymap, Command::OpenEntry, file, &keys("j")), Ok(()));
    assert_eq!(description(&keymap, "j"), Some(String::from("go down")));
    assert_eq!(insert_described(&mut keymap, Command::OpenEntry, None, file, &keys("zz")), Ok(()));
    assert_eq!(description(&keymap, "zz"), None);

    let directory = Some(FileType::Directory);
    let replaced = Some(String::from("down or in"));
    assert_eq!(
        insert_described(&mut keymap, Command::OpenEntry, replaced, directory, &keys("j")),
        Ok(())
    );
    assert_eq!(description(&keymap, "j"), Some(String::from("down or in")));
    assert_eq!(bound(&keymap, "j", None), Some(vec![Command::MoveDown { offset: 1 }]));
    assert_eq!(bound(&keymap, "j", directory), Some(vec![Command::OpenEntry]));

    let refused = Some(String::from("refused"));
    let result = insert_described(&mut keymap, Command::Quit, refused, None, &keys("j"));
    assert_eq!(
        result,
        Err(AmbiguityError { command: Command::Quit, conflict: Conflict::SlotTaken })
    );
    assert_eq!(description(&keymap, "j"), Some(String::from("down or in")));
    let nothing = insert_described(&mut keymap, Command::Quit, Some(String::from("x")), None, &keys(""));
    assert_eq!(nothing, Ok(()));
    assert_eq!(keymap.len(), 2);
}

#[test]
fn further_level_without_keys_is_shown_as_three_dots() {
    assert_eq!(CommandKeybind::CompositeKeybind(KeyMapping::new()).describe(), "...");
    let described = CommandKeybind::SimpleKeybind {
        commands: CommandTable::new(),
        description: Some(String::from("nothing bound")),
    };
    assert_eq!(described.describe(), "nothing bound");
    let empty = CommandKeybind::SimpleKeybind { commands: CommandTable::new(), description: None };
    assert_eq!(empty.describe(), "");
}
