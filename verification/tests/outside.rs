use nonsteam::codec::{decode, encode};
use nonsteam::collection::ShortcutCollection;
use nonsteam::commands::add_game;
use steam_shortcuts_util::{calculate_app_id_for_shortcut, parse_shortcuts, shortcuts_to_bytes};

#[test]
fn added_shortcut_has_the_identifier_of_the_outside_crate() {
    let mut games = ShortcutCollection::new(vec![]);
    games.add("Poker", "\"poker.exe\"").unwrap();
    let theirs = steam_shortcuts_util::Shortcut::new("0", "Poker", "\"poker.exe\"", "", "", "", "");
    assert_eq!(games.list()[0].app_id, calculate_app_id_for_shortcut(&theirs));
    assert_eq!(games.list()[0].app_id, 3_453_900_944);
}

#[test]
fn identifier_depends_on_name_and_executable() {
    let mut games = ShortcutCollection::new(vec![]);
    games.add("Chess", "\"chess.exe\"").unwrap();
    games.add("Go", "\"go.exe\"").unwrap();
    assert_eq!(games.list()[0].app_id, 0xfed7_e1aa);
    assert_eq!(games.list()[1].app_id, 0xc2f6_a273);
}

#[test]
fn files_written_here_are_read_by_the_outside_crate() {
    let empty = encode(&vec![]);
    let one = add_game(&empty, "Chess", "\"chess.exe\"").unwrap();
    let two = add_game(&one, "Go", "\"go.exe\"").unwrap();
    let theirs = parse_shortcuts(&two).unwrap();
    assert_eq!(theirs.len(), 2);
    assert_eq!(theirs[0].order, "0");
    assert_eq!(theirs[0].app_name, "Chess");
    assert_eq!(theirs[0].exe, "\"chess.exe\"");
    assert_eq!(theirs[0].start_dir, "\"./\"");
    assert_eq!(theirs[0].app_id, 0xfed7_e1aa);
    assert_eq!(theirs[1].order, "1");
    assert_eq!(theirs[1].app_name, "Go");
    assert_eq!(theirs[1].exe, "\"go.exe\"");
    assert!(theirs[1].tags.is_empty());
}

#[test]
fn files_written_by_the_outside_crate_pass_through_unchanged() {
    let mut chess =
        steam_shortcuts_util::Shortcut::new("0", "Chess", "\"chess.exe\"", "\"./\"", "", "", "");
    chess.tags = vec!["board", "classic"];
    let go = steam_shortcuts_util::Shortcut::new("1", "Go", "\"go.exe\"", "\"./\"", "i", "p", "o");
    let bytes = shortcuts_to_bytes(&vec![chess, go]);
    let ours = decode(&bytes).unwrap();
    assert_eq!(ours.len(), 2);
    assert_eq!(ours[0].order, b"0");
    assert_eq!(ours[0].start_dir, b"\"./\"");
    assert_eq!(ours[1].icon, b"i");
    assert_eq!(ours[1].shortcut_path, b"p");
    assert_eq!(ours[1].launch_options, b"o");
    assert_eq!(ours[1].app_id, 0xc2f6_a273);
    assert_eq!(encode(&ours), bytes);
}
