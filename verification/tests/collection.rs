use nonsteam::codec::{decode, encode};
use nonsteam::collection::ShortcutCollection;
use nonsteam::error::ShortcutError;
use nonsteam::shortcut::{FieldId, Shortcut, Slot};
use nonsteam::wire::{Entry, Kind};

fn record(order: &str, name: &str, exe: &str) -> Vec<u8> {
    let mut out = vec![0u8];
    out.extend_from_slice(order.as_bytes());
    out.extend_from_slice(b"\0\x01appname\0");
    out.extend_from_slice(name.as_bytes());
    out.extend_from_slice(b"\0\x01exe\0");
    out.extend_from_slice(exe.as_bytes());
    out.extend_from_slice(b"\0\x08");
    out
}

fn file_of(records: &[Vec<u8>]) -> Vec<u8> {
    let mut out = b"\0shortcuts\0".to_vec();
    for r in records {
        out.extend_from_slice(r);
    }
    out.extend_from_slice(&[8, 8]);
    out
}

fn chess_go_collection() -> ShortcutCollection {
    let bytes =
        file_of(&[record("0", "Chess", "\"chess.exe\""), record("1", "Go", "\"go.exe\"")]);
    ShortcutCollection::new(decode(&bytes).unwrap())
}

fn names(c: &ShortcutCollection) -> Vec<String> {
    c.list().iter().map(|s| String::from_utf8(s.app_name.clone()).unwrap()).collect()
}

fn orders(c: &ShortcutCollection) -> Vec<String> {
    c.list().iter().map(|s| String::from_utf8(s.order.clone()).unwrap()).collect()
}

#[test]
fn scenario_add_poker_then_remove_go() {
    let mut games = chess_go_collection();
    assert_eq!(games.add("Poker", "\"poker.exe\""), Ok(()));
    assert_eq!(names(&games), vec!["Chess", "Go", "Poker"]);
    assert_eq!(orders(&games), vec!["0", "1", "2"]);
    assert_eq!(games.remove(b"Go"), Ok(()));
    assert_eq!(names(&games), vec!["Chess", "Poker"]);
    assert_eq!(orders(&games), vec!["0", "1"]);
}

#[test]
fn list_gives_the_shortcuts_unchanged() {
    let bytes =
        file_of(&[record("0", "Chess", "\"chess.exe\""), record("1", "Go", "\"go.exe\"")]);
    let decoded = decode(&bytes).unwrap();
    let games = ShortcutCollection::new(decoded.clone());
    assert_eq!(games.list(), &decoded);
    assert_eq!(games.len(), 2);
}

#[test]
fn add_rejects_a_name_that_is_there() {
    let mut games = chess_go_collection();
    let before = games.clone();
    assert_eq!(games.add("Go", "\"other.exe\""), Err(ShortcutError::DuplicateName));
    assert_eq!(games, before);
}

#[test]
fn add_with_id_rejects_a_name_that_is_there() {
    let mut games = chess_go_collection();
    let before = games.clone();
    assert_eq!(games.add_with_id(b"Chess", b"x", 9), Err(ShortcutError::DuplicateName));
    assert_eq!(games, before);
}

#[test]
fn remove_rejects_a_name_that_is_missing() {
    let mut games = chess_go_collection();
    let before = games.clone();
    assert_eq!(games.remove(b"Poker"), Err(ShortcutError::NotFound));
    assert_eq!(games, before);
}

#[test]
fn names_are_compared_byte_for_byte() {
    let mut games = chess_go_collection();
    assert_eq!(games.remove(b"go"), Err(ShortcutError::NotFound));
    assert_eq!(games.add("chess", "\"chess2.exe\""), Ok(()));
    assert_eq!(names(&games), vec!["Chess", "Go", "chess"]);
}

#[test]
fn add_then_remove_gives_the_list_back() {
    let mut games = chess_go_collection();
    let before = games.clone();
    games.add("Poker", "\"poker.exe\"").unwrap();
    games.remove(b"Poker").unwrap();
    assert_eq!(games, before);
}

#[test]
fn add_then_remove_gives_the_list_back_with_orders_set_to_positions() {
    let bytes = file_of(&[record("9", "Chess", "a"), record("", "Go", "b")]);
    let mut games = ShortcutCollection::new(decode(&bytes).unwrap());
    games.add("Poker", "c").unwrap();
    games.remove(b"Poker").unwrap();
    assert_eq!(orders(&games), vec!["0", "1"]);
    let expected = file_of(&[record("0", "Chess", "a"), record("1", "Go", "b")]);
    assert_eq!(encode(games.list()), expected);
}

#[test]
fn add_sets_every_order_to_its_position() {
    let bytes = file_of(&[record("5", "Chess", "a"), record("5", "Go", "b")]);
    let mut games = ShortcutCollection::new(decode(&bytes).unwrap());
    games.add("Poker", "c").unwrap();
    assert_eq!(orders(&games), vec!["0", "1", "2"]);
}

#[test]
fn remove_takes_the_first_of_two_with_one_name() {
    let bytes = file_of(&[
        record("0", "Chess", "first"),
        record("1", "Go", "b"),
        record("2", "Chess", "second"),
    ]);
    let mut games = ShortcutCollection::new(decode(&bytes).unwrap());
    games.remove(b"Chess").unwrap();
    assert_eq!(names(&games), vec!["Go", "Chess"]);
    assert_eq!(orders(&games), vec!["0", "1"]);
    assert_eq!(games.list()[1].executable, b"second");
}

#[test]
fn remove_changes_nothing_but_the_orders() {
    let mut games = chess_go_collection();
    let chess = games.list()[0].clone();
    games.add("Poker", "\"poker.exe\"").unwrap();
    let poker = games.list()[2].clone();
    games.remove(b"Go").unwrap();
    assert_eq!(games.list()[0], chess);
    let mut moved = poker;
    moved.order = b"1".to_vec();
    assert_eq!(games.list()[1], moved);
}

#[test]
fn orders_stay_dense_over_many_edits() {
    let mut games = ShortcutCollection::new(vec![]);
    for i in 0..12 {
        games.add(&format!("game {}", i), "run").unwrap();
    }
    games.remove(b"game 3").unwrap();
    games.remove(b"game 0").unwrap();
    games.add("late", "run").unwrap();
    games.remove(b"game 11").unwrap();
    let expected: Vec<String> = (0..10).map(|i| i.to_string()).collect();
    assert_eq!(orders(&games), expected);
    assert_eq!(games.list()[9].app_name, b"late");
}

#[test]
fn add_to_the_empty_list_gives_order_zero() {
    let mut games = ShortcutCollection::new(vec![]);
    games.add_with_id(b"Chess", b"\"chess.exe\"", 17).unwrap();
    assert_eq!(games.len(), 1);
    assert_eq!(games.list()[0].order, b"0");
    assert_eq!(games.list()[0].app_id, 17);
}

#[test]
fn new_shortcut_has_the_defaults() {
    let mut games = ShortcutCollection::new(vec![]);
    games.add_with_id(b"Chess", b"\"chess.exe\"", 17).unwrap();
    let s = &games.list()[0];
    assert_eq!(s.app_name, b"Chess");
    assert_eq!(s.executable, b"\"chess.exe\"");
    assert_eq!(s.start_dir, b"\"./\"");
    assert_eq!(s.icon, b"");
    assert_eq!(s.shortcut_path, b"");
    assert_eq!(s.launch_options, b"");
    let number = |key: &str, value: u32| {
        Slot::Opaque(Entry {
            key: key.as_bytes().to_vec(),
            kind: Kind::Int,
            raw: value.to_le_bytes().to_vec(),
        })
    };
    assert_eq!(
        s.layout,
        vec![
            Slot::Known(FieldId::AppId),
            Slot::Known(FieldId::AppName),
            Slot::Known(FieldId::Executable),
            Slot::Known(FieldId::StartDir),
            Slot::Known(FieldId::Icon),
            Slot::Known(FieldId::ShortcutPath),
            Slot::Known(FieldId::LaunchOptions),
            number("IsHidden", 0),
            number("AllowDesktopConfig", 1),
            number("AllowOverlay", 1),
            number("openvr", 0),
            number("Devkit", 0),
            Slot::Opaque(Entry { key: b"DevkitGameID".to_vec(), kind: Kind::Text, raw: vec![] }),
            number("DevkitOverrideAppID", 0),
            number("LastPlayTime", 0),
            Slot::Opaque(Entry { key: b"tags".to_vec(), kind: Kind::Container, raw: vec![8] }),
        ]
    );
    assert_eq!(*s, Shortcut::new(b"0".to_vec(), 17, b"Chess".to_vec(), b"\"chess.exe\"".to_vec()));
}

#[test]
fn new_shortcut_is_written_entry_by_entry() {
    let s = Shortcut::new(b"0".to_vec(), 0x0403_0201, b"A".to_vec(), b"B".to_vec());
    let expected: &[u8] = b"\0shortcuts\0\x000\0\
        \x02appid\0\x01\x02\x03\x04\
        \x01appname\0A\0\
        \x01exe\0B\0\
        \x01StartDir\0\"./\"\0\
        \x01icon\0\0\
        \x01ShortcutPath\0\0\
        \x01LaunchOptions\0\0\
        \x02IsHidden\0\0\0\0\0\
        \x02AllowDesktopConfig\0\x01\0\0\0\
        \x02AllowOverlay\0\x01\0\0\0\
        \x02openvr\0\0\0\0\0\
        \x02Devkit\0\0\0\0\0\
        \x01DevkitGameID\0\0\
        \x02DevkitOverrideAppID\0\0\0\0\0\
        \x02LastPlayTime\0\0\0\0\0\
        \0tags\0\x08\
        \x08\x08\x08";
    assert_eq!(encode(&vec![s]), expected.to_vec());
}

#[test]
fn find_gives_the_first_position_of_a_name() {
    let bytes = file_of(&[record("0", "Chess", "a"), record("1", "Go", "b"), record("2", "Go", "c")]);
    let games = ShortcutCollection::new(decode(&bytes).unwrap());
    assert_eq!(games.find(b"Chess"), Some(0));
    assert_eq!(games.find(b"Go"), Some(1));
    assert_eq!(games.find(b"Poker"), None);
    assert_eq!(games.find(b""), None);
}

#[test]
fn renumber_sets_orders_to_positions() {
    let bytes = file_of(&[record("b", "Chess", "a"), record("a", "Go", "b")]);
    let mut games = ShortcutCollection::new(decode(&bytes).unwrap());
    games.renumber();
    assert_eq!(orders(&games), vec!["0", "1"]);
    assert_eq!(names(&games), vec!["Chess", "Go"]);
}

#[test]
fn name_column_is_four_wider_than_the_longest_name() {
    let bytes = file_of(&[record("0", "Chess", "a"), record("1", "Backgammon", "b")]);
    let games = ShortcutCollection::new(decode(&bytes).unwrap());
    assert_eq!(games.name_column_width(), 14);
}

#[test]
fn name_column_is_never_narrower_than_its_heading() {
    assert_eq!(ShortcutCollection::new(vec![]).name_column_width(), 8);
    let bytes = file_of(&[record("0", "Go", "a")]);
    let games = ShortcutCollection::new(decode(&bytes).unwrap());
    assert_eq!(games.name_column_width(), 8);
    let bytes = file_of(&[record("0", "Chess", "a")]);
    let games = ShortcutCollection::new(decode(&bytes).unwrap());
    assert_eq!(games.name_column_width(), 9);
}
