use nonsteam::codec::{decode, encode};
use nonsteam::commands::{add_game, add_game_with_id, remove_game};
use nonsteam::error::ShortcutError;
use nonsteam::shortcut::Shortcut;

fn chess_file() -> Vec<u8> {
    b"\0shortcuts\0\x000\0\x01appname\0Chess\0\x01exe\0\"chess.exe\"\0\x08\x08\x08".to_vec()
}

#[test]
fn add_game_appends_a_record() {
    let bytes = add_game_with_id(&chess_file(), b"Go", b"\"go.exe\"", 5).unwrap();
    let mut expected = decode(&chess_file()).unwrap();
    expected.push(Shortcut::new(b"1".to_vec(), 5, b"Go".to_vec(), b"\"go.exe\"".to_vec()));
    assert_eq!(bytes, encode(&expected));
    assert_eq!(decode(&bytes), Ok(expected));
}

#[test]
fn add_game_keeps_the_old_records_byte_for_byte() {
    let old = chess_file();
    let new = add_game_with_id(&old, b"Go", b"\"go.exe\"", 5).unwrap();
    assert_eq!(&new[..old.len() - 2], &old[..old.len() - 2]);
}

#[test]
fn add_game_generates_the_identifier() {
    let bytes = add_game(&chess_file(), "Poker", "\"poker.exe\"").unwrap();
    let shortcuts = decode(&bytes).unwrap();
    assert_eq!(shortcuts[1].app_name, b"Poker");
    assert_eq!(shortcuts[1].app_id, 0xcdde_5890);
}

#[test]
fn add_game_rejects_a_duplicate() {
    assert_eq!(add_game(&chess_file(), "Chess", "x"), Err(ShortcutError::DuplicateName));
}

#[test]
fn add_game_rejects_a_malformed_file() {
    let mut bytes = chess_file();
    bytes.pop();
    assert_eq!(
        add_game(&bytes, "Go", "x"),
        Err(ShortcutError::MalformedInput { offset: bytes.len() })
    );
}

#[test]
fn remove_game_drops_the_record() {
    let both = add_game_with_id(&chess_file(), b"Go", b"\"go.exe\"", 5).unwrap();
    let bytes = remove_game(&both, b"Chess").unwrap();
    let shortcuts = decode(&bytes).unwrap();
    assert_eq!(shortcuts.len(), 1);
    assert_eq!(shortcuts[0].app_name, b"Go");
    assert_eq!(shortcuts[0].order, b"0");
}

#[test]
fn remove_game_of_the_only_record_leaves_the_empty_file() {
    assert_eq!(remove_game(&chess_file(), b"Chess"), Ok(b"\0shortcuts\0\x08\x08".to_vec()));
}

#[test]
fn remove_game_rejects_a_missing_name() {
    assert_eq!(remove_game(&chess_file(), b"Go"), Err(ShortcutError::NotFound));
}

#[test]
fn remove_game_rejects_a_malformed_file() {
    assert_eq!(remove_game(b"\x01", b"Go"), Err(ShortcutError::MalformedInput { offset: 0 }));
}

#[test]
fn add_game_then_remove_game_gives_the_file_back() {
    let old = chess_file();
    let new = add_game(&old, "Go", "\"go.exe\"").unwrap();
    assert_eq!(remove_game(&new, b"Go"), Ok(old));
}
