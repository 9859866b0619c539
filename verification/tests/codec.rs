use nonsteam::codec::{decode, encode};
use nonsteam::error::ShortcutError;
use nonsteam::shortcut::{FieldId, Shortcut, Slot};
use nonsteam::wire::{Entry, Kind};

fn text(key: &str, value: &str) -> Vec<u8> {
    let mut out = vec![1u8];
    out.extend_from_slice(key.as_bytes());
    out.push(0);
    out.extend_from_slice(value.as_bytes());
    out.push(0);
    out
}

fn number(key: &str, value: u32) -> Vec<u8> {
    let mut out = vec![2u8];
    out.extend_from_slice(key.as_bytes());
    out.push(0);
    out.extend_from_slice(&value.to_le_bytes());
    out
}

fn container(key: &str, parts: &[Vec<u8>]) -> Vec<u8> {
    let mut out = vec![0u8];
    out.extend_from_slice(key.as_bytes());
    out.push(0);
    for part in parts {
        out.extend_from_slice(part);
    }
    out.push(8);
    out
}

fn file(records: &[Vec<u8>]) -> Vec<u8> {
    let mut out = container("shortcuts", records);
    out.push(8);
    out
}

fn chess_and_go() -> Vec<u8> {
    file(&[
        container("0", &[text("appname", "Chess"), text("exe", "\"chess.exe\"")]),
        container("1", &[text("appname", "Go"), text("exe", "\"go.exe\"")]),
    ])
}

fn malformed(offset: usize) -> Result<Vec<Shortcut>, ShortcutError> {
    Err(ShortcutError::MalformedInput { offset })
}

#[test]
fn decode_reads_records_in_stream_order() {
    let shortcuts = decode(&chess_and_go()).unwrap();
    assert_eq!(shortcuts.len(), 2);
    assert_eq!(shortcuts[0].order, b"0");
    assert_eq!(shortcuts[0].app_name, b"Chess");
    assert_eq!(shortcuts[0].executable, b"\"chess.exe\"");
    assert_eq!(shortcuts[1].order, b"1");
    assert_eq!(shortcuts[1].app_name, b"Go");
    assert_eq!(shortcuts[1].executable, b"\"go.exe\"");
    assert_eq!(
        shortcuts[0].layout,
        vec![Slot::Known(FieldId::AppName), Slot::Known(FieldId::Executable)]
    );
}

#[test]
fn decode_leaves_missing_fields_at_their_defaults() {
    let shortcuts = decode(&chess_and_go()).unwrap();
    assert_eq!(shortcuts[0].app_id, 0);
    assert_eq!(shortcuts[0].start_dir, b"");
    assert_eq!(shortcuts[0].icon, b"");
    assert_eq!(shortcuts[0].shortcut_path, b"");
    assert_eq!(shortcuts[0].launch_options, b"");
}

#[test]
fn decode_reads_every_known_field() {
    let bytes = file(&[container(
        "0",
        &[
            number("appid", 0x8cf8_0f8d),
            text("appname", "Celeste"),
            text("exe", "\"celeste.exe\""),
            text("StartDir", "\"C:\\Games\\\""),
            text("icon", "celeste.png"),
            text("ShortcutPath", "celeste.lnk"),
            text("LaunchOptions", "--windowed"),
        ],
    )]);
    let shortcuts = decode(&bytes).unwrap();
    assert_eq!(shortcuts.len(), 1);
    let s = &shortcuts[0];
    assert_eq!(s.app_id, 0x8cf8_0f8d);
    assert_eq!(s.app_name, b"Celeste");
    assert_eq!(s.executable, b"\"celeste.exe\"");
    assert_eq!(s.start_dir, b"\"C:\\Games\\\"");
    assert_eq!(s.icon, b"celeste.png");
    assert_eq!(s.shortcut_path, b"celeste.lnk");
    assert_eq!(s.launch_options, b"--windowed");
    assert_eq!(s.layout.len(), 7);
}

#[test]
fn decode_reads_integers_little_endian() {
    let mut record = vec![0u8, b'0', 0, 2];
    record.extend_from_slice(b"appid\0");
    record.extend_from_slice(&[0x01, 0x02, 0x03, 0x04]);
    record.push(8);
    let shortcuts = decode(&file(&[record])).unwrap();
    assert_eq!(shortcuts[0].app_id, 0x0403_0201);
}

#[test]
fn decode_keeps_stream_order_whatever_the_orders_say() {
    let bytes = file(&[
        container("7", &[text("appname", "Last")]),
        container("x", &[text("appname", "First")]),
    ]);
    let shortcuts = decode(&bytes).unwrap();
    assert_eq!(shortcuts[0].order, b"7");
    assert_eq!(shortcuts[0].app_name, b"Last");
    assert_eq!(shortcuts[1].order, b"x");
    assert_eq!(shortcuts[1].app_name, b"First");
}

#[test]
fn decode_matches_keys_by_exact_case() {
    let bytes = file(&[container("0", &[text("AppName", "Chess"), text("appname", "Go")])]);
    let shortcuts = decode(&bytes).unwrap();
    assert_eq!(shortcuts[0].app_name, b"Go");
    assert_eq!(
        shortcuts[0].layout,
        vec![
            Slot::Opaque(Entry {
                key: b"AppName".to_vec(),
                kind: Kind::Text,
                raw: b"Chess".to_vec()
            }),
            Slot::Known(FieldId::AppName),
        ]
    );
}

#[test]
fn decode_takes_the_first_of_two_entries_with_one_key() {
    let bytes = file(&[container("0", &[text("appname", "First"), text("appname", "Second")])]);
    let shortcuts = decode(&bytes).unwrap();
    assert_eq!(shortcuts[0].app_name, b"First");
    assert_eq!(
        shortcuts[0].layout[1],
        Slot::Opaque(Entry { key: b"appname".to_vec(), kind: Kind::Text, raw: b"Second".to_vec() })
    );
    assert_eq!(encode(&shortcuts), bytes);
}

#[test]
fn decode_keeps_a_known_key_of_another_kind_as_read() {
    let bytes = file(&[container("0", &[number("appname", 5), text("appid", "five")])]);
    let shortcuts = decode(&bytes).unwrap();
    assert_eq!(shortcuts[0].app_name, b"");
    assert_eq!(shortcuts[0].app_id, 0);
    assert_eq!(shortcuts[0].layout.len(), 2);
    assert_eq!(encode(&shortcuts), bytes);
}

#[test]
fn decode_accepts_a_file_without_records() {
    assert_eq!(decode(&file(&[])), Ok(vec![]));
    assert_eq!(decode(&[0, 0, 8, 8]), Ok(vec![]));
}

#[test]
fn encode_of_no_shortcuts_is_the_empty_container() {
    assert_eq!(encode(&vec![]), b"\0shortcuts\0\x08\x08".to_vec());
}

#[test]
fn encode_writes_the_bytes_of_the_scenario() {
    let shortcuts = decode(&chess_and_go()).unwrap();
    let expected: &[u8] =
        b"\0shortcuts\0\x000\0\x01appname\0Chess\0\x01exe\0\"chess.exe\"\0\x08\x001\0\x01appname\0Go\0\x01exe\0\"go.exe\"\0\x08\x08\x08";
    assert_eq!(encode(&shortcuts), expected.to_vec());
}

#[test]
fn encode_keys_each_record_by_its_order() {
    let mut shortcuts = decode(&chess_and_go()).unwrap();
    shortcuts[0].order = b"41".to_vec();
    let again = decode(&encode(&shortcuts)).unwrap();
    assert_eq!(again[0].order, b"41");
    assert_eq!(again[1].order, b"1");
}

#[test]
fn encode_writes_a_changed_field_under_its_key() {
    let mut shortcuts = decode(&chess_and_go()).unwrap();
    shortcuts[1].app_name = b"Weiqi".to_vec();
    let bytes = encode(&shortcuts);
    assert_eq!(
        bytes,
        file(&[
            container("0", &[text("appname", "Chess"), text("exe", "\"chess.exe\"")]),
            container("1", &[text("appname", "Weiqi"), text("exe", "\"go.exe\"")]),
        ])
    );
}

#[test]
fn round_trip_from_bytes_is_byte_identical() {
    let bytes = file(&[
        container(
            "0",
            &[
                number("appid", 77),
                text("appname", "Chess"),
                text("Exe", "upper case key"),
                number("IsHidden", 1),
                container("tags", &[text("0", "board"), text("1", "classic")]),
            ],
        ),
        container("1", &[]),
    ]);
    let shortcuts = decode(&bytes).unwrap();
    assert_eq!(encode(&shortcuts), bytes);
}

#[test]
fn round_trip_from_values_gives_the_values_back() {
    let shortcuts = vec![
        Shortcut::new(b"0".to_vec(), 11, b"Chess".to_vec(), b"\"chess.exe\"".to_vec()),
        Shortcut::new(b"1".to_vec(), 12, b"Go".to_vec(), b"\"go.exe\"".to_vec()),
    ];
    assert_eq!(decode(&encode(&shortcuts)), Ok(shortcuts));
}

#[test]
fn round_trip_of_decoded_records_is_a_fixed_point() {
    let first = decode(&chess_and_go()).unwrap();
    let second = decode(&encode(&first)).unwrap();
    assert_eq!(first, second);
}

#[test]
fn unknown_entries_keep_their_bytes_and_their_place() {
    let bytes = file(&[container(
        "0",
        &[
            text("FlatpakAppID", "org.example.Chess"),
            text("appname", "Chess"),
            number("LastPlayTime", 1_600_000_000),
            text("exe", "\"chess.exe\""),
            container("tags", &[text("0", "favorite")]),
        ],
    )]);
    let shortcuts = decode(&bytes).unwrap();
    let s = &shortcuts[0];
    assert_eq!(
        s.layout,
        vec![
            Slot::Opaque(Entry {
                key: b"FlatpakAppID".to_vec(),
                kind: Kind::Text,
                raw: b"org.example.Chess".to_vec()
            }),
            Slot::Known(FieldId::AppName),
            Slot::Opaque(Entry {
                key: b"LastPlayTime".to_vec(),
                kind: Kind::Int,
                raw: 1_600_000_000u32.to_le_bytes().to_vec()
            }),
            Slot::Known(FieldId::Executable),
            Slot::Opaque(Entry {
                key: b"tags".to_vec(),
                kind: Kind::Container,
                raw: b"\x010\0favorite\0\x08".to_vec()
            }),
        ]
    );
    assert_eq!(encode(&shortcuts), bytes);
}

#[test]
fn nested_containers_are_kept_whole() {
    let inner = container("inner", &[number("depth", 2), container("innermost", &[])]);
    let bytes = file(&[container("0", &[container("outer", &[inner.clone()]), text("exe", "x")])]);
    let shortcuts = decode(&bytes).unwrap();
    let mut raw = inner;
    raw.push(8);
    assert_eq!(
        shortcuts[0].layout[0],
        Slot::Opaque(Entry { key: b"outer".to_vec(), kind: Kind::Container, raw })
    );
    assert_eq!(shortcuts[0].executable, b"x");
    assert_eq!(encode(&shortcuts), bytes);
}

#[test]
fn truncated_file_fails_at_its_end() {
    let mut bytes = chess_and_go();
    bytes.pop();
    assert_eq!(decode(&bytes), malformed(bytes.len()));
}

#[test]
fn every_proper_prefix_fails() {
    let bytes = chess_and_go();
    for n in 0..bytes.len() {
        match decode(&bytes[..n]) {
            Err(ShortcutError::MalformedInput { offset }) => assert!(offset <= n),
            other => panic!("prefix of {} bytes gave {:?}", n, other),
        }
    }
}

#[test]
fn empty_input_fails_at_zero() {
    assert_eq!(decode(&[]), malformed(0));
}

#[test]
fn top_level_that_is_no_container_fails_at_zero() {
    let mut bytes = text("shortcuts", "none");
    bytes.push(8);
    assert_eq!(decode(&bytes), malformed(0));
    assert_eq!(decode(&[8]), malformed(0));
}

#[test]
fn unterminated_top_level_name_fails_where_it_starts() {
    assert_eq!(decode(b"\0shortcuts"), malformed(1));
}

#[test]
fn unknown_marker_fails_at_the_marker() {
    let mut bytes = b"\0shortcuts\0\x000\0".to_vec();
    let at = bytes.len();
    bytes.extend_from_slice(b"\x07appname\0Chess\0\x08\x08\x08");
    assert_eq!(decode(&bytes), malformed(at));
}

#[test]
fn unknown_marker_inside_a_nested_container_fails_at_the_marker() {
    let mut bytes = b"\0shortcuts\0\x000\0\0tags\0".to_vec();
    let at = bytes.len();
    bytes.extend_from_slice(b"\x03bad\0\x08\x08\x08\x08");
    assert_eq!(decode(&bytes), malformed(at));
}

#[test]
fn unterminated_key_fails_where_the_key_starts() {
    let mut bytes = b"\0shortcuts\0\x000\0\x01".to_vec();
    let at = bytes.len();
    bytes.extend_from_slice(b"appname");
    assert_eq!(decode(&bytes), malformed(at));
}

#[test]
fn unterminated_text_fails_where_the_text_starts() {
    let mut bytes = b"\0shortcuts\0\x000\0\x01appname\0".to_vec();
    let at = bytes.len();
    bytes.extend_from_slice(b"Chess");
    assert_eq!(decode(&bytes), malformed(at));
}

#[test]
fn short_integer_fails_where_the_integer_starts() {
    let mut bytes = b"\0shortcuts\0\x000\0\x02appid\0".to_vec();
    let at = bytes.len();
    bytes.extend_from_slice(&[1, 2, 3]);
    assert_eq!(decode(&bytes), malformed(at));
}

#[test]
fn unterminated_record_fails_at_the_end() {
    let bytes = b"\0shortcuts\0\x000\0\x01appname\0Chess\0".to_vec();
    assert_eq!(decode(&bytes), malformed(bytes.len()));
}

#[test]
fn unterminated_order_fails_where_the_order_starts() {
    let mut bytes = b"\0shortcuts\0\0".to_vec();
    let at = bytes.len();
    bytes.extend_from_slice(b"12");
    assert_eq!(decode(&bytes), malformed(at));
}

#[test]
fn entry_among_the_records_that_is_no_container_fails_at_its_marker() {
    let mut bytes = b"\0shortcuts\0".to_vec();
    let at = bytes.len();
    bytes.extend_from_slice(&text("appname", "Chess"));
    bytes.extend_from_slice(&[8, 8]);
    assert_eq!(decode(&bytes), malformed(at));
}

#[test]
fn second_top_level_entry_fails_where_it_starts() {
    let mut bytes = container("shortcuts", &[]);
    let at = bytes.len();
    bytes.extend_from_slice(&container("more", &[]));
    bytes.push(8);
    assert_eq!(decode(&bytes), malformed(at));
}

#[test]
fn bytes_after_the_closing_sentinel_fail_where_they_start() {
    let mut bytes = chess_and_go();
    let at = bytes.len();
    bytes.push(8);
    assert_eq!(decode(&bytes), malformed(at));
}

#[test]
fn decode_accepts_any_name_of_the_top_level_container() {
    let mut bytes = container("Shortcuts", &[container("0", &[text("appname", "Chess")])]);
    bytes.push(8);
    let shortcuts = decode(&bytes).unwrap();
    assert_eq!(shortcuts[0].app_name, b"Chess");
    assert_eq!(encode(&shortcuts), file(&[container("0", &[text("appname", "Chess")])]));
}
