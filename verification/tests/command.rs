use kvs::command::{
    bytes_at, frame_put, frame_remove, is_quoted_string, next_command, quoted_string_end,
    read_command, record_layout, Command, RecordLayout,
};
use kvs::error::KvsError;
use kvs::index::{CommandOffset, Index};
use kvs::replay::load_index;

fn put(key: &str, value: &str) -> Command {
    Command::Put { key: key.to_string(), value: value.to_string() }
}

fn remove(key: &str) -> Command {
    Command::Remove { key: key.to_string() }
}

fn encode(command: Command) -> Vec<u8> {
    command.encode().unwrap().bytes().clone()
}

fn same(a: &Command, b: &Command) -> bool {
    match (a, b) {
        (Command::Put { key: k1, value: v1 }, Command::Put { key: k2, value: v2 }) => {
            k1 == k2 && v1 == v2
        }
        (Command::Remove { key: k1 }, Command::Remove { key: k2 }) => k1 == k2,
        _ => false,
    }
}

#[test]
fn a_set_record_is_a_tagged_json_object() {
    assert_eq!(encode(put("a", "1")), b"{\"Set\":{\"key\":\"a\",\"value\":\"1\"}}".to_vec());
    assert_eq!(encode(put("", "")), b"{\"Set\":{\"key\":\"\",\"value\":\"\"}}".to_vec());
}

#[test]
fn a_remove_record_is_a_tagged_json_object() {
    assert_eq!(encode(remove("a")), b"{\"Remove\":{\"key\":\"a\"}}".to_vec());
}

#[test]
fn strings_are_written_as_json_strings() {
    assert_eq!(
        encode(put("a\"b", "c\\d\ne")),
        b"{\"Set\":{\"key\":\"a\\\"b\",\"value\":\"c\\\\d\\ne\"}}".to_vec()
    );
    assert_eq!(
        encode(remove("\u{1}\u{e9}")),
        "{\"Remove\":{\"key\":\"\\u0001\u{e9}\"}}".as_bytes().to_vec()
    );
}

#[test]
fn a_record_keeps_its_command() {
    let record = put("k", "v").encode().unwrap();
    assert!(same(record.command(), &put("k", "v")));
    assert_eq!(record.len(), 31);
    assert_eq!(record.bytes().len(), 31);
    let (command, bytes) = record.into_parts();
    assert!(same(&command, &put("k", "v")));
    assert_eq!(bytes, b"{\"Set\":{\"key\":\"k\",\"value\":\"v\"}}".to_vec());
}

#[test]
fn what_is_encoded_reads_back() {
    let commands = vec![
        put("a", "1"),
        remove("a"),
        put("quote\" backslash\\ newline\n", "}} {\"Set\":{\"key\":"),
        put("\u{2603}", "\u{1F600}\u{0}"),
        remove(""),
    ];
    for command in commands {
        let bytes = encode(command.clone());
        let back = read_command(&bytes).unwrap();
        assert!(same(&back, &command));
        let (next, end) = next_command(&bytes, 0).unwrap();
        assert!(same(&next, &command));
        assert_eq!(end, bytes.len());
    }
}

#[test]
fn next_command_walks_a_segment() {
    let mut segment = encode(put("a", "1"));
    segment.extend(encode(remove("a")));
    segment.extend(encode(put("bb", "22")));

    let (first, end) = next_command(&segment, 0).unwrap();
    assert!(same(&first, &put("a", "1")));
    assert_eq!(end, 31);
    let (second, end) = next_command(&segment, 31).unwrap();
    assert!(same(&second, &remove("a")));
    assert_eq!(end, 31 + 22);
    let (third, end) = next_command(&segment, 53).unwrap();
    assert!(same(&third, &put("bb", "22")));
    assert_eq!(end, segment.len());
    assert!(next_command(&segment, segment.len()).is_none());
    assert!(next_command(&segment, 1).is_none());
    assert!(next_command(&segment, segment.len() + 10).is_none());
}

#[test]
fn escapes_in_a_record_are_read() {
    let bytes = b"{\"Set\":{\"key\":\"a\\u0041\\n\",\"value\":\"\\\"\\\\\\/\"}}";
    let command = read_command(bytes).unwrap();
    assert!(same(&command, &put("aA\n", "\"\\/")));
}

#[test]
fn what_is_not_one_record_is_not_read() {
    let rejected: Vec<&[u8]> = vec![
        b"",
        b"{}",
        b"{\"Set\":{\"key\":\"a\",\"value\":\"1\"}",
        b"{\"Set\":{\"key\":\"a\",\"value\":\"1\"}}x",
        b" {\"Set\":{\"key\":\"a\",\"value\":\"1\"}}",
        b"{\"Set\": {\"key\":\"a\",\"value\":\"1\"}}",
        b"{\"Set\":{\"value\":\"1\",\"key\":\"a\"}}",
        b"{\"Set\":{\"key\":\"a\"}}",
        b"{\"Set\":{\"key\":7,\"value\":\"1\"}}",
        b"{\"Set\":{\"key\":\"a\\q\",\"value\":\"1\"}}",
        b"{\"Set\":{\"key\":\"a\nb\",\"value\":\"1\"}}",
        b"{\"Set\":{\"key\":\"a\",\"value\":\"\xff\"}}",
        b"{\"Remove\":{\"key\":\"a\",\"value\":\"1\"}}",
        b"{\"Remove\":{\"key\":\"a\"}",
        b"{\"Get\":{\"key\":\"a\"}}",
    ];
    for bytes in rejected {
        assert!(matches!(read_command(bytes), Err(KvsError::Serde)));
    }
}

#[test]
fn load_index_replays_a_segment() {
    let mut segment = encode(put("a", "1"));
    segment.extend(encode(put("b", "2")));
    segment.extend(encode(put("a", "33")));
    segment.extend(encode(remove("b")));
    let mut index = Index::new();
    assert_eq!(load_index(4, &segment, &mut index), Ok(31 + 31));
    assert_eq!(index.len(), 1);
    assert_eq!(index.get(&"a".to_string()), Some(CommandOffset { gen: 4, pos: 62, len: 32 }));
    assert_eq!(index.get(&"b".to_string()), None);
}

#[test]
fn load_index_of_an_empty_segment_changes_nothing() {
    let mut index = Index::new();
    index.insert("a".to_string(), CommandOffset { gen: 1, pos: 0, len: 31 });
    assert_eq!(load_index(2, &[], &mut index), Ok(0));
    assert_eq!(index.len(), 1);
    assert_eq!(index.get(&"a".to_string()), Some(CommandOffset { gen: 1, pos: 0, len: 31 }));
}

#[test]
fn load_index_stops_at_what_is_not_a_record() {
    let mut segment = encode(put("a", "1"));
    segment.extend(b"{\"Set\":{\"key\":\"b\",\"val");
    let mut index = Index::new();
    assert_eq!(load_index(1, &segment, &mut index), Err(KvsError::Serde));
    assert_eq!(index.len(), 1);
    assert_eq!(index.get(&"a".to_string()), Some(CommandOffset { gen: 1, pos: 0, len: 31 }));
}

#[test]
fn bytes_at_compares_a_stretch() {
    assert!(bytes_at(b"abcdef", 2, b"cd"));
    assert!(bytes_at(b"abcdef", 0, b"abcdef"));
    assert!(bytes_at(b"abcdef", 6, b""));
    assert!(bytes_at(b"", 0, b""));
    assert!(!bytes_at(b"abcdef", 2, b"ce"));
    assert!(!bytes_at(b"abcdef", 5, b"fg"));
    assert!(!bytes_at(b"abcdef", 7, b""));
    assert!(!bytes_at(b"abcdef", usize::MAX, b"a"));
}

#[test]
fn a_quoted_string_ends_at_its_first_bare_quote() {
    assert_eq!(quoted_string_end(b"\"\"", 0), Some(2));
    assert_eq!(quoted_string_end(b"\"abc\"", 0), Some(5));
    assert_eq!(quoted_string_end(b"xx\"abc\"yy", 2), Some(7));
    assert_eq!(quoted_string_end(b"\"a\\\"b\"", 0), Some(6));
    assert_eq!(quoted_string_end(b"\"a\\\\\"b\"", 0), Some(5));
    assert_eq!(quoted_string_end(b"\"abc", 0), None);
    assert_eq!(quoted_string_end(b"\"abc\\", 0), None);
    assert_eq!(quoted_string_end(b"\"abc\\\"", 0), None);
    assert_eq!(quoted_string_end(b"abc\"", 0), None);
    assert_eq!(quoted_string_end(b"\"", 0), None);
    assert_eq!(quoted_string_end(b"", 0), None);
    assert_eq!(quoted_string_end(b"\"a\"", 3), None);
}

#[test]
fn is_quoted_string_wants_the_whole_text() {
    assert!(is_quoted_string(b"\"\""));
    assert!(is_quoted_string(b"\"a\\\"b\""));
    assert!(!is_quoted_string(b"\"a\"b\""));
    assert!(!is_quoted_string(b"\"a\" "));
    assert!(!is_quoted_string(b" \"a\""));
    assert!(!is_quoted_string(b"\"a"));
    assert!(!is_quoted_string(b"a"));
    assert!(!is_quoted_string(b""));
}

#[test]
fn frames_lie_around_the_quoted_strings() {
    assert_eq!(
        frame_put(b"\"k\"", b"\"v\""),
        b"{\"Set\":{\"key\":\"k\",\"value\":\"v\"}}".to_vec()
    );
    assert_eq!(frame_put(b"", b""), b"{\"Set\":{\"key\":,\"value\":}}".to_vec());
    assert_eq!(frame_remove(b"\"k\""), b"{\"Remove\":{\"key\":\"k\"}}".to_vec());
    assert_eq!(frame_remove(b"xyz"), b"{\"Remove\":{\"key\":xyz}}".to_vec());
}

#[test]
fn the_layout_names_the_parts_of_a_record() {
    let mut segment = b"{\"Set\":{\"key\":\"k\",\"value\":\"va\"}}".to_vec();
    segment.extend_from_slice(b"{\"Remove\":{\"key\":\"k\"}}");
    assert_eq!(
        record_layout(&segment, 0),
        Some(RecordLayout {
            put: true,
            key_start: 14,
            key_end: 17,
            value_start: 26,
            value_end: 30,
            end: 32
        })
    );
    assert_eq!(
        record_layout(&segment, 32),
        Some(RecordLayout {
            put: false,
            key_start: 49,
            key_end: 52,
            value_start: 52,
            value_end: 52,
            end: 54
        })
    );
    assert_eq!(record_layout(&segment, 1), None);
    assert_eq!(record_layout(&segment, 54), None);
    assert_eq!(record_layout(&segment, 99), None);
    assert_eq!(record_layout(&segment[..31], 0), None);
    assert_eq!(record_layout(b"{\"Set\":{\"key\":7,\"value\":\"1\"}}", 0), None);
}

#[test]
fn the_layout_does_not_read_the_strings() {
    let bytes = b"{\"Set\":{\"key\":\"a\\q\",\"value\":\"\xff\"}}";
    assert!(record_layout(bytes, 0).is_some());
    assert!(next_command(bytes, 0).is_none());
}

#[test]
fn load_index_counts_what_an_earlier_segment_left() {
    let mut index = Index::new();
    assert_eq!(load_index(1, &encode(put("a", "1")), &mut index), Ok(0));
    let mut segment = encode(put("a", "22"));
    segment.extend(encode(remove("missing")));
    segment.extend(encode(remove("a")));
    segment.extend(encode(put("a", "333")));
    assert_eq!(load_index(2, &segment, &mut index), Ok(31 + 32));
    assert_eq!(index.len(), 1);
}
