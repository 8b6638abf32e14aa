use kvs::record::{decode_at, encode};
use kvs::{read_value, replay_log, Command, KeyDirValue, KvError, Segment};

fn put(key: &str, value: &str) -> Vec<u8> {
    encode(&Command::Put(key.to_string(), value.to_string())).unwrap()
}

fn rm(key: &str) -> Vec<u8> {
    encode(&Command::Remove(key.to_string())).unwrap()
}

fn at(file_id: usize, start_index: u64, value_size: usize) -> KeyDirValue {
    KeyDirValue { file_id, value_size, start_index }
}

#[test]
fn a_put_record_is_the_json_text_of_the_command() {
    assert_eq!(put("key", "value"), b"{\"Set\":[\"key\",\"value\"]}");
    assert_eq!(put("a", "1").len(), 17);
    assert_eq!(put("", ""), b"{\"Set\":[\"\",\"\"]}");
}

#[test]
fn a_remove_record_is_the_json_text_of_the_command() {
    assert_eq!(rm("key"), b"{\"Remove\":\"key\"}");
    assert_eq!(rm("a").len(), 14);
}

#[test]
fn the_text_escapes_what_json_escapes() {
    assert_eq!(put("a\"b", "c\nd"), b"{\"Set\":[\"a\\\"b\",\"c\\nd\"]}");
    assert_eq!(rm("back\\slash"), b"{\"Remove\":\"back\\\\slash\"}");
    assert_eq!(put("\u{e9}", "\u{fc}").len(), 19);
}

#[test]
fn a_record_decodes_to_its_command_and_length() {
    let record = put("k", "v");
    match decode_at(&record, 0) {
        Ok((Command::Put(key, value), len)) => {
            assert_eq!(key, "k");
            assert_eq!(value, "v");
            assert_eq!(len, record.len());
        }
        other => panic!("expected a put, got {:?}", other),
    }
    let record = rm("k");
    match decode_at(&record, 0) {
        Ok((Command::Remove(key), len)) => {
            assert_eq!(key, "k");
            assert_eq!(len, record.len());
        }
        other => panic!("expected a remove, got {:?}", other),
    }
}

#[test]
fn strings_with_quotes_and_backslashes_decode() {
    for (key, value) in [
        ("\"", "\\"),
        ("\\\"", "\"\\"),
        ("ends with \\", "\\\\"),
        ("]}", "{\"Set\":[\"a\",\"1\"]}"),
        ("\",\"", "\"}"),
        ("tab\t", "\u{0}\u{1f}\u{7f}"),
        ("\u{1F600}", "\u{10FFFF}"),
    ] {
        let record = put(key, value);
        match decode_at(&record, 0) {
            Ok((Command::Put(k, v), len)) => {
                assert_eq!(k, key);
                assert_eq!(v, value);
                assert_eq!(len, record.len());
            }
            other => panic!("expected a put, got {:?}", other),
        }
        let record = rm(key);
        match decode_at(&record, 0) {
            Ok((Command::Remove(k), len)) => {
                assert_eq!(k, key);
                assert_eq!(len, record.len());
            }
            other => panic!("expected a remove, got {:?}", other),
        }
    }
}

#[test]
fn records_decode_one_behind_the_other() {
    let data = b"{\"Set\":[\"a\",\"1\"]}{\"Set\":[\"b\",\"22\"]}{\"Remove\":\"a\"}";
    assert_eq!(data.len(), 49);
    let (command, len) = decode_at(data, 0).unwrap();
    assert!(matches!(command, Command::Put(_, _)));
    assert_eq!(len, 17);
    let (command, len) = decode_at(data, 17).unwrap();
    assert!(matches!(command, Command::Put(_, _)));
    assert_eq!(len, 18);
    let (command, len) = decode_at(data, 35).unwrap();
    assert!(matches!(command, Command::Remove(_)));
    assert_eq!(len, 14);
    assert!(matches!(decode_at(data, 49), Err(KvError::SerdeError(_))));
    assert!(matches!(decode_at(data, 50), Err(KvError::SerdeError(_))));
    assert!(matches!(decode_at(data, 1), Err(KvError::SerdeError(_))));
}

#[test]
fn bytes_that_are_not_a_record_are_a_json_error() {
    for text in [
        &b""[..],
        b"{",
        b"{\"Set\":[",
        b"{\"Set\":[\"a\"",
        b"{\"Set\":[\"a\",",
        b"{\"Set\":[\"a\",\"1\"",
        b"{\"Set\":[\"a\",\"1\"]",
        b"{\"Set\":[\"a\",\"1\\\"]}",
        b"{\"Set\":[\"a\" \"1\"]}",
        b"{\"Set\":[\"a\",\"1\",\"2\"]}",
        b"{\"Set\":[1,\"1\"]}",
        b"{\"Set\":\"a\"}",
        b"{\"Remove\":",
        b"{\"Remove\":\"a\"",
        b"{\"Remove\":\"a\\\"}",
        b"{\"Remove\":[\"a\"]}",
        b"{\"Remove\":\"a\\x\"}",
        b"{\"Remove\":\"\xff\"}",
        b"{\"Other\":\"a\"}",
        b"[\"a\",\"1\"]",
    ] {
        assert!(matches!(decode_at(text, 0), Err(KvError::SerdeError(_))), "{:?}", text);
    }
}

#[test]
fn read_value_returns_the_value_of_a_put_record() {
    assert_eq!(read_value(&put("k", "the value")).unwrap(), "the value");
    assert_eq!(read_value(b"{\"Set\":[\"a\",\"1\"]}").unwrap(), "1");
}

#[test]
fn read_value_refuses_a_remove_record() {
    assert!(matches!(read_value(&rm("k")), Err(KvError::Corrupt)));
}

#[test]
fn read_value_refuses_bytes_behind_the_record() {
    let mut record = put("k", "v");
    record.push(b'{');
    assert!(matches!(read_value(&record), Err(KvError::SerdeError(_))));
}

#[test]
fn read_value_passes_a_json_error_on() {
    assert!(matches!(read_value(&[]), Err(KvError::SerdeError(_))));
    assert!(matches!(read_value(b"{\"Set\":[\"a\",\"1\"]"), Err(KvError::SerdeError(_))));
}

#[test]
fn replay_of_sets_and_a_remove_in_one_segment() {
    let data = b"{\"Set\":[\"a\",\"1\"]}{\"Set\":[\"b\",\"22\"]}{\"Remove\":\"a\"}".to_vec();
    let replayed = replay_log(&vec![Segment { file_id: 0, data }]).unwrap();
    assert_eq!(replayed.key_dir.len(), 1);
    assert_eq!(replayed.key_dir.get(&"b".to_string()), Some(at(0, 17, 18)));
    assert_eq!(replayed.key_dir.get(&"a".to_string()), None);
    // 17 for the record that was removed, 14 for the record of the removal
    assert_eq!(replayed.uncompacted, 31);
    assert_eq!(replayed.file_id, 1);
    assert_eq!(replayed.readers, vec![0]);
}

#[test]
fn replay_follows_the_identifiers_as_numbers() {
    let older = Segment { file_id: 2, data: b"{\"Set\":[\"a\",\"old\"]}".to_vec() };
    let newer = Segment { file_id: 10, data: b"{\"Set\":[\"a\",\"new\"]}".to_vec() };
    let replayed = replay_log(&vec![newer, older]).unwrap();
    assert_eq!(replayed.key_dir.get(&"a".to_string()), Some(at(10, 0, 19)));
    assert_eq!(replayed.uncompacted, 19);
    assert_eq!(replayed.file_id, 11);
    assert_eq!(replayed.readers, vec![2, 10]);
}

#[test]
fn replay_starts_each_segment_at_offset_zero() {
    let first = Segment { file_id: 0, data: b"{\"Set\":[\"a\",\"1\"]}".to_vec() };
    let second = Segment { file_id: 1, data: b"{\"Set\":[\"b\",\"2\"]}".to_vec() };
    let replayed = replay_log(&vec![first, second]).unwrap();
    assert_eq!(replayed.key_dir.get(&"a".to_string()), Some(at(0, 0, 17)));
    assert_eq!(replayed.key_dir.get(&"b".to_string()), Some(at(1, 0, 17)));
    assert_eq!(replayed.key_dir.len(), 2);
    assert_eq!(replayed.uncompacted, 0);
    assert_eq!(replayed.file_id, 2);
    assert_eq!(replayed.readers, vec![0, 1]);
}

#[test]
fn replay_of_a_remove_that_finds_nothing_counts_nothing() {
    let data = b"{\"Remove\":\"a\"}{\"Set\":[\"a\",\"1\"]}".to_vec();
    let replayed = replay_log(&vec![Segment { file_id: 0, data }]).unwrap();
    assert_eq!(replayed.key_dir.get(&"a".to_string()), Some(at(0, 14, 17)));
    assert_eq!(replayed.uncompacted, 0);
    assert_eq!(replayed.file_id, 1);
}

#[test]
fn replay_reports_a_record_that_is_cut_short() {
    let data = b"{\"Set\":[\"a\",\"1\"]}{\"Set\":[\"b\"".to_vec();
    let res = replay_log(&vec![Segment { file_id: 0, data }]);
    assert!(matches!(res, Err(KvError::SerdeError(_))));
}

#[test]
fn replay_counts_dead_bytes_as_the_store_does() {
    let mut data = put("a", "1");
    let first = data.len();
    data.extend_from_slice(&put("b", "2"));
    data.extend_from_slice(&put("a", "3"));
    let removal = rm("b");
    data.extend_from_slice(&removal);
    // a removal of a key that is not live counts nothing
    data.extend_from_slice(&rm("never"));
    let replayed = replay_log(&vec![Segment { file_id: 0, data }]).unwrap();
    assert_eq!(replayed.uncompacted, first + first + removal.len());
    assert_eq!(replayed.key_dir.len(), 1);
    assert_eq!(replayed.key_dir.get(&"a".to_string()), Some(at(0, 2 * first as u64, first)));
    assert_eq!(replayed.key_dir.get(&"b".to_string()), None);
}

#[test]
fn replay_of_nothing_starts_at_segment_zero() {
    let replayed = replay_log(&Vec::new()).unwrap();
    assert_eq!(replayed.file_id, 0);
    assert_eq!(replayed.readers, vec![0]);
    assert_eq!(replayed.uncompacted, 0);
    assert_eq!(replayed.key_dir.len(), 0);
}

#[test]
fn replay_of_an_empty_segment_keeps_it_as_a_reader() {
    let replayed = replay_log(&vec![Segment { file_id: 0, data: Vec::new() }]).unwrap();
    assert_eq!(replayed.file_id, 1);
    assert_eq!(replayed.readers, vec![0]);
    assert_eq!(replayed.key_dir.len(), 0);
}

#[test]
fn replay_reports_the_first_fault_in_order_of_identifier() {
    let res = replay_log(&vec![
        Segment { file_id: 9, data: b"{\"Set\":[\"a\",\"1\"]}".to_vec() },
        Segment { file_id: 4, data: b"x".to_vec() },
    ]);
    assert!(matches!(res, Err(KvError::SerdeError(_))));
    let twice = vec![
        Segment { file_id: 4, data: b"x".to_vec() },
        Segment { file_id: 4, data: Vec::new() },
    ];
    assert!(matches!(replay_log(&twice), Err(KvError::Corrupt)));
}
