use kvs::{log_path, segment_id, KeyDir, KeyDirValue};

#[test]
fn log_path_is_the_identifier_and_the_suffix() {
    assert_eq!(log_path(0), "0.log");
    assert_eq!(log_path(7), "7.log");
    assert_eq!(log_path(10), "10.log");
    assert_eq!(log_path(1234567890), "1234567890.log");
    assert_eq!(log_path(usize::MAX), format!("{}.log", usize::MAX));
}

#[test]
fn segment_id_reads_what_log_path_writes() {
    for id in [0, 1, 9, 10, 99, 100, 4096, usize::MAX - 1, usize::MAX] {
        assert_eq!(segment_id(&log_path(id)), Some(id));
    }
    assert_eq!(segment_id("42.log"), Some(42));
}

#[test]
fn segment_id_refuses_other_names() {
    for name in [
        "", ".log", "log", "1", "1.lo", "1.logs", "1.log.bak", "a.log", "-1.log", "+1.log",
        "1 .log", " 1.log", "01.log", "00.log", "1.LOG", "1_000.log", "\u{661}.log",
    ] {
        assert_eq!(segment_id(name), None, "{:?}", name);
    }
}

#[test]
fn segment_id_refuses_a_number_that_does_not_fit() {
    assert_eq!(segment_id("340282366920938463463374607431768211456.log"), None);
    let above = format!("{}.log", usize::MAX as u128 + 1);
    assert_eq!(segment_id(&above), None);
}

fn at(file_id: usize, start_index: u64, value_size: usize) -> KeyDirValue {
    KeyDirValue { file_id, value_size, start_index }
}

#[test]
fn key_dir_insert_returns_the_entry_before() {
    let mut dir = KeyDir::new();
    assert_eq!(dir.insert("a".to_string(), at(0, 0, 5)), None);
    assert_eq!(dir.insert("b".to_string(), at(0, 5, 6)), None);
    assert_eq!(dir.insert("a".to_string(), at(1, 0, 7)), Some(at(0, 0, 5)));
    assert_eq!(dir.len(), 2);
    assert_eq!(dir.get(&"a".to_string()), Some(at(1, 0, 7)));
    assert_eq!(dir.get(&"b".to_string()), Some(at(0, 5, 6)));
    assert_eq!(dir.get(&"c".to_string()), None);
    // an entry that is set again keeps its place
    assert_eq!(dir.find(&"a".to_string()), Some(0));
    assert_eq!(dir.value_at(0), at(1, 0, 7));
}

#[test]
fn key_dir_keeps_the_keys_in_ascending_order() {
    let mut dir = KeyDir::new();
    for (i, key) in ["m", "b", "z", "", "ma", "B", "\u{e9}", "a\u{0}", "a"].iter().enumerate() {
        assert_eq!(dir.insert(key.to_string(), at(0, i as u64, 1)), None);
    }
    let mut sorted = vec!["m", "b", "z", "", "ma", "B", "\u{e9}", "a\u{0}", "a"];
    sorted.sort();
    assert_eq!(sorted, vec!["", "B", "a", "a\u{0}", "b", "m", "ma", "z", "\u{e9}"]);
    for (place, key) in sorted.iter().enumerate() {
        assert_eq!(dir.find(&key.to_string()), Some(place));
    }
    assert_eq!(dir.value_at(0), at(0, 3, 1));
    assert_eq!(dir.value_at(8), at(0, 6, 1));
}

#[test]
fn key_lt_is_the_order_of_strings() {
    let keys = ["", "a", "A", "ab", "b", "\u{e9}", "\u{1F600}", "a\u{0}", "\u{7f}", "\u{80}", "zz"];
    for x in keys {
        for y in keys {
            assert_eq!(kvs::order::key_lt(&x.to_string(), &y.to_string()), x < y, "{:?} {:?}", x, y);
        }
    }
}

#[test]
fn key_dir_remove_takes_the_key_out() {
    let mut dir = KeyDir::new();
    dir.insert("a".to_string(), at(0, 0, 5));
    dir.insert("b".to_string(), at(0, 5, 6));
    dir.insert("c".to_string(), at(0, 11, 7));
    assert_eq!(dir.remove(&"b".to_string()), Some(at(0, 5, 6)));
    assert_eq!(dir.remove(&"b".to_string()), None);
    assert_eq!(dir.len(), 2);
    assert_eq!(dir.find(&"a".to_string()), Some(0));
    assert_eq!(dir.find(&"c".to_string()), Some(1));
    assert_eq!(dir.get(&"b".to_string()), None);
}

#[test]
fn key_dir_live_size_fits_adds_the_lengths() {
    let mut dir = KeyDir::new();
    dir.insert("a".to_string(), at(0, 0, usize::MAX));
    assert!(dir.live_size_fits(Some(0), at(0, 0, 1)));
    assert!(dir.live_size_fits(None, at(0, 0, 0)));
    if usize::MAX as u128 == u64::MAX as u128 {
        assert!(!dir.live_size_fits(None, at(0, 0, 1)));
        assert!(dir.live_size_fits(Some(0), at(0, 0, usize::MAX)));
    }
    dir.set_value_at(0, at(3, 4, 5));
    assert_eq!(dir.get(&"a".to_string()), Some(at(3, 4, 5)));
}
