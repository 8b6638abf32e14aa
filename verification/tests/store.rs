use kvs::{read_value, Action, KvError, KvStore, Segment, COMPACT_THRESHOLD};
use std::collections::BTreeMap;

/// A directory in memory: the bytes of each segment, by identifier.
type Dir = BTreeMap<usize, Vec<u8>>;

fn perform_one(dir: &mut Dir, action: Action) {
    match action {
        Action::Create { file_id } => {
            dir.entry(file_id).or_default();
        }
        Action::Append { file_id, bytes } => {
            dir.entry(file_id).or_default().extend_from_slice(&bytes);
        }
        Action::CopyRange { from, start, len, to } => {
            let start = start as usize;
            let piece = dir[&from][start..start + len].to_vec();
            dir.entry(to).or_default().extend_from_slice(&piece);
        }
        Action::Delete { file_id } => {
            assert!(dir.remove(&file_id).is_some());
        }
    }
}

fn perform(dir: &mut Dir, actions: Vec<Action>) {
    for action in actions {
        perform_one(dir, action);
    }
}

fn segments_of(dir: &Dir) -> Vec<Segment> {
    // handed over from the highest identifier down: the store puts them in order
    dir.iter().rev().map(|(id, data)| Segment { file_id: *id, data: data.clone() }).collect()
}

fn open(dir: &mut Dir) -> KvStore {
    let (store, actions) = KvStore::open(segments_of(dir)).unwrap();
    perform(dir, actions);
    store
}

fn set(store: &mut KvStore, dir: &mut Dir, key: &str, value: &str) {
    let actions = store.set(key.to_string(), value.to_string()).unwrap();
    perform(dir, actions);
}

fn remove(store: &mut KvStore, dir: &mut Dir, key: &str) {
    let actions = store.remove(key.to_string()).unwrap();
    perform(dir, actions);
}

fn get(store: &KvStore, dir: &Dir, key: &str) -> Option<String> {
    match store.get(key.to_string()) {
        None => None,
        Some(at) => {
            let start = at.start_index as usize;
            let bytes = &dir[&at.file_id][start..start + at.value_size];
            Some(read_value(bytes).unwrap())
        }
    }
}

#[test]
fn set_then_get_returns_the_value() {
    let mut dir = Dir::new();
    let mut store = open(&mut dir);
    set(&mut store, &mut dir, "a", "1");
    assert_eq!(get(&store, &dir, "a"), Some("1".to_string()));
}

#[test]
fn second_set_wins() {
    let mut dir = Dir::new();
    let mut store = open(&mut dir);
    set(&mut store, &mut dir, "a", "1");
    set(&mut store, &mut dir, "a", "2");
    assert_eq!(get(&store, &dir, "a"), Some("2".to_string()));
}

#[test]
fn get_after_remove_is_absent() {
    let mut dir = Dir::new();
    let mut store = open(&mut dir);
    set(&mut store, &mut dir, "a", "1");
    remove(&mut store, &mut dir, "a");
    assert_eq!(get(&store, &dir, "a"), None);
}

#[test]
fn get_of_a_key_never_set_is_absent() {
    let mut dir = Dir::new();
    let mut store = open(&mut dir);
    assert_eq!(get(&store, &dir, "a"), None);
    set(&mut store, &mut dir, "b", "1");
    assert_eq!(get(&store, &dir, "a"), None);
    assert!(store.get("a".to_string()).is_none());
}

#[test]
fn remove_of_a_missing_key_fails_and_changes_nothing() {
    let mut dir = Dir::new();
    let mut store = open(&mut dir);
    set(&mut store, &mut dir, "a", "1");
    let before = dir.clone();
    let (file_id, dead, live) = (store.file_id(), store.uncompacted(), store.len());
    match store.remove("missing".to_string()) {
        Err(KvError::KeyNotFound(key)) => assert_eq!(key, "missing"),
        other => panic!("expected KeyNotFound, got {:?}", other),
    }
    assert_eq!(dir, before);
    assert_eq!(store.file_id(), file_id);
    assert_eq!(store.uncompacted(), dead);
    assert_eq!(store.len(), live);
    assert_eq!(get(&store, &dir, "a"), Some("1".to_string()));
}

#[test]
fn open_of_an_empty_directory_writes_to_segment_zero() {
    let (store, actions) = KvStore::open(Vec::new()).unwrap();
    assert_eq!(store.file_id(), 0);
    assert_eq!(store.uncompacted(), 0);
    assert_eq!(store.len(), 0);
    assert_eq!(store.readers(), &vec![0]);
    assert_eq!(actions.len(), 1);
    assert!(matches!(actions[0], Action::Create { file_id: 0 }));
}

#[test]
fn open_writes_one_above_the_highest_segment() {
    let mut dir = Dir::new();
    dir.insert(3, Vec::new());
    dir.insert(7, Vec::new());
    let store = open(&mut dir);
    assert_eq!(store.file_id(), 8);
    assert_eq!(store.readers(), &vec![3, 7, 8]);
    assert!(dir.contains_key(&8));
}

#[test]
fn set_appends_one_record_to_the_active_segment() {
    let mut dir = Dir::new();
    let mut store = open(&mut dir);
    let actions = store.set("a".to_string(), "1".to_string()).unwrap();
    assert_eq!(actions.len(), 1);
    match &actions[0] {
        Action::Append { file_id, bytes } => {
            assert_eq!(*file_id, 0);
            assert_eq!(bytes, b"{\"Set\":[\"a\",\"1\"]}");
        }
        other => panic!("expected an append, got {:?}", other),
    }
    let at = store.get("a".to_string()).unwrap();
    assert_eq!((at.file_id, at.start_index, at.value_size), (0, 0, 17));
    let actions = store.set("b".to_string(), "22".to_string()).unwrap();
    assert_eq!(actions.len(), 1);
    let at = store.get("b".to_string()).unwrap();
    assert_eq!((at.file_id, at.start_index, at.value_size), (0, 17, 18));
}

#[test]
fn overwrite_counts_the_old_record_as_dead() {
    let mut dir = Dir::new();
    let mut store = open(&mut dir);
    set(&mut store, &mut dir, "a", "1");
    assert_eq!(store.uncompacted(), 0);
    set(&mut store, &mut dir, "a", "2");
    assert_eq!(store.uncompacted(), 17);
    assert_eq!(store.file_id(), 0);
    assert_eq!(dir.len(), 1);
    assert_eq!(dir[&0], b"{\"Set\":[\"a\",\"1\"]}{\"Set\":[\"a\",\"2\"]}");
    let at = store.get("a".to_string()).unwrap();
    assert_eq!((at.file_id, at.start_index, at.value_size), (0, 17, 17));
}

#[test]
fn the_third_set_of_one_key_compacts() {
    let mut dir = Dir::new();
    let mut store = open(&mut dir);
    set(&mut store, &mut dir, "a", "1");
    set(&mut store, &mut dir, "a", "2");
    set(&mut store, &mut dir, "a", "3");
    assert_eq!(dir.keys().copied().collect::<Vec<usize>>(), vec![1, 2]);
    assert_eq!(dir[&1], b"{\"Set\":[\"a\",\"3\"]}");
    assert!(dir[&2].is_empty());
    let at = store.get("a".to_string()).unwrap();
    assert_eq!((at.file_id, at.start_index, at.value_size), (1, 0, 17));
    assert_eq!(store.file_id(), 2);
    assert_eq!(store.uncompacted(), 0);
    assert_eq!(get(&store, &dir, "a"), Some("3".to_string()));
    // one more set, then a restart
    set(&mut store, &mut dir, "b", "x");
    drop(store);
    let store = open(&mut dir);
    let at = store.get("a".to_string()).unwrap();
    assert_eq!((at.file_id, at.start_index, at.value_size), (1, 0, 17));
    let at = store.get("b".to_string()).unwrap();
    assert_eq!((at.file_id, at.start_index, at.value_size), (2, 0, 17));
    assert_eq!(store.file_id(), 3);
    assert_eq!(store.uncompacted(), 0);
    assert_eq!(get(&store, &dir, "a"), Some("3".to_string()));
    assert_eq!(get(&store, &dir, "b"), Some("x".to_string()));
}

#[test]
fn offsets_and_lengths_count_bytes() {
    let mut dir = Dir::new();
    let mut store = open(&mut dir);
    set(&mut store, &mut dir, "\u{e9}", "\u{fc}");
    set(&mut store, &mut dir, "b", "2");
    let at = store.get("\u{e9}".to_string()).unwrap();
    assert_eq!((at.file_id, at.start_index, at.value_size), (0, 0, 19));
    let at = store.get("b".to_string()).unwrap();
    assert_eq!((at.file_id, at.start_index, at.value_size), (0, 19, 17));
    assert_eq!(get(&store, &dir, "\u{e9}"), Some("\u{fc}".to_string()));
    assert_eq!(get(&store, &dir, "b"), Some("2".to_string()));
}

#[test]
fn set_compacts_once_the_dead_bytes_pass_the_threshold() {
    assert_eq!(COMPACT_THRESHOLD, 24);
    let mut dir = Dir::new();
    let mut store = open(&mut dir);
    set(&mut store, &mut dir, "a", "1");
    set(&mut store, &mut dir, "b", "x");
    set(&mut store, &mut dir, "a", "2");
    assert_eq!(store.uncompacted(), 17);
    let actions = store.set("a".to_string(), "3".to_string()).unwrap();
    // one append, two creations, two copies, one deletion
    assert_eq!(actions.len(), 6);
    assert!(matches!(actions[0], Action::Append { file_id: 0, .. }));
    assert!(matches!(actions[1], Action::Create { file_id: 2 }));
    assert!(matches!(actions[2], Action::Create { file_id: 1 }));
    assert!(matches!(actions[3], Action::CopyRange { from: 0, start: 51, len: 17, to: 1 }));
    assert!(matches!(actions[4], Action::CopyRange { from: 0, start: 17, len: 17, to: 1 }));
    assert!(matches!(actions[5], Action::Delete { file_id: 0 }));
    perform(&mut dir, actions);
    assert_eq!(store.uncompacted(), 0);
    assert_eq!(store.file_id(), 2);
    assert_eq!(store.readers(), &vec![1, 2]);
    assert_eq!(dir.keys().copied().collect::<Vec<usize>>(), vec![1, 2]);
    assert_eq!(dir[&1], b"{\"Set\":[\"a\",\"3\"]}{\"Set\":[\"b\",\"x\"]}");
    assert_eq!(dir[&2].len(), 0);
    let at = store.get("a".to_string()).unwrap();
    assert_eq!((at.file_id, at.start_index, at.value_size), (1, 0, 17));
    let at = store.get("b".to_string()).unwrap();
    assert_eq!((at.file_id, at.start_index, at.value_size), (1, 17, 17));
    assert_eq!(get(&store, &dir, "a"), Some("3".to_string()));
    assert_eq!(get(&store, &dir, "b"), Some("x".to_string()));
}

#[test]
fn remove_counts_both_records_and_does_not_compact() {
    let mut dir = Dir::new();
    let mut store = open(&mut dir);
    set(&mut store, &mut dir, "a", "1");
    let actions = store.remove("a".to_string()).unwrap();
    assert_eq!(actions.len(), 1);
    match &actions[0] {
        Action::Append { file_id, bytes } => {
            assert_eq!(*file_id, 0);
            assert_eq!(bytes, b"{\"Remove\":\"a\"}");
        }
        other => panic!("expected an append, got {:?}", other),
    }
    perform(&mut dir, actions);
    // 17 bytes of the record that was set, 14 of the record of the removal
    assert_eq!(store.uncompacted(), 31);
    assert!(store.uncompacted() > COMPACT_THRESHOLD);
    assert_eq!(store.file_id(), 0);
    assert_eq!(dir.len(), 1);
    // the next set finds the count above the threshold and compacts
    set(&mut store, &mut dir, "b", "1");
    assert_eq!(store.uncompacted(), 0);
    assert_eq!(store.file_id(), 2);
    assert_eq!(dir.keys().copied().collect::<Vec<usize>>(), vec![1, 2]);
    assert_eq!(get(&store, &dir, "a"), None);
    assert_eq!(get(&store, &dir, "b"), Some("1".to_string()));
}

#[test]
fn compaction_copies_in_ascending_order_of_the_keys() {
    let mut dir = Dir::new();
    let mut store = open(&mut dir);
    set(&mut store, &mut dir, "b", "1");
    set(&mut store, &mut dir, "a", "1");
    set(&mut store, &mut dir, "ab", "1");
    set(&mut store, &mut dir, "B", "1");
    set(&mut store, &mut dir, "b", "2");
    assert_eq!(store.file_id(), 0);
    set(&mut store, &mut dir, "b", "3");
    assert_eq!(store.file_id(), 2);
    assert_eq!(
        dir[&1],
        b"{\"Set\":[\"B\",\"1\"]}{\"Set\":[\"a\",\"1\"]}{\"Set\":[\"ab\",\"1\"]}{\"Set\":[\"b\",\"3\"]}"
    );
    let at = store.get("B".to_string()).unwrap();
    assert_eq!((at.file_id, at.start_index, at.value_size), (1, 0, 17));
    let at = store.get("a".to_string()).unwrap();
    assert_eq!((at.file_id, at.start_index, at.value_size), (1, 17, 17));
    let at = store.get("ab".to_string()).unwrap();
    assert_eq!((at.file_id, at.start_index, at.value_size), (1, 34, 18));
    let at = store.get("b".to_string()).unwrap();
    assert_eq!((at.file_id, at.start_index, at.value_size), (1, 52, 17));
}

#[test]
fn removals_alone_never_compact() {
    let mut dir = Dir::new();
    let mut store = open(&mut dir);
    set(&mut store, &mut dir, "a", "1");
    set(&mut store, &mut dir, "b", "2");
    remove(&mut store, &mut dir, "a");
    remove(&mut store, &mut dir, "b");
    assert_eq!(store.uncompacted(), 62);
    assert_eq!(store.file_id(), 0);
    assert_eq!(store.len(), 0);
    assert_eq!(dir.len(), 1);
    assert_eq!(
        dir[&0],
        b"{\"Set\":[\"a\",\"1\"]}{\"Set\":[\"b\",\"2\"]}{\"Remove\":\"a\"}{\"Remove\":\"b\"}"
    );
    assert_eq!(get(&store, &dir, "b"), None);
}

#[test]
fn values_survive_a_restart() {
    let mut dir = Dir::new();
    let mut store = open(&mut dir);
    set(&mut store, &mut dir, "k", "v");
    set(&mut store, &mut dir, "gone", "x");
    remove(&mut store, &mut dir, "gone");
    let dead = store.uncompacted();
    let place = store.get("k".to_string());
    drop(store);
    let store = open(&mut dir);
    assert_eq!(get(&store, &dir, "k"), Some("v".to_string()));
    assert_eq!(get(&store, &dir, "gone"), None);
    assert_eq!(store.get("k".to_string()), place);
    assert_eq!(store.uncompacted(), dead);
    assert_eq!(store.file_id(), 1);
    assert_eq!(store.len(), 1);
}

#[test]
fn compaction_keeps_every_value_and_retires_the_old_segments() {
    let mut dir = Dir::new();
    // three runs, each leaving a segment behind
    for run in 0..3 {
        let mut store = open(&mut dir);
        let actions = store.set(format!("k{}", run), "v".to_string()).unwrap();
        assert_eq!(actions.len(), 1);
        perform(&mut dir, actions);
    }
    let mut store = open(&mut dir);
    assert_eq!(dir.len(), 4);
    set(&mut store, &mut dir, "k0", "w");
    assert_eq!(store.uncompacted(), 18);
    assert_eq!(dir.len(), 4);
    let actions = store.set("k1".to_string(), "w".to_string()).unwrap();
    // one append, two creations, three copies, four deletions
    assert_eq!(actions.len(), 10);
    perform(&mut dir, actions);
    assert_eq!(get(&store, &dir, "k0"), Some("w".to_string()));
    assert_eq!(get(&store, &dir, "k1"), Some("w".to_string()));
    assert_eq!(get(&store, &dir, "k2"), Some("v".to_string()));
    assert_eq!(store.len(), 3);
    assert_eq!(dir.keys().copied().collect::<Vec<usize>>(), vec![4, 5]);
    assert!(dir.len() < 4);
    assert_eq!(dir[&4].len(), 3 * 18);
    assert_eq!(store.uncompacted(), 0);
    assert_eq!(store.file_id(), 5);
}

#[test]
fn ten_thousand_keys_survive_compaction_and_restart() {
    let mut dir = Dir::new();
    let mut store = open(&mut dir);
    for i in 1..=10000 {
        set(&mut store, &mut dir, &format!("key{}", i), &format!("value{}", i));
    }
    assert_eq!(dir.len(), 1);
    for round in 0..3 {
        for i in 1..=5 {
            set(&mut store, &mut dir, &format!("key{}", i), &format!("again{}-{}", round, i));
        }
    }
    assert!(store.file_id() > 0);
    assert!(dir.len() == 1 || dir.len() == 2);
    assert_eq!(store.len(), 10000);
    let expect = |i: usize| {
        if i <= 5 {
            format!("again2-{}", i)
        } else {
            format!("value{}", i)
        }
    };
    for i in 1..=10000 {
        assert_eq!(get(&store, &dir, &format!("key{}", i)), Some(expect(i)));
    }
    let places: Vec<_> = (1..=10000).map(|i| store.get(format!("key{}", i))).collect();
    drop(store);
    let store = open(&mut dir);
    assert_eq!(store.len(), 10000);
    for i in 1..=10000 {
        assert_eq!(store.get(format!("key{}", i)), places[i - 1]);
        assert_eq!(get(&store, &dir, &format!("key{}", i)), Some(expect(i)));
    }
}

/// A store whose next `set` of a live key compacts it, and its directory.
fn store_about_to_compact() -> (KvStore, Dir) {
    let mut dir = Dir::new();
    let mut store = open(&mut dir);
    for key in ["a", "b", "c", "d"] {
        set(&mut store, &mut dir, key, "old");
    }
    set(&mut store, &mut dir, "a", "new");
    (store, dir)
}

#[test]
fn a_compaction_that_stops_while_copying_loses_nothing() {
    for copies in 0..=4 {
        let (mut store, mut dir) = store_about_to_compact();
        assert_eq!(store.uncompacted(), 19);
        let before = dir[&0].clone();
        let actions = store.set("b".to_string(), "new".to_string()).unwrap();
        // one append, two creations, four copies, one deletion
        assert_eq!(actions.len(), 8);
        for action in actions.into_iter().take(3 + copies) {
            assert!(!matches!(action, Action::Delete { .. }));
            perform_one(&mut dir, action);
        }
        assert_eq!(&dir[&0][..before.len()], &before[..]);
        assert_eq!(dir[&0].len(), before.len() + 19);
        assert_eq!(dir[&1].len(), 19 * copies);
        let reopened = open(&mut dir);
        assert_eq!(reopened.file_id(), 3);
        assert_eq!(reopened.len(), 4);
        assert_eq!(get(&reopened, &dir, "a"), Some("new".to_string()));
        assert_eq!(get(&reopened, &dir, "b"), Some("new".to_string()));
        assert_eq!(get(&reopened, &dir, "c"), Some("old".to_string()));
        assert_eq!(get(&reopened, &dir, "d"), Some("old".to_string()));
    }
}

#[test]
fn a_compaction_deletes_only_after_the_last_copy() {
    let (mut store, _dir) = store_about_to_compact();
    let actions = store.set("b".to_string(), "new".to_string()).unwrap();
    let first_deletion = actions.iter().position(|a| matches!(a, Action::Delete { .. })).unwrap();
    let last_copy = actions.iter().rposition(|a| matches!(a, Action::CopyRange { .. })).unwrap();
    assert!(last_copy < first_deletion);
    assert_eq!(first_deletion, actions.len() - 1);
}

#[test]
fn open_refuses_a_directory_that_names_a_segment_twice() {
    let segments = vec![
        Segment { file_id: 1, data: Vec::new() },
        Segment { file_id: 1, data: Vec::new() },
    ];
    assert!(matches!(KvStore::open(segments), Err(KvError::Corrupt)));
}

#[test]
fn open_refuses_the_highest_identifier() {
    let segments = vec![Segment { file_id: usize::MAX, data: Vec::new() }];
    assert!(matches!(KvStore::open(segments), Err(KvError::TooLarge)));
}

#[test]
fn open_refuses_a_torn_record() {
    let mut dir = Dir::new();
    let mut store = open(&mut dir);
    set(&mut store, &mut dir, "a", "1");
    set(&mut store, &mut dir, "b", "2");
    let whole = dir[&0].clone();
    assert_eq!(whole.len(), 34);
    for cut in [1, 8, 9, 16, 18, 25, 33] {
        let segments = vec![Segment { file_id: 0, data: whole[..cut].to_vec() }];
        assert!(matches!(KvStore::open(segments), Err(KvError::SerdeError(_))), "cut at {}", cut);
    }
    let segments = vec![Segment { file_id: 0, data: whole[..17].to_vec() }];
    assert!(KvStore::open(segments).is_ok());
}

#[test]
fn open_refuses_text_that_is_not_json() {
    for text in [&b"abc"[..], b"{\"Set\":[\"a\",1]}", b"{\"Set\":[\"a\"]}", b"{\"Put\":[\"a\",\"1\"]}", b"{}"] {
        let segments = vec![Segment { file_id: 0, data: text.to_vec() }];
        assert!(matches!(KvStore::open(segments), Err(KvError::SerdeError(_))));
    }
    // a string that is closed, but is not JSON: the escape does not exist
    let segments = vec![Segment { file_id: 0, data: b"{\"Remove\":\"a\\qb\"}".to_vec() }];
    assert!(matches!(KvStore::open(segments), Err(KvError::SerdeError(_))));
}

#[test]
fn strings_with_quotes_and_line_breaks_come_back_unchanged() {
    let mut dir = Dir::new();
    let mut store = open(&mut dir);
    let key = "a \"quoted\"\nkey\\";
    let value = "tab\there, \u{1F600} and \u{0} too";
    set(&mut store, &mut dir, key, value);
    assert_eq!(get(&store, &dir, key), Some(value.to_string()));
    let store = open(&mut dir);
    assert_eq!(get(&store, &dir, key), Some(value.to_string()));
}

#[test]
fn empty_key_and_value_are_kept() {
    let mut dir = Dir::new();
    let mut store = open(&mut dir);
    set(&mut store, &mut dir, "", "");
    assert_eq!(get(&store, &dir, ""), Some(String::new()));
    assert_eq!(store.len(), 1);
}

#[test]
fn a_set_whose_append_fails_leaves_the_store_as_it_was() {
    let mut dir = Dir::new();
    let mut store = open(&mut dir);
    set(&mut store, &mut dir, "a", "1");
    set(&mut store, &mut dir, "b", "1");
    let before = dir.clone();
    let (place, dead, live) = (store.get("a".to_string()), store.uncompacted(), store.len());
    // the append is not carried out
    let actions = store.set("a".to_string(), "2".to_string()).unwrap();
    assert_eq!(actions.len(), 1);
    let cleanup = store.settle(0);
    assert!(cleanup.is_empty());
    assert_eq!(store.get("a".to_string()), place);
    assert_eq!(store.uncompacted(), dead);
    assert_eq!(store.len(), live);
    assert_eq!(get(&store, &dir, "a"), Some("1".to_string()));
    // a key that was not live is gone again
    let _ = store.set("0".to_string(), "x".to_string()).unwrap();
    assert!(store.settle(0).is_empty());
    assert_eq!(store.get("0".to_string()), None);
    assert_eq!(store.len(), live);
    assert_eq!(dir, before);
    // the store goes on where it was
    set(&mut store, &mut dir, "c", "3");
    let at = store.get("c".to_string()).unwrap();
    assert_eq!((at.file_id, at.start_index, at.value_size), (0, 34, 17));
    assert_eq!(get(&store, &dir, "c"), Some("3".to_string()));
    let reopened = open(&mut dir.clone());
    assert_eq!(reopened.get("c".to_string()), store.get("c".to_string()));
}

#[test]
fn a_remove_whose_append_fails_leaves_the_store_as_it_was() {
    let mut dir = Dir::new();
    let mut store = open(&mut dir);
    for key in ["a", "b", "c"] {
        set(&mut store, &mut dir, key, "1");
    }
    let (place, dead) = (store.get("b".to_string()), store.uncompacted());
    let actions = store.remove("b".to_string()).unwrap();
    assert_eq!(actions.len(), 1);
    assert_eq!(store.get("b".to_string()), None);
    assert!(store.settle(0).is_empty());
    assert_eq!(store.get("b".to_string()), place);
    assert_eq!(store.uncompacted(), dead);
    assert_eq!(store.len(), 3);
    assert_eq!(get(&store, &dir, "b"), Some("1".to_string()));
}

#[test]
fn settle_after_all_actions_changes_nothing() {
    let mut dir = Dir::new();
    let mut store = open(&mut dir);
    assert!(store.settle(0).is_empty());
    let actions = store.set("a".to_string(), "1".to_string()).unwrap();
    let count = actions.len();
    perform(&mut dir, actions);
    assert!(store.settle(count).is_empty());
    assert!(store.settle(0).is_empty());
    assert_eq!(get(&store, &dir, "a"), Some("1".to_string()));
    assert_eq!(store.len(), 1);
}

#[test]
fn a_compaction_that_fails_is_taken_back() {
    // one append, two creations, four copies, one deletion
    for done in 0..7 {
        let (mut store, mut dir) = store_about_to_compact();
        let start = dir.clone();
        let places: Vec<_> =
            ["a", "b", "c", "d"].iter().map(|k| store.get(k.to_string())).collect();
        let actions = store.set("b".to_string(), "new".to_string()).unwrap();
        assert_eq!(actions.len(), 8);
        for action in actions.into_iter().take(done) {
            perform_one(&mut dir, action);
        }
        let cleanup = store.settle(done);
        assert_eq!(cleanup.len(), if done >= 3 { 2 } else if done == 2 { 1 } else { 0 });
        perform(&mut dir, cleanup);
        // the new segments are gone, the old one is there
        assert_eq!(dir.keys().copied().collect::<Vec<usize>>(), vec![0]);
        assert_eq!(store.file_id(), 0);
        assert_eq!(store.readers(), &vec![0]);
        assert_eq!(store.len(), 4);
        if done == 0 {
            assert_eq!(dir, start);
            assert_eq!(store.uncompacted(), 19);
            assert_eq!(get(&store, &dir, "b"), Some("old".to_string()));
            assert_eq!(store.get("b".to_string()), places[1]);
        } else {
            assert_eq!(dir[&0].len(), start[&0].len() + 19);
            assert_eq!(store.uncompacted(), 38);
            assert_eq!(get(&store, &dir, "b"), Some("new".to_string()));
            let at = store.get("b".to_string()).unwrap();
            assert_eq!((at.file_id, at.start_index, at.value_size), (0, 95, 19));
        }
        // no entry points at a copy
        assert_eq!(store.get("a".to_string()), places[0]);
        assert_eq!(store.get("c".to_string()), places[2]);
        assert_eq!(store.get("d".to_string()), places[3]);
        assert_eq!(get(&store, &dir, "a"), Some("new".to_string()));
        assert_eq!(get(&store, &dir, "c"), Some("old".to_string()));
        // the store goes on: where the record is there, the next set compacts
        set(&mut store, &mut dir, "e", "5");
        if done == 0 {
            assert_eq!(dir.keys().copied().collect::<Vec<usize>>(), vec![0]);
            assert_eq!(store.uncompacted(), 19);
        } else {
            assert_eq!(dir.keys().copied().collect::<Vec<usize>>(), vec![1, 2]);
            assert_eq!(store.uncompacted(), 0);
        }
        assert_eq!(store.len(), 5);
        assert_eq!(get(&store, &dir, "a"), Some("new".to_string()));
        assert_eq!(get(&store, &dir, "d"), Some("old".to_string()));
        assert_eq!(get(&store, &dir, "e"), Some("5".to_string()));
        let reopened = open(&mut dir);
        assert_eq!(reopened.len(), 5);
        assert_eq!(get(&reopened, &dir, "e"), Some("5".to_string()));
    }
}

#[test]
fn a_compaction_that_fails_among_its_deletions_is_finished() {
    let mut dir = Dir::new();
    for run in 0..3 {
        let mut store = open(&mut dir);
        set(&mut store, &mut dir, &format!("k{}", run), "v");
    }
    let mut store = open(&mut dir);
    set(&mut store, &mut dir, "k0", "w");
    let actions = store.set("k1".to_string(), "w".to_string()).unwrap();
    // one append, two creations, three copies, four deletions
    assert_eq!(actions.len(), 10);
    for action in actions.into_iter().take(7) {
        perform_one(&mut dir, action);
    }
    assert_eq!(dir.keys().copied().collect::<Vec<usize>>(), vec![1, 2, 3, 4, 5]);
    let cleanup = store.settle(7);
    assert_eq!(cleanup.len(), 3);
    assert!(matches!(cleanup[0], Action::Delete { file_id: 1 }));
    assert!(matches!(cleanup[1], Action::Delete { file_id: 2 }));
    assert!(matches!(cleanup[2], Action::Delete { file_id: 3 }));
    perform(&mut dir, cleanup);
    assert_eq!(dir.keys().copied().collect::<Vec<usize>>(), vec![4, 5]);
    assert_eq!(store.file_id(), 5);
    assert_eq!(store.uncompacted(), 0);
    assert_eq!(get(&store, &dir, "k0"), Some("w".to_string()));
    assert_eq!(get(&store, &dir, "k1"), Some("w".to_string()));
    assert_eq!(get(&store, &dir, "k2"), Some("v".to_string()));
}
