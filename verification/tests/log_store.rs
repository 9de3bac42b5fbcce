use kvs::{Command, CommandPos, KVStoreError, KvStore, MAX_COMPACTION_SIZE};

fn set(k: &str, v: &str) -> Vec<u8> {
    Command::SET(k.to_string(), v.to_string()).serialize()
}

fn rm(k: &str) -> Vec<u8> {
    Command::RM(k.to_string()).serialize()
}

fn empty_store() -> KvStore {
    match KvStore::open_from_logs(&vec![], &vec![]) {
        Ok(s) => s,
        Err(_) => panic!("an empty store opens"),
    }
}

/// Appends through the store as the caller of the engine does, reporting
/// success.
fn write_set(store: &mut KvStore, k: &str, v: &str, file: &mut Vec<u8>) -> bool {
    let rec = store.prepare_set(k.to_string(), v.to_string());
    file.extend_from_slice(&rec);
    assert!(store.can_commit());
    store.commit_append()
}

fn read(store: &KvStore, k: &str, file: &[u8]) -> Option<String> {
    store.lookup(k).map(|p| {
        let bytes = &file[p.offset as usize..(p.offset + p.length) as usize];
        KvStore::read_value(bytes).unwrap_or_else(|_| panic!("record reads back"))
    })
}

#[test]
fn an_empty_store_starts_on_file_zero() {
    let s = empty_store();
    assert_eq!(s.current_file_id(), 0);
    assert_eq!(s.get_position(), 0);
    assert_eq!(s.size_for_compaction(), 0);
    assert_eq!(s.entry_count(), 0);
    assert!(!s.needs_compaction());
}

#[test]
fn set_then_get_gives_the_value() {
    let mut s = empty_store();
    let mut file = Vec::new();
    write_set(&mut s, "key1", "value1", &mut file);
    assert_eq!(read(&s, "key1", &file), Some("value1".to_string()));
    assert_eq!(read(&s, "key2", &file), None);
    assert_eq!(
        s.lookup("key1"),
        Some(CommandPos { offset: 0, length: file.len() as u64, file_id: 0 })
    );
    assert_eq!(s.get_position(), file.len() as u64);
    assert_eq!(s.size_for_compaction(), file.len() as u64);
}

#[test]
fn overwriting_a_key_gives_the_new_value() {
    let mut s = empty_store();
    let mut file = Vec::new();
    write_set(&mut s, "key1", "value1", &mut file);
    let first = file.len() as u64;
    write_set(&mut s, "key1", "value2", &mut file);
    assert_eq!(read(&s, "key1", &file), Some("value2".to_string()));
    assert_eq!(s.lookup("key1").unwrap().offset, first);
    assert_eq!(s.entry_count(), 1);
    // The overwritten record is not counted again.
    assert_eq!(s.size_for_compaction(), file.len() as u64);
}

#[test]
fn remove_drops_the_key_and_counts_both_records() {
    let mut s = empty_store();
    let mut file = Vec::new();
    write_set(&mut s, "a", "1", &mut file);
    assert_eq!(file.len(), 17);
    let rec = match s.prepare_remove("a".to_string()) {
        Ok(r) => r,
        Err(_) => panic!("the key is there"),
    };
    assert_eq!(rec, rm("a"));
    assert_eq!(s.lookup("a"), None);
    file.extend_from_slice(&rec);
    assert!(s.can_commit());
    assert!(!s.commit_append());
    assert_eq!(s.size_for_compaction(), 17 + 17 + 10);
    assert_eq!(s.get_position(), 27);
    assert_eq!(read(&s, "a", &file), None);
}

#[test]
fn removing_a_missing_key_is_key_not_found() {
    let mut s = empty_store();
    assert!(matches!(s.prepare_remove("nope".to_string()), Err(KVStoreError::KeyNotFound)));
    assert!(!s.can_commit());
    assert_eq!(s.size_for_compaction(), 0);
}

#[test]
fn a_failed_append_leaves_the_index() {
    let mut s = empty_store();
    let mut file = Vec::new();
    write_set(&mut s, "a", "1", &mut file);
    let _ = s.prepare_set("b".to_string(), "2".to_string());
    s.abort_append(25);
    assert_eq!(s.get_position(), 25);
    assert_eq!(s.lookup("b"), None);
    assert!(s.lookup("a").is_some());
    assert!(!s.can_commit());
}

#[test]
fn compaction_is_due_past_the_limit() {
    let mut s = empty_store();
    let mut file = Vec::new();
    let value = "v".repeat(100);
    let mut due = false;
    let mut n = 0;
    while !due {
        due = write_set(&mut s, "k", &value, &mut file);
        n += 1;
    }
    assert!(s.size_for_compaction() > MAX_COMPACTION_SIZE);
    assert!(s.needs_compaction());
    let one = set("k", &value).len() as u64;
    assert_eq!(s.size_for_compaction(), one * n);
    assert!(one * (n - 1) <= MAX_COMPACTION_SIZE);
}

#[test]
fn replay_rebuilds_the_index() {
    let mut log1 = Vec::new();
    log1.extend_from_slice(&set("a", "1"));
    log1.extend_from_slice(&set("b", "2"));
    log1.extend_from_slice(&rm("a"));
    let mut log2 = Vec::new();
    log2.extend_from_slice(&set("b", "3"));
    log2.extend_from_slice(b"\n");
    log2.extend_from_slice(&set("c", "4"));
    let s = match KvStore::open_from_logs(&vec![1, 2], &vec![log1.clone(), log2.clone()]) {
        Ok(s) => s,
        Err(_) => panic!("the logs replay"),
    };
    assert_eq!(s.current_file_id(), 2);
    assert_eq!(s.get_position(), log2.len() as u64);
    assert_eq!(s.lookup("a"), None);
    assert_eq!(s.lookup("b"), Some(CommandPos { offset: 0, length: 17, file_id: 2 }));
    // The extent of a record starts where the previous one ended.
    assert_eq!(s.lookup("c"), Some(CommandPos { offset: 17, length: 18, file_id: 2 }));
    assert_eq!(read(&s, "b", &log2), Some("3".to_string()));
    assert_eq!(read(&s, "c", &log2), Some("4".to_string()));
    // set a, set b, removed set a, rm a; then set b, set c.
    assert_eq!(s.size_for_compaction(), 17 + 17 + 17 + 10 + 17 + 18);
}

#[test]
fn replay_of_a_bad_log_is_a_serde_error() {
    let mut log = set("a", "1");
    log.extend_from_slice(b"{\"GET\":\"a\"}");
    assert!(matches!(
        KvStore::open_from_logs(&vec![0], &vec![log]),
        Err(KVStoreError::SerdeError(_))
    ));
}

#[test]
fn a_file_named_twice_is_replayed_twice() {
    let log = set("a", "1");
    let s = match KvStore::open_from_logs(&vec![3, 3], &vec![log.clone(), log.clone()]) {
        Ok(s) => s,
        Err(_) => panic!("the logs replay"),
    };
    assert_eq!(s.lookup("a"), Some(CommandPos { offset: 0, length: 17, file_id: 3 }));
    assert_eq!(s.size_for_compaction(), 34);
}

#[test]
fn read_value_of_an_rm_record_is_unknown_command_type() {
    assert!(matches!(KvStore::read_value(&rm("a")), Err(KVStoreError::UnknownCommandType)));
    assert!(matches!(KvStore::read_value(b"garbage"), Err(KVStoreError::SerdeError(_))));
}

#[test]
fn compaction_copies_live_records_back_to_back() {
    let mut s = empty_store();
    let mut file0 = Vec::new();
    write_set(&mut s, "a", "1", &mut file0);
    write_set(&mut s, "b", "22", &mut file0);
    write_set(&mut s, "a", "333", &mut file0);
    let new_id = s.next_file_id().unwrap();
    assert_eq!(new_id, 1);
    s.begin_compaction(0);
    assert_eq!(s.current_file_id(), 1);
    let mut file1 = Vec::new();
    for slot in 0..s.entry_count() {
        let p = s.entry_at(slot);
        assert_eq!(p.file_id, 0);
        file1.extend_from_slice(&file0[p.offset as usize..(p.offset + p.length) as usize]);
        assert!(s.can_relocate(slot));
        s.relocate_entry(slot);
    }
    assert_eq!(s.get_position(), file1.len() as u64);
    assert_eq!(read(&s, "a", &file1), Some("333".to_string()));
    assert_eq!(read(&s, "b", &file1), Some("22".to_string()));
    let pa = s.lookup("a").unwrap();
    let pb = s.lookup("b").unwrap();
    assert_eq!(pa.file_id, 1);
    assert_eq!(pb.file_id, 1);
    assert_eq!(pa.length + pb.length, file1.len() as u64);
    assert_eq!(s.stale_file_ids(&vec![0, 1, 5]), vec![0]);
    assert!(s.finish_compaction());
    assert_eq!(s.size_for_compaction(), 0);
    s.switch_to_new_file(0);
    assert_eq!(s.current_file_id(), 2);
    assert_eq!(s.get_position(), 0);
    // The compacted file alone replays to the same contents.
    let r = match KvStore::open_from_logs(&vec![1], &vec![file1.clone()]) {
        Ok(r) => r,
        Err(_) => panic!("the compacted log replays"),
    };
    assert_eq!(read(&r, "a", &file1), Some("333".to_string()));
    assert_eq!(read(&r, "b", &file1), Some("22".to_string()));
}

#[test]
fn the_last_file_id_has_no_next() {
    let s = match KvStore::open_from_logs(&vec![u64::MAX], &vec![Vec::new()]) {
        Ok(s) => s,
        Err(_) => panic!("an empty log replays"),
    };
    assert_eq!(s.next_file_id(), None);
}

#[test]
fn a_newer_file_wins_on_replay() {
    let s = match KvStore::open_from_logs(&vec![2, 10], &vec![set("k", "old"), set("k", "new")]) {
        Ok(s) => s,
        Err(_) => panic!("the logs replay"),
    };
    let file = set("k", "new");
    assert_eq!(s.lookup("k"), Some(CommandPos { offset: 0, length: file.len() as u64, file_id: 10 }));
}

#[test]
fn a_replayed_rm_drops_the_key() {
    let mut log = set("a", "1");
    log.extend_from_slice(&rm("a"));
    let mut s = match KvStore::open_from_logs(&vec![1], &vec![log]) {
        Ok(s) => s,
        Err(_) => panic!("the log replays"),
    };
    assert_eq!(s.lookup("a"), None);
    assert!(matches!(s.prepare_remove("a".to_string()), Err(KVStoreError::KeyNotFound)));
}

#[test]
fn removing_twice_is_key_not_found() {
    let mut s = empty_store();
    let mut file = Vec::new();
    write_set(&mut s, "a", "1", &mut file);
    let rec = match s.prepare_remove("a".to_string()) {
        Ok(r) => r,
        Err(_) => panic!("a is there"),
    };
    assert!(s.can_commit());
    file.extend_from_slice(&rec);
    s.commit_append();
    assert_eq!(s.lookup("a"), None);
    assert!(matches!(s.prepare_remove("a".to_string()), Err(KVStoreError::KeyNotFound)));
}

#[test]
fn a_compaction_out_of_order_is_not_done() {
    let mut s = empty_store();
    let mut file0 = Vec::new();
    write_set(&mut s, "a", "1", &mut file0);
    write_set(&mut s, "b", "2", &mut file0);
    s.begin_compaction(0);
    // The second entry first: the copies are not in order.
    assert!(s.can_relocate(1));
    s.relocate_entry(1);
    s.relocate_entry(0);
    assert!(!s.finish_compaction());
    assert_eq!(s.size_for_compaction(), 0);
}

#[test]
fn a_compaction_into_a_file_that_was_not_empty_is_not_done() {
    let mut s = empty_store();
    let mut file0 = Vec::new();
    write_set(&mut s, "a", "1", &mut file0);
    s.begin_compaction(7);
    assert!(s.can_relocate(0));
    s.relocate_entry(0);
    assert!(!s.finish_compaction());
}
