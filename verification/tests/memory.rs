use kvs::error::KvsError;
use kvs::index::CommandOffset;
use kvs::memory::{Directory, MemoryStore};
use kvs::writer::COMPACTION_THRESHOLD;

fn get(store: &MemoryStore, key: &str) -> Option<String> {
    store.get(&key.to_string()).unwrap()
}

fn set(store: &mut MemoryStore, key: &str, value: &str) {
    store.set(key.to_string(), value.to_string()).unwrap();
}

fn disk_size(dir: &Directory) -> usize {
    dir.generations().iter().map(|gen| dir.segment_len(*gen).unwrap()).sum()
}

fn sorted_generations(dir: &Directory) -> Vec<u64> {
    let mut gens = dir.generations();
    gens.sort();
    gens
}

#[test]
fn a_directory_holds_segments() {
    let mut dir = Directory::new();
    assert_eq!(dir.len(), 0);
    assert!(!dir.contains(1));
    assert_eq!(dir.segment_len(1), None);
    assert!(dir.create(1));
    assert!(!dir.create(1));
    assert!(!dir.create(0));
    assert!(dir.contains(1));
    assert_eq!(dir.segment_len(1), Some(0));

    assert!(dir.append(1, b"hello "));
    assert!(dir.append(1, b"world"));
    assert!(!dir.append(2, b"nothing"));
    assert_eq!(dir.segment_len(1), Some(11));
    assert_eq!(dir.read(CommandOffset { gen: 1, pos: 0, len: 11 }), Some(b"hello world".to_vec()));
    assert_eq!(dir.read(CommandOffset { gen: 1, pos: 6, len: 5 }), Some(b"world".to_vec()));
    assert_eq!(dir.read(CommandOffset { gen: 1, pos: 11, len: 0 }), Some(Vec::new()));
    assert_eq!(dir.read(CommandOffset { gen: 1, pos: 6, len: 6 }), None);
    assert_eq!(dir.read(CommandOffset { gen: 1, pos: 12, len: 0 }), None);
    assert_eq!(dir.read(CommandOffset { gen: 1, pos: u64::MAX, len: u64::MAX }), None);
    assert_eq!(dir.read(CommandOffset { gen: 2, pos: 0, len: 0 }), None);

    dir.put(3, b"three".to_vec());
    dir.put(1, b"one".to_vec());
    dir.put(0, b"zero".to_vec());
    assert_eq!(dir.len(), 2);
    assert_eq!(dir.read(CommandOffset { gen: 1, pos: 0, len: 3 }), Some(b"one".to_vec()));
    assert_eq!(dir.read(CommandOffset { gen: 3, pos: 0, len: 5 }), Some(b"three".to_vec()));
    assert!(!dir.contains(0));
}

#[test]
fn retire_removes_the_generations_up_to_a_bound() {
    let mut dir = Directory::new();
    for gen in [5, 1, 9, 3, 7] {
        dir.put(gen, vec![gen as u8]);
    }
    dir.retire(5);
    assert_eq!(sorted_generations(&dir), vec![7, 9]);
    assert_eq!(dir.read(CommandOffset { gen: 7, pos: 0, len: 1 }), Some(vec![7]));
    assert_eq!(dir.read(CommandOffset { gen: 9, pos: 0, len: 1 }), Some(vec![9]));
    dir.retire(0);
    assert_eq!(sorted_generations(&dir), vec![7, 9]);
    dir.retire(u64::MAX);
    assert_eq!(dir.len(), 0);
}

#[test]
fn files_carry_the_names_of_the_generations() {
    let mut dir = Directory::new();
    dir.put(2, b"two".to_vec());
    dir.put(10, b"ten".to_vec());
    let mut files: Vec<(String, Vec<u8>)> =
        dir.files().into_iter().map(|file| (file.name, file.data)).collect();
    files.sort();
    assert_eq!(
        files,
        vec![
            ("10.Error".to_string(), b"ten".to_vec()),
            ("2.Error".to_string(), b"two".to_vec())
        ]
    );
}

#[test]
fn memory_set_then_get() {
    let mut store = MemoryStore::new();
    set(&mut store, "a", "1");
    set(&mut store, "b", "2");
    assert_eq!(get(&store, "a"), Some("1".to_string()));
    assert_eq!(get(&store, "b"), Some("2".to_string()));
    assert_eq!(get(&store, "c"), None);
}

#[test]
fn memory_overwrite_then_remove() {
    let mut store = MemoryStore::new();
    set(&mut store, "a", "1");
    set(&mut store, "a", "2");
    assert_eq!(get(&store, "a"), Some("2".to_string()));
    assert_eq!(store.remove("a".to_string()), Ok(()));
    assert_eq!(get(&store, "a"), None);
    assert_eq!(store.remove("a".to_string()), Err(KvsError::KeyNotFound));
}

#[test]
fn memory_remove_of_absent_key_appends_nothing() {
    let mut store = MemoryStore::new();
    set(&mut store, "a", "1");
    let size = disk_size(store.directory());
    assert_eq!(store.remove("b".to_string()), Err(KvsError::KeyNotFound));
    assert_eq!(disk_size(store.directory()), size);
    assert_eq!(store.store().pos(), 31);
    assert_eq!(store.store().uncompacted(), 0);
    assert_eq!(get(&store, "a"), Some("1".to_string()));
}

#[test]
fn memory_reopen_after_ten_thousand_sets() {
    let mut store = MemoryStore::new();
    for i in 0..10_000 {
        set(&mut store, &format!("key{}", i), &format!("v{}", i));
    }
    let store = MemoryStore::open(store.close()).unwrap();
    assert_eq!(store.store().len(), 10_000);
    assert_eq!(store.store().current_gen(), 2);
    for i in 0..10_000 {
        assert_eq!(get(&store, &format!("key{}", i)), Some(format!("v{}", i)));
    }
    assert_eq!(get(&store, "key10000"), None);
    assert_eq!(get(&store, "unknown"), None);
}

#[test]
fn memory_overwrites_trigger_compaction() {
    let value = "X".repeat(2048);
    let mut store = MemoryStore::new();
    let mut compactions = 0;
    for _ in 0..5_000 {
        let gen = store.store().current_gen();
        set(&mut store, "key", &value);
        assert!(disk_size(store.directory()) <= 8 * 1024 * 1024);
        if store.store().current_gen() != gen {
            compactions += 1;
            assert_eq!(store.store().current_gen(), gen + 2);
            assert_eq!(store.store().uncompacted(), 0);
            assert_eq!(sorted_generations(store.directory()), vec![gen + 1, gen + 2]);
            assert_eq!(disk_size(store.directory()), 2080);
        }
        assert!(store.store().uncompacted() < COMPACTION_THRESHOLD);
    }
    assert_eq!(compactions, 2);
    assert_eq!(store.store().len(), 1);
    assert_eq!(get(&store, "key"), Some(value.clone()));

    let store = MemoryStore::open(store.close()).unwrap();
    assert_eq!(get(&store, "key"), Some(value));
}

#[test]
fn memory_empty_store_reopens() {
    let store = MemoryStore::new();
    assert_eq!(store.store().current_gen(), 1);
    let dir = store.close();
    assert_eq!(dir.generations(), vec![1]);
    assert_eq!(dir.segment_len(1), Some(0));

    let store = MemoryStore::open(dir).unwrap();
    assert_eq!(store.store().current_gen(), 2);
    assert_eq!(store.store().len(), 0);
    assert_eq!(sorted_generations(store.directory()), vec![1, 2]);
}

#[test]
fn memory_compaction_keeps_the_mapping() {
    let mut store = MemoryStore::new();
    set(&mut store, "a", "1");
    set(&mut store, "b", "2");
    set(&mut store, "a", "3");
    set(&mut store, "c", "4");
    store.remove("b".to_string()).unwrap();
    let keys = ["a", "b", "c", "d"];
    let before: Vec<Option<String>> = keys.iter().map(|key| get(&store, key)).collect();
    assert_eq!(
        before,
        vec![Some("3".to_string()), None, Some("4".to_string()), None]
    );

    for round in 0..3 {
        assert_eq!(store.compact(), Ok(()));
        assert_eq!(store.store().current_gen(), 3 + 2 * round);
        assert_eq!(store.store().uncompacted(), 0);
        assert_eq!(disk_size(store.directory()), 31 + 31);
        let now: Vec<Option<String>> = keys.iter().map(|key| get(&store, key)).collect();
        assert_eq!(now, before);
    }

    let store = MemoryStore::open(store.close()).unwrap();
    let now: Vec<Option<String>> = keys.iter().map(|key| get(&store, key)).collect();
    assert_eq!(now, before);
}

#[test]
fn memory_open_fails_on_a_corrupt_segment() {
    let mut dir = Directory::new();
    dir.put(1, b"{\"Set\":{\"key\":\"a\",\"value\":\"1\"}}garbage".to_vec());
    assert!(matches!(MemoryStore::open(dir), Err(KvsError::Serde)));
}

#[test]
fn memory_open_fails_behind_the_last_generation() {
    let mut dir = Directory::new();
    dir.put(u64::MAX, Vec::new());
    assert!(matches!(MemoryStore::open(dir), Err(KvsError::Overflow)));
}

#[test]
fn memory_compact_fails_where_no_two_generations_are_left() {
    let mut dir = Directory::new();
    dir.put(u64::MAX - 2, b"{\"Set\":{\"key\":\"a\",\"value\":\"1\"}}".to_vec());
    let mut store = MemoryStore::open(dir).unwrap();
    assert_eq!(store.store().current_gen(), u64::MAX - 1);
    assert_eq!(store.compact(), Err(KvsError::Overflow));
    assert_eq!(get(&store, "a"), Some("1".to_string()));
    set(&mut store, "b", "2");
    assert_eq!(get(&store, "b"), Some("2".to_string()));
    assert_eq!(sorted_generations(store.directory()), vec![u64::MAX - 2, u64::MAX - 1]);
}

#[test]
fn memory_strings_with_escapes_come_back() {
    let mut store = MemoryStore::new();
    let key = "quote\" backslash\\ newline\n";
    let value = "snowman\u{2603} control\u{1f} }}{\"Remove\":{\"key\":\"";
    set(&mut store, key, value);
    assert_eq!(get(&store, key), Some(value.to_string()));
    let store = MemoryStore::open(store.close()).unwrap();
    assert_eq!(get(&store, key), Some(value.to_string()));
}

#[test]
fn memory_reopen_keeps_the_mapping() {
    let mut store = MemoryStore::new();
    set(&mut store, "a", "1");
    set(&mut store, "b", "2");
    set(&mut store, "a", "3");
    store.remove("b".to_string()).unwrap();
    assert_eq!(store.store().uncompacted(), 31 + 31);
    let store = store.reopen().unwrap();
    assert_eq!(store.store().current_gen(), 2);
    assert_eq!(store.store().pos(), 0);
    assert_eq!(store.store().uncompacted(), 31 + 31);
    assert_eq!(get(&store, "a"), Some("3".to_string()));
    assert_eq!(get(&store, "b"), None);
    let store = store.reopen().unwrap().reopen().unwrap();
    assert_eq!(store.store().current_gen(), 4);
    assert_eq!(store.store().uncompacted(), 31 + 31);
    assert_eq!(get(&store, "a"), Some("3".to_string()));
    assert_eq!(sorted_generations(store.directory()), vec![1, 2, 3, 4]);
}

#[test]
fn memory_reopen_fails_at_the_last_generation() {
    let mut dir = Directory::new();
    dir.put(u64::MAX - 1, Vec::new());
    let store = MemoryStore::open(dir).unwrap();
    assert_eq!(store.store().current_gen(), u64::MAX);
    assert!(matches!(store.reopen(), Err(KvsError::Overflow)));
}

#[test]
fn memory_stale_bytes_of_earlier_sessions_count_toward_compaction() {
    let value = "X".repeat(2048);
    let mut store = MemoryStore::new();
    for _ in 0..3 {
        for _ in 0..600 {
            set(&mut store, "key", &value);
        }
        assert_eq!(sorted_generations(store.directory()).len() as u64, store.store().current_gen());
        store = store.reopen().unwrap();
    }
    assert_eq!(store.store().current_gen(), 4);
    assert_eq!(store.store().uncompacted(), 1799 * 2080);
    for _ in 0..600 {
        set(&mut store, "key", &value);
    }
    assert!(store.store().current_gen() > 4);
    assert!(store.store().uncompacted() < COMPACTION_THRESHOLD);
    assert!(disk_size(store.directory()) < COMPACTION_THRESHOLD as usize + 2 * 2080);
    assert_eq!(get(&store, "key"), Some(value));
}

#[test]
fn memory_compaction_leaves_nothing_stale_for_the_next_session() {
    let mut store = MemoryStore::new();
    set(&mut store, "a", "1");
    set(&mut store, "a", "2");
    set(&mut store, "b", "3");
    store.remove("b".to_string()).unwrap();
    assert_eq!(store.store().uncompacted(), 62);
    store.compact().unwrap();
    assert_eq!(store.store().uncompacted(), 0);
    let store = store.reopen().unwrap();
    assert_eq!(store.store().uncompacted(), 0);
    assert_eq!(get(&store, "a"), Some("2".to_string()));
}

#[test]
fn memory_every_byte_is_live_stale_or_a_remove_record() {
    let mut store = MemoryStore::new();
    set(&mut store, "a", "1");
    set(&mut store, "b", "22");
    set(&mut store, "a", "333");
    store.remove("b".to_string()).unwrap();
    set(&mut store, "c", "4");
    let store = store.reopen().unwrap();
    let mut store = store;
    set(&mut store, "c", "55");
    store.remove("a".to_string()).unwrap();

    let live: u64 = ["a", "b", "c"]
        .iter()
        .filter_map(|key| store.store().locate(&key.to_string()))
        .map(|at| at.len)
        .sum();
    let removes = 22 + 22;
    assert_eq!(live, 32);
    assert_eq!(store.store().uncompacted(), 31 + 32 + 31 + 33);
    assert_eq!(
        disk_size(store.directory()) as u64,
        live + store.store().uncompacted() + removes
    );

    store.compact().unwrap();
    assert_eq!(store.store().uncompacted(), 0);
    assert_eq!(disk_size(store.directory()) as u64, live);
}
