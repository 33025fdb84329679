use kvs::disk::SegmentFile;
use kvs::error::KvsError;
use kvs::segment::{generations, segment_file_name};
use kvs::store::KvStore;
use kvs::writer::COMPACTION_THRESHOLD;
use std::collections::BTreeMap;

/// A store directory held in memory: file name to content.
type Dir = BTreeMap<String, Vec<u8>>;

/// A store together with the directory that it reads and writes.
struct Engine {
    dir: Dir,
    store: KvStore,
}

impl Engine {
    fn open(mut dir: Dir) -> Result<Engine, KvsError> {
        let files: Vec<SegmentFile> = dir
            .iter()
            .map(|(name, data)| SegmentFile { name: name.clone(), data: data.clone() })
            .collect();
        let store = KvStore::open(&files)?;
        dir.entry(segment_file_name(store.current_gen())).or_default();
        Ok(Engine { dir, store })
    }

    fn close(self) -> Dir {
        self.dir
    }

    fn segment(&self, gen: u64) -> &Vec<u8> {
        &self.dir[&segment_file_name(gen)]
    }

    fn read(&self, gen: u64, pos: u64, len: u64) -> Vec<u8> {
        self.segment(gen)[pos as usize..(pos + len) as usize].to_vec()
    }

    fn get(&self, key: &str) -> Result<Option<String>, KvsError> {
        match self.store.locate(&key.to_string()) {
            None => Ok(None),
            Some(at) => {
                let bytes = self.read(at.gen, at.pos, at.len);
                Ok(Some(KvStore::read_value(&bytes)?))
            }
        }
    }

    fn set(&mut self, key: &str, value: &str) -> Result<(), KvsError> {
        let write = self.store.set(key.to_string(), value.to_string())?;
        let at = write.offset();
        let segment = self.dir.get_mut(&segment_file_name(at.gen)).unwrap();
        assert_eq!(segment.len() as u64, at.pos);
        segment.extend_from_slice(write.bytes());
        if self.store.commit(write)? {
            self.compact()?;
        }
        Ok(())
    }

    fn remove(&mut self, key: &str) -> Result<(), KvsError> {
        let write = self.store.remove(key.to_string())?;
        let at = write.offset();
        let segment = self.dir.get_mut(&segment_file_name(at.gen)).unwrap();
        assert_eq!(segment.len() as u64, at.pos);
        segment.extend_from_slice(write.bytes());
        if self.store.commit(write)? {
            self.compact()?;
        }
        Ok(())
    }

    fn compact(&mut self) -> Result<(), KvsError> {
        let plan = self.store.compact()?;
        let mut copy: Vec<u8> = Vec::new();
        for at in plan.copies() {
            copy.extend_from_slice(&self.read(at.gen, at.pos, at.len));
        }
        self.dir.insert(segment_file_name(plan.compact_gen()), copy);
        self.dir.insert(segment_file_name(plan.active_gen()), Vec::new());
        self.store.install(&plan)?;
        let names: Vec<String> = self.dir.keys().cloned().collect();
        for gen in plan.stale(&generations(&names)) {
            self.dir.remove(&segment_file_name(gen));
        }
        Ok(())
    }

    fn mapping(&self, keys: &[&str]) -> Vec<(String, Option<String>)> {
        keys.iter().map(|key| (key.to_string(), self.get(key).unwrap())).collect()
    }

    fn disk_size(&self) -> usize {
        self.dir.values().map(|data| data.len()).sum()
    }
}

#[test]
fn set_then_get_gives_the_value() {
    let mut engine = Engine::open(Dir::new()).unwrap();
    engine.set("a", "1").unwrap();
    engine.set("b", "2").unwrap();
    assert_eq!(engine.get("a").unwrap(), Some("1".to_string()));
    assert_eq!(engine.get("b").unwrap(), Some("2".to_string()));
    assert_eq!(engine.get("c").unwrap(), None);
}

#[test]
fn overwrite_then_remove() {
    let mut engine = Engine::open(Dir::new()).unwrap();
    engine.set("a", "1").unwrap();
    engine.set("a", "2").unwrap();
    assert_eq!(engine.get("a").unwrap(), Some("2".to_string()));
    engine.remove("a").unwrap();
    assert_eq!(engine.get("a").unwrap(), None);
    assert_eq!(engine.remove("a"), Err(KvsError::KeyNotFound));
}

#[test]
fn last_write_wins() {
    let mut engine = Engine::open(Dir::new()).unwrap();
    engine.set("k", "first").unwrap();
    engine.set("other", "x").unwrap();
    engine.set("k", "second").unwrap();
    assert_eq!(engine.get("k").unwrap(), Some("second".to_string()));
    assert_eq!(engine.get("other").unwrap(), Some("x".to_string()));
}

#[test]
fn records_are_written_as_compact_json() {
    let mut engine = Engine::open(Dir::new()).unwrap();
    engine.set("a", "1").unwrap();
    engine.remove("a").unwrap();
    assert_eq!(
        engine.segment(1).as_slice(),
        "{\"Set\":{\"key\":\"a\",\"value\":\"1\"}}{\"Remove\":{\"key\":\"a\"}}".as_bytes()
    );
}

#[test]
fn offsets_and_stale_bytes_follow_the_writes() {
    let mut engine = Engine::open(Dir::new()).unwrap();
    assert_eq!(engine.store.current_gen(), 1);
    assert_eq!(engine.store.pos(), 0);
    assert_eq!(engine.store.uncompacted(), 0);

    engine.set("a", "1").unwrap();
    let first = engine.store.locate(&"a".to_string()).unwrap();
    assert_eq!((first.gen, first.pos, first.len), (1, 0, 31));
    assert_eq!(engine.store.pos(), 31);
    assert_eq!(engine.store.uncompacted(), 0);

    engine.set("a", "22").unwrap();
    let second = engine.store.locate(&"a".to_string()).unwrap();
    assert_eq!((second.gen, second.pos, second.len), (1, 31, 32));
    assert_eq!(engine.store.pos(), 63);
    assert_eq!(engine.store.uncompacted(), 31);

    engine.remove("a").unwrap();
    assert_eq!(engine.store.locate(&"a".to_string()), None);
    assert_eq!(engine.store.pos(), 63 + 22);
    assert_eq!(engine.store.uncompacted(), 31 + 32);
    assert_eq!(engine.store.len(), 0);
}

#[test]
fn remove_of_absent_key_appends_nothing() {
    let mut engine = Engine::open(Dir::new()).unwrap();
    engine.set("a", "1").unwrap();
    let size = engine.disk_size();
    let pos = engine.store.pos();
    let stale = engine.store.uncompacted();
    assert_eq!(engine.remove("missing"), Err(KvsError::KeyNotFound));
    assert_eq!(engine.disk_size(), size);
    assert_eq!(engine.store.pos(), pos);
    assert_eq!(engine.store.uncompacted(), stale);
    assert_eq!(engine.store.len(), 1);
    assert_eq!(engine.get("a").unwrap(), Some("1".to_string()));
}

#[test]
fn reopen_gives_the_same_mapping() {
    let mut engine = Engine::open(Dir::new()).unwrap();
    engine.set("a", "1").unwrap();
    engine.set("b", "2").unwrap();
    engine.set("a", "3").unwrap();
    engine.remove("b").unwrap();
    engine.set("c", "4").unwrap();
    let keys = ["a", "b", "c", "d"];
    let before = engine.mapping(&keys);
    assert_eq!(engine.store.uncompacted(), 31 + 31);

    let engine = Engine::open(engine.close()).unwrap();
    assert_eq!(engine.mapping(&keys), before);
    assert_eq!(engine.store.current_gen(), 2);
    assert_eq!(engine.store.pos(), 0);
    assert_eq!(engine.store.uncompacted(), 31 + 31);
    assert_eq!(engine.store.len(), 2);
}

#[test]
fn open_counts_the_stale_bytes_of_the_disk() {
    let mut dir = Dir::new();
    dir.insert(
        "1.Error".to_string(),
        b"{\"Set\":{\"key\":\"a\",\"value\":\"1\"}}{\"Set\":{\"key\":\"b\",\"value\":\"22\"}}"
            .to_vec(),
    );
    dir.insert(
        "2.Error".to_string(),
        b"{\"Set\":{\"key\":\"a\",\"value\":\"333\"}}{\"Remove\":{\"key\":\"b\"}}".to_vec(),
    );
    dir.insert("3.Error".to_string(), b"{\"Set\":{\"key\":\"a\",\"value\":\"4\"}}".to_vec());
    let engine = Engine::open(dir).unwrap();
    assert_eq!(engine.store.current_gen(), 4);
    assert_eq!(engine.store.uncompacted(), 31 + 32 + 33);
    assert_eq!(engine.get("a").unwrap(), Some("4".to_string()));
    assert_eq!(engine.get("b").unwrap(), None);
}

#[test]
fn stale_bytes_of_earlier_sessions_count_toward_compaction() {
    let value = "X".repeat(2048);
    let mut engine = Engine::open(Dir::new()).unwrap();
    let mut sets = 0u64;
    for session in 0..4u64 {
        for _ in 0..600 {
            engine.set("key", &value).unwrap();
            sets += 1;
        }
        if session < 3 {
            assert_eq!(engine.store.uncompacted(), (sets - 1) * 2080);
            assert!(engine.store.uncompacted() < COMPACTION_THRESHOLD);
            assert_eq!(engine.store.current_gen(), session + 1);
            engine = Engine::open(engine.close()).unwrap();
            assert_eq!(engine.store.uncompacted(), (sets - 1) * 2080);
        }
    }
    assert!(engine.store.current_gen() > 4);
    assert!(engine.store.uncompacted() < COMPACTION_THRESHOLD);
    assert!(engine.disk_size() < COMPACTION_THRESHOLD as usize + 2 * 2080);
    assert_eq!(engine.get("key").unwrap(), Some(value));
}

#[test]
fn reopen_after_ten_thousand_sets() {
    let mut engine = Engine::open(Dir::new()).unwrap();
    for i in 0..10_000 {
        engine.set(&format!("key{}", i), &format!("v{}", i)).unwrap();
    }
    let engine = Engine::open(engine.close()).unwrap();
    assert_eq!(engine.store.len(), 10_000);
    for i in 0..10_000 {
        assert_eq!(engine.get(&format!("key{}", i)).unwrap(), Some(format!("v{}", i)));
    }
    assert_eq!(engine.get("key10000").unwrap(), None);
    assert_eq!(engine.get("unknown").unwrap(), None);
}

#[test]
fn overwrites_trigger_compaction() {
    let value = "X".repeat(2048);
    let mut engine = Engine::open(Dir::new()).unwrap();
    let mut compacted = false;
    for _ in 0..5_000 {
        let gen = engine.store.current_gen();
        engine.set("key", &value).unwrap();
        assert!(engine.disk_size() <= 8 * 1024 * 1024);
        if engine.store.current_gen() != gen {
            compacted = true;
            assert_eq!(engine.store.uncompacted(), 0);
            assert_eq!(engine.dir.len(), 2);
            assert_eq!(engine.disk_size(), 14 + 5 + 9 + 2050 + 2);
        }
        assert!(engine.store.uncompacted() < COMPACTION_THRESHOLD);
    }
    assert!(compacted);
    assert_eq!(engine.store.len(), 1);
    assert_eq!(engine.get("key").unwrap(), Some(value.clone()));

    let engine = Engine::open(engine.close()).unwrap();
    assert_eq!(engine.store.len(), 1);
    assert_eq!(engine.get("key").unwrap(), Some(value));
}

#[test]
fn empty_store_reopens() {
    let engine = Engine::open(Dir::new()).unwrap();
    assert_eq!(engine.store.current_gen(), 1);
    let dir = engine.close();
    assert_eq!(dir.keys().cloned().collect::<Vec<String>>(), vec!["1.Error".to_string()]);
    assert!(dir["1.Error"].is_empty());

    let engine = Engine::open(dir).unwrap();
    assert_eq!(engine.store.current_gen(), 2);
    assert_eq!(engine.store.len(), 0);
    assert_eq!(engine.get("a").unwrap(), None);
}

#[test]
fn compaction_keeps_the_mapping() {
    let mut engine = Engine::open(Dir::new()).unwrap();
    engine.set("a", "1").unwrap();
    engine.set("b", "2").unwrap();
    engine.set("a", "3").unwrap();
    engine.set("c", "4").unwrap();
    engine.remove("b").unwrap();
    let keys = ["a", "b", "c", "d"];
    let before = engine.mapping(&keys);

    engine.compact().unwrap();
    assert_eq!(engine.mapping(&keys), before);
    engine.compact().unwrap();
    engine.compact().unwrap();
    assert_eq!(engine.mapping(&keys), before);

    let engine = Engine::open(engine.close()).unwrap();
    assert_eq!(engine.mapping(&keys), before);
}

#[test]
fn compaction_leaves_only_live_records() {
    let mut engine = Engine::open(Dir::new()).unwrap();
    engine.set("a", "1").unwrap();
    engine.set("b", "2").unwrap();
    engine.set("a", "33").unwrap();
    engine.remove("b").unwrap();
    engine.set("c", "4").unwrap();
    assert_eq!(engine.store.uncompacted(), 31 + 31);

    engine.compact().unwrap();
    assert_eq!(engine.store.current_gen(), 3);
    assert_eq!(engine.store.pos(), 0);
    assert_eq!(engine.store.uncompacted(), 0);
    assert_eq!(
        engine.dir.keys().cloned().collect::<Vec<String>>(),
        vec!["2.Error".to_string(), "3.Error".to_string()]
    );
    assert_eq!(
        engine.segment(2).as_slice(),
        "{\"Set\":{\"key\":\"a\",\"value\":\"33\"}}{\"Set\":{\"key\":\"c\",\"value\":\"4\"}}"
            .as_bytes()
    );
    assert!(engine.segment(3).is_empty());
    let a = engine.store.locate(&"a".to_string()).unwrap();
    let c = engine.store.locate(&"c".to_string()).unwrap();
    assert_eq!((a.gen, a.pos, a.len), (2, 0, 32));
    assert_eq!((c.gen, c.pos, c.len), (2, 32, 31));
    assert_eq!(engine.disk_size(), 63);
}

#[test]
fn writes_after_compaction_go_to_the_new_active_segment() {
    let mut engine = Engine::open(Dir::new()).unwrap();
    engine.set("a", "1").unwrap();
    engine.compact().unwrap();
    engine.set("b", "2").unwrap();
    let b = engine.store.locate(&"b".to_string()).unwrap();
    assert_eq!((b.gen, b.pos, b.len), (3, 0, 31));
    assert_eq!(engine.get("a").unwrap(), Some("1".to_string()));
    assert_eq!(engine.get("b").unwrap(), Some("2".to_string()));
}

#[test]
fn strings_with_escapes_come_back_unchanged() {
    let mut engine = Engine::open(Dir::new()).unwrap();
    let key = "quote\" backslash\\ newline\n tab\t";
    let value = "control\u{1} snowman\u{2603} emoji\u{1F600} }} {\"Set\":";
    engine.set(key, value).unwrap();
    engine.set("", "").unwrap();
    assert_eq!(engine.get(key).unwrap(), Some(value.to_string()));
    assert_eq!(engine.get("").unwrap(), Some(String::new()));

    let engine = Engine::open(engine.close()).unwrap();
    assert_eq!(engine.get(key).unwrap(), Some(value.to_string()));
    assert_eq!(engine.get("").unwrap(), Some(String::new()));
}

#[test]
fn open_replays_in_ascending_generation() {
    let mut dir = Dir::new();
    dir.insert("10.Error".to_string(), b"{\"Set\":{\"key\":\"a\",\"value\":\"new\"}}".to_vec());
    dir.insert("9.Error".to_string(), b"{\"Set\":{\"key\":\"a\",\"value\":\"old\"}}".to_vec());
    dir.insert("notes.txt".to_string(), b"not a segment".to_vec());
    dir.insert("09.Error".to_string(), b"not a segment either".to_vec());
    let engine = Engine::open(dir).unwrap();
    assert_eq!(engine.store.current_gen(), 11);
    assert_eq!(engine.get("a").unwrap(), Some("new".to_string()));
    let a = engine.store.locate(&"a".to_string()).unwrap();
    assert_eq!((a.gen, a.pos, a.len), (10, 0, 33));
}

#[test]
fn open_fails_on_a_truncated_record() {
    let mut dir = Dir::new();
    dir.insert(
        "1.Error".to_string(),
        b"{\"Set\":{\"key\":\"a\",\"value\":\"1\"}}{\"Set\":{\"ke".to_vec(),
    );
    assert!(matches!(Engine::open(dir), Err(KvsError::Serde)));
}

#[test]
fn open_fails_where_no_generation_is_left() {
    let mut dir = Dir::new();
    dir.insert("18446744073709551615.Error".to_string(), Vec::new());
    assert!(matches!(Engine::open(dir), Err(KvsError::Overflow)));
}

#[test]
fn compact_fails_where_no_two_generations_are_left() {
    let mut dir = Dir::new();
    dir.insert("18446744073709551613.Error".to_string(), Vec::new());
    let mut engine = Engine::open(dir).unwrap();
    assert_eq!(engine.store.current_gen(), u64::MAX - 1);
    engine.set("a", "1").unwrap();
    assert!(matches!(engine.store.compact(), Err(KvsError::Overflow)));
    assert_eq!(engine.get("a").unwrap(), Some("1".to_string()));
}

#[test]
fn read_value_rejects_what_is_not_a_set_record() {
    assert_eq!(
        KvStore::read_value(b"{\"Set\":{\"key\":\"a\",\"value\":\"1\"}}"),
        Ok("1".to_string())
    );
    assert_eq!(KvStore::read_value(b"{\"Remove\":{\"key\":\"a\"}}"), Err(KvsError::Corruption));
    assert_eq!(KvStore::read_value(b"{\"Set\":{\"key\":\"a\",\"val"), Err(KvsError::Corruption));
    assert_eq!(
        KvStore::read_value(b"{\"Set\":{\"key\":\"a\",\"value\":\"1\"}} "),
        Err(KvsError::Corruption)
    );
    assert_eq!(KvStore::read_value(b""), Err(KvsError::Corruption));
}

#[test]
fn a_write_prepared_before_another_commit_is_stale() {
    let mut engine = Engine::open(Dir::new()).unwrap();
    let first = engine.store.set("a".to_string(), "1".to_string()).unwrap();
    let second = engine.store.set("b".to_string(), "2".to_string()).unwrap();
    assert_eq!(engine.store.commit(first), Ok(false));
    assert_eq!(engine.store.commit(second), Err(KvsError::Stale));
    assert_eq!(engine.store.len(), 1);
    assert_eq!(engine.store.pos(), 31);
}

#[test]
fn a_plan_made_before_a_commit_is_stale() {
    let mut engine = Engine::open(Dir::new()).unwrap();
    engine.set("a", "1").unwrap();
    let plan = engine.store.compact().unwrap();
    engine.set("b", "2").unwrap();
    assert_eq!(engine.store.install(&plan), Err(KvsError::Stale));
    assert_eq!(engine.store.current_gen(), 1);
    assert_eq!(engine.get("a").unwrap(), Some("1".to_string()));
    assert_eq!(engine.get("b").unwrap(), Some("2".to_string()));

    let plan = engine.store.compact().unwrap();
    assert_eq!(plan.compact_gen(), 2);
    assert_eq!(plan.active_gen(), 3);
    assert_eq!(plan.copies().len(), 2);
    assert_eq!(plan.stale(&vec![1, 2, 3, 7]), vec![1]);
}
