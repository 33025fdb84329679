use kvs::error::KvsError;
use kvs::index::{CommandOffset, Index};
use kvs::writer::{KvStoreWriter, PosBufWriter, COMPACTION_THRESHOLD};

#[test]
fn the_threshold_is_four_mebibytes() {
    assert_eq!(COMPACTION_THRESHOLD, 4 * 1024 * 1024);
    assert_eq!(COMPACTION_THRESHOLD, 4_194_304);
}

#[test]
fn the_position_follows_the_bytes_written() {
    let mut writer = PosBufWriter::new(100);
    assert_eq!(writer.pos(), 100);
    assert_eq!(writer.write(23), Ok(23));
    assert_eq!(writer.pos(), 123);
    assert_eq!(writer.write(0), Ok(0));
    assert_eq!(writer.pos(), 123);
    assert_eq!(writer.seek(7), 7);
    assert_eq!(writer.pos(), 7);
}

#[test]
fn the_position_does_not_leave_the_range() {
    let mut writer = PosBufWriter::new(u64::MAX - 3);
    assert_eq!(writer.write(4), Err(KvsError::Overflow));
    assert_eq!(writer.pos(), u64::MAX - 3);
    assert_eq!(writer.write(3), Ok(3));
    assert_eq!(writer.pos(), u64::MAX);
}

#[test]
fn a_new_writer_has_nothing_stale() {
    let writer = KvStoreWriter::new(PosBufWriter::new(40), 6);
    assert_eq!(writer.current_gen(), 6);
    assert_eq!(writer.pos(), 40);
    assert_eq!(writer.uncompacted(), 0);
}

#[test]
fn a_write_lies_at_the_end_of_the_active_segment() {
    let writer = KvStoreWriter::new(PosBufWriter::new(40), 6);
    let write = writer.set("a".to_string(), "1".to_string()).unwrap();
    assert_eq!(write.offset(), CommandOffset { gen: 6, pos: 40, len: 31 });
    assert_eq!(write.bytes().as_slice(), b"{\"Set\":{\"key\":\"a\",\"value\":\"1\"}}");
    assert_eq!(writer.pos(), 40);
}

#[test]
fn commit_moves_the_position_and_the_index() {
    let mut writer = KvStoreWriter::new(PosBufWriter::new(40), 6);
    let mut index = Index::new();
    let write = writer.set("a".to_string(), "1".to_string()).unwrap();
    assert_eq!(writer.commit(&mut index, write), Ok(false));
    assert_eq!(writer.pos(), 71);
    assert_eq!(writer.uncompacted(), 0);
    assert_eq!(index.get(&"a".to_string()), Some(CommandOffset { gen: 6, pos: 40, len: 31 }));

    let write = writer.remove(&index, "a".to_string()).unwrap();
    assert_eq!(write.offset(), CommandOffset { gen: 6, pos: 71, len: 22 });
    assert_eq!(write.bytes().as_slice(), b"{\"Remove\":{\"key\":\"a\"}}");
    assert_eq!(writer.commit(&mut index, write), Ok(false));
    assert_eq!(writer.pos(), 93);
    assert_eq!(writer.uncompacted(), 31);
    assert_eq!(index.len(), 0);
}

#[test]
fn remove_of_an_absent_key_prepares_nothing() {
    let writer = KvStoreWriter::new(PosBufWriter::new(0), 1);
    let index = Index::new();
    assert!(matches!(writer.remove(&index, "a".to_string()), Err(KvsError::KeyNotFound)));
}

#[test]
fn a_record_must_fit_in_the_segment() {
    let writer = KvStoreWriter::new(PosBufWriter::new(u64::MAX - 30), 1);
    assert!(matches!(writer.set("a".to_string(), "1".to_string()), Err(KvsError::Overflow)));
    let writer = KvStoreWriter::new(PosBufWriter::new(u64::MAX - 31), 1);
    let write = writer.set("a".to_string(), "1".to_string()).unwrap();
    assert_eq!(write.offset(), CommandOffset { gen: 1, pos: u64::MAX - 31, len: 31 });
}

#[test]
fn compaction_is_due_at_the_threshold() {
    let mut writer = KvStoreWriter::new(PosBufWriter::new(0), 1);
    let mut index = Index::new();
    index.insert("a".to_string(), CommandOffset { gen: 1, pos: 0, len: COMPACTION_THRESHOLD - 1 });
    index.insert("b".to_string(), CommandOffset { gen: 1, pos: 0, len: 1 });

    let write = writer.set("a".to_string(), "1".to_string()).unwrap();
    assert_eq!(writer.commit(&mut index, write), Ok(false));
    assert_eq!(writer.uncompacted(), COMPACTION_THRESHOLD - 1);

    let write = writer.set("b".to_string(), "2".to_string()).unwrap();
    assert_eq!(writer.commit(&mut index, write), Ok(true));
    assert_eq!(writer.uncompacted(), COMPACTION_THRESHOLD);
}

#[test]
fn the_count_of_stale_bytes_does_not_leave_the_range() {
    let mut writer = KvStoreWriter::new(PosBufWriter::new(0), 1);
    let mut index = Index::new();
    index.insert("a".to_string(), CommandOffset { gen: 1, pos: 0, len: u64::MAX });
    index.insert("b".to_string(), CommandOffset { gen: 1, pos: 0, len: 1 });

    let write = writer.set("a".to_string(), "1".to_string()).unwrap();
    assert_eq!(writer.commit(&mut index, write), Ok(true));
    assert_eq!(writer.uncompacted(), u64::MAX);

    let write = writer.set("b".to_string(), "2".to_string()).unwrap();
    assert_eq!(writer.commit(&mut index, write), Err(KvsError::Overflow));
    assert_eq!(writer.uncompacted(), u64::MAX);
    assert_eq!(writer.pos(), 31);
    assert_eq!(index.get(&"b".to_string()), Some(CommandOffset { gen: 1, pos: 0, len: 1 }));
}

#[test]
fn a_plan_lists_the_live_records_in_order() {
    let mut writer = KvStoreWriter::new(PosBufWriter::new(500), 3);
    let mut index = Index::new();
    index.insert("a".to_string(), CommandOffset { gen: 1, pos: 100, len: 7 });
    index.insert("b".to_string(), CommandOffset { gen: 3, pos: 50, len: 11 });

    let plan = writer.compact(&index).unwrap();
    assert_eq!(plan.compact_gen(), 4);
    assert_eq!(plan.active_gen(), 5);
    assert_eq!(
        plan.copies(),
        &vec![
            CommandOffset { gen: 1, pos: 100, len: 7 },
            CommandOffset { gen: 3, pos: 50, len: 11 }
        ]
    );
    assert_eq!(plan.stale(&vec![1, 2, 3, 4, 5, 6]), vec![1, 2, 3]);
    assert_eq!(plan.stale(&vec![]), Vec::<u64>::new());
    assert_eq!(writer.current_gen(), 3);

    assert_eq!(writer.install(&mut index, &plan), Ok(()));
    assert_eq!(writer.current_gen(), 5);
    assert_eq!(writer.pos(), 0);
    assert_eq!(writer.uncompacted(), 0);
    assert_eq!(index.get(&"a".to_string()), Some(CommandOffset { gen: 4, pos: 0, len: 7 }));
    assert_eq!(index.get(&"b".to_string()), Some(CommandOffset { gen: 4, pos: 7, len: 11 }));

    assert_eq!(writer.install(&mut index, &plan), Err(KvsError::Stale));
    assert_eq!(writer.current_gen(), 5);
}

#[test]
fn a_plan_for_another_index_is_stale() {
    let mut writer = KvStoreWriter::new(PosBufWriter::new(0), 1);
    let mut index = Index::new();
    index.insert("a".to_string(), CommandOffset { gen: 1, pos: 0, len: 7 });
    let plan = writer.compact(&index).unwrap();
    index.insert("a".to_string(), CommandOffset { gen: 1, pos: 7, len: 7 });
    assert_eq!(writer.install(&mut index, &plan), Err(KvsError::Stale));
    assert_eq!(index.get(&"a".to_string()), Some(CommandOffset { gen: 1, pos: 7, len: 7 }));
    assert_eq!(writer.current_gen(), 1);
}

#[test]
fn no_plan_where_the_live_records_do_not_fit() {
    let writer = KvStoreWriter::new(PosBufWriter::new(0), 1);
    let mut index = Index::new();
    index.insert("a".to_string(), CommandOffset { gen: 1, pos: 0, len: u64::MAX });
    index.insert("b".to_string(), CommandOffset { gen: 1, pos: 0, len: 1 });
    assert!(matches!(writer.compact(&index), Err(KvsError::Overflow)));
    let writer = KvStoreWriter::new(PosBufWriter::new(0), u64::MAX - 1);
    assert!(matches!(writer.compact(&Index::new()), Err(KvsError::Overflow)));
    let writer = KvStoreWriter::new(PosBufWriter::new(0), u64::MAX - 2);
    assert!(writer.compact(&Index::new()).is_ok());
}

#[test]
fn seek_takes_over_the_length_of_the_segment() {
    let mut writer = KvStoreWriter::new(PosBufWriter::new(0), 1);
    writer.seek(17);
    assert_eq!(writer.pos(), 17);
    let write = writer.set("a".to_string(), "1".to_string()).unwrap();
    assert_eq!(write.offset(), CommandOffset { gen: 1, pos: 17, len: 31 });
}

#[test]
fn a_writer_takes_up_a_count_of_stale_bytes() {
    let mut writer = KvStoreWriter::resume(PosBufWriter::new(0), 7, COMPACTION_THRESHOLD - 1);
    assert_eq!(writer.current_gen(), 7);
    assert_eq!(writer.pos(), 0);
    assert_eq!(writer.uncompacted(), COMPACTION_THRESHOLD - 1);
    let mut index = Index::new();
    index.insert("a".to_string(), CommandOffset { gen: 1, pos: 0, len: 1 });
    let write = writer.set("a".to_string(), "1".to_string()).unwrap();
    assert_eq!(writer.commit(&mut index, write), Ok(true));
}
