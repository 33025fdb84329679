use kvs::reader::KvStoreReader;
use std::cell::Cell;

#[test]
fn read_opens_a_reader_once() {
    let opened = Cell::new(0);
    let mut pool: KvStoreReader<Vec<u8>> = KvStoreReader::new();
    assert!(!pool.contains(3));

    let first: Result<u8, String> = pool.read(
        3,
        |gen| {
            opened.set(opened.get() + 1);
            Ok(vec![gen as u8, 10, 20])
        },
        |reader| {
            let byte = reader[1];
            (reader, byte)
        },
    );
    assert_eq!(first, Ok(10));
    assert!(pool.contains(3));
    assert_eq!(opened.get(), 1);

    let second: Result<u8, String> = pool.read(
        3,
        |_| {
            opened.set(opened.get() + 1);
            Ok(vec![])
        },
        |reader| {
            let byte = reader[0];
            (reader, byte)
        },
    );
    assert_eq!(second, Ok(3));
    assert_eq!(opened.get(), 1);
}

#[test]
fn read_keeps_what_the_reader_has_become() {
    let mut pool: KvStoreReader<u32> = KvStoreReader::new();
    pool.add_reader(1, 5);
    let seen: Result<u32, ()> = pool.read(1, |_| Err(()), |cursor| (cursor + 1, cursor));
    assert_eq!(seen, Ok(5));
    let seen: Result<u32, ()> = pool.read(1, |_| Err(()), |cursor| (cursor + 1, cursor));
    assert_eq!(seen, Ok(6));
}

#[test]
fn a_failed_open_leaves_the_pool_as_it_is() {
    let mut pool: KvStoreReader<u32> = KvStoreReader::new();
    pool.add_reader(1, 5);
    let failed: Result<u32, String> =
        pool.read(2, |gen| Err(format!("no segment {}", gen)), |cursor| (cursor, cursor));
    assert_eq!(failed, Err("no segment 2".to_string()));
    assert!(pool.contains(1));
    assert!(!pool.contains(2));
}

#[test]
fn add_and_remove_reader() {
    let mut pool: KvStoreReader<&str> = KvStoreReader::new();
    pool.add_reader(1, "one");
    pool.add_reader(2, "two");
    pool.add_reader(1, "uno");
    assert!(pool.contains(1));
    assert!(pool.contains(2));
    let seen: Result<&str, ()> = pool.read(1, |_| Err(()), |reader| (reader, reader));
    assert_eq!(seen, Ok("uno"));

    pool.remove_reader(1);
    assert!(!pool.contains(1));
    assert!(pool.contains(2));
    pool.remove_reader(1);
    pool.remove_reader(7);
    assert!(pool.contains(2));
}
