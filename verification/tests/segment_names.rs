use kvs::segment::{db_path, generations, parse_generation, segment_file_name};

#[test]
fn segment_file_name_is_decimal_and_extension() {
    assert_eq!(segment_file_name(1), "1.Error");
    assert_eq!(segment_file_name(42), "42.Error");
    assert_eq!(segment_file_name(u64::MAX), "18446744073709551615.Error");
}

#[test]
fn db_path_joins_directory_and_name() {
    assert_eq!(db_path("/tmp/store/kvs.db", 7), "/tmp/store/kvs.db/7.Error");
}

#[test]
fn parse_generation_accepts_only_segment_names() {
    assert_eq!(parse_generation("1.Error"), Some(1));
    assert_eq!(parse_generation("18446744073709551615.Error"), Some(u64::MAX));
    assert_eq!(parse_generation("18446744073709551616.Error"), None);
    assert_eq!(parse_generation("0.Error"), None);
    assert_eq!(parse_generation("007.Error"), None);
    assert_eq!(parse_generation("+7.Error"), None);
    assert_eq!(parse_generation("7.Error.Error"), None);
    assert_eq!(parse_generation("7.log"), None);
    assert_eq!(parse_generation(".Error"), None);
    assert_eq!(parse_generation("x.Error"), None);
    assert_eq!(parse_generation(""), None);
}

#[test]
fn generations_are_sorted_and_skip_other_files() {
    let names = vec![
        "10.Error".to_string(),
        "notes.txt".to_string(),
        "2.Error".to_string(),
        "1.Error".to_string(),
        "abc.Error".to_string(),
        "2.Error".to_string(),
    ];
    assert_eq!(generations(&names), vec![1, 2, 10]);
    assert_eq!(generations(&Vec::new()), Vec::<u64>::new());
}
