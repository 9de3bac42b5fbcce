use kvs::{file_id_of, log_file_name, sorted_file_ids};

#[test]
fn log_file_names() {
    assert_eq!(log_file_name(0), "data_0.txt");
    assert_eq!(log_file_name(42), "data_42.txt");
    assert_eq!(log_file_name(u64::MAX), "data_18446744073709551615.txt");
}

#[test]
fn file_ids_are_read_from_names() {
    assert_eq!(file_id_of("data_12.txt"), Some(12));
    assert_eq!(file_id_of("data_007.txt"), Some(7));
    assert_eq!(file_id_of("data_+7.txt"), Some(7));
    assert_eq!(file_id_of("data_data_3.txt.txt"), Some(3));
    assert_eq!(file_id_of("5"), Some(5));
    assert_eq!(file_id_of("data_18446744073709551615.txt"), Some(u64::MAX));
    assert_eq!(file_id_of("data_18446744073709551616.txt"), None);
    assert_eq!(file_id_of("data_-1.txt"), None);
    assert_eq!(file_id_of("data_.txt"), None);
    assert_eq!(file_id_of("data_+.txt"), None);
    assert_eq!(file_id_of("notes.txt"), None);
    assert_eq!(file_id_of("data_1a.txt"), None);
    assert_eq!(file_id_of("data_１.txt"), None);
}

#[test]
fn names_round_trip() {
    for id in [0u64, 1, 9, 10, 99, 100, 123456789, u64::MAX] {
        assert_eq!(file_id_of(&log_file_name(id)), Some(id));
    }
}

#[test]
fn ids_come_sorted() {
    let names: Vec<String> = ["data_10.txt", "junk.txt", "data_2.txt", "data_02.txt", "data_0.txt"]
        .iter()
        .map(|s| s.to_string())
        .collect();
    assert_eq!(sorted_file_ids(&names), vec![0, 2, 2, 10]);
    assert_eq!(sorted_file_ids(&Vec::new()), Vec::<u64>::new());
}
