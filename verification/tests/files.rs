use nvme_state_db::files::{list_sst_files, sst_file_name, sst_id};

#[test]
fn names_have_six_digits_or_more() {
    assert_eq!(sst_file_name(1), "000001.sst");
    assert_eq!(sst_file_name(999_999), "999999.sst");
    assert_eq!(sst_file_name(1_234_567), "1234567.sst");
    assert_eq!(sst_file_name(u64::MAX), "18446744073709551615.sst");
}

#[test]
fn names_say_their_number() {
    for id in [0, 1, 42, 999_999, 1_000_000, u64::MAX] {
        assert_eq!(sst_id(&sst_file_name(id)), Some(id));
    }
    assert_eq!(sst_id("7.sst"), Some(7));
    assert_eq!(sst_id("0007.sst"), Some(7));
}

#[test]
fn other_names_are_ignored() {
    for name in [
        "",
        "wal",
        ".sst",
        "a.sst",
        "1a.sst",
        "+1.sst",
        "-1.sst",
        "1.SST",
        "1.sst.tmp",
        "18446744073709551616.sst",
        "ñ.sst",
    ] {
        assert_eq!(sst_id(name), None, "{name}");
    }
}

#[test]
fn files_come_in_the_order_of_their_numbers() {
    let names: Vec<String> = ["000010.sst", "wal", "000002.sst", "x.sst", "2.sst", "1.sst"]
        .iter()
        .map(|name| name.to_string())
        .collect();
    let files = list_sst_files(&names);
    let expected: Vec<(u64, String)> = vec![
        (1, "1.sst".to_string()),
        (2, "000002.sst".to_string()),
        (2, "2.sst".to_string()),
        (10, "000010.sst".to_string()),
    ];
    assert_eq!(files, expected);
}
