//! Log file naming: rendering a version, parsing a directory listing, and
//! the round trip between them.

use kvs::{log_path, version_list};

#[test]
fn log_path_renders_decimal_and_extension() {
    assert_eq!(log_path(0), String::from("0.log"));
    assert_eq!(log_path(7), String::from("7.log"));
    assert_eq!(log_path(42), String::from("42.log"));
    assert_eq!(log_path(18446744073709551615), String::from("18446744073709551615.log"));
}

#[test]
fn version_list_parses_and_sorts() {
    let names = vec![
        String::from("12.log"),
        String::from("3.log"),
        String::from("7.log"),
    ];
    assert_eq!(version_list(&names), vec![3, 7, 12]);
}

#[test]
fn version_list_ignores_foreign_names() {
    let names = vec![
        String::from("2.log"),
        String::from("notes.txt"),
        String::from("x7.log"),
        String::from(".log"),
        String::from("9.log.bak"),
        String::from("99999999999999999999999.log"),
        String::from("1.log"),
    ];
    assert_eq!(version_list(&names), vec![1, 2]);
}

#[test]
fn version_list_merges_duplicates() {
    // Leading zeros name the same version; the list holds it once.
    let names = vec![String::from("07.log"), String::from("7.log")];
    assert_eq!(version_list(&names), vec![7]);
}

#[test]
fn names_round_trip_through_the_listing() {
    let names: Vec<String> = vec![5, 1, 30].into_iter().map(log_path).collect();
    assert_eq!(version_list(&names), vec![1, 5, 30]);
}
