//! Log-file naming and directory listing.

use kvs::{gen_file_list, parse_gen_name, recover_log};

#[test]
fn recover_log_builds_the_file_path() {
    assert_eq!(recover_log("dir", 0), "dir/0.log");
    assert_eq!(recover_log("dir", 42), "dir/42.log");
    assert_eq!(recover_log("/tmp/kv", 18446744073709551615), "/tmp/kv/18446744073709551615.log");
}

#[test]
fn parse_gen_name_reads_back_what_recover_log_writes() {
    assert_eq!(parse_gen_name("0.log"), Some(0));
    assert_eq!(parse_gen_name("42.log"), Some(42));
    assert_eq!(parse_gen_name("18446744073709551615.log"), Some(18446744073709551615));
}

#[test]
fn parse_gen_name_ignores_other_names() {
    assert_eq!(parse_gen_name("engine"), None);
    assert_eq!(parse_gen_name("42.txt"), None);
    assert_eq!(parse_gen_name("a42.log"), None);
    assert_eq!(parse_gen_name(".log"), None);
    assert_eq!(parse_gen_name("42.log.bak"), None);
    assert_eq!(parse_gen_name("18446744073709551616.log"), None);
}

#[test]
fn gen_file_list_sorts_and_filters() {
    let names = vec![
        "3.log".to_owned(),
        "junk".to_owned(),
        "1.log".to_owned(),
        "engine".to_owned(),
        "2.log".to_owned(),
        "10.log".to_owned(),
    ];
    assert_eq!(gen_file_list(&names), vec![1, 2, 3, 10]);
}

#[test]
fn gen_file_list_deduplicates_equal_generations() {
    let names = vec!["7.log".to_owned(), "07.log".to_owned()];
    assert_eq!(gen_file_list(&names), vec![7]);
}
