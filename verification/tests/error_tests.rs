//! The error type and the record constructors.

use kvs::{Command, CommandPos, KvStore, KvsError};

#[test]
fn error_messages_render() {
    assert_eq!(KvsError::KeyNotFound.message(), "Key not found");
    assert_eq!(KvsError::UnexpectedCommandType.message(), "Unexpected command type");
    assert_eq!(KvsError::Io { message: "broken pipe".to_owned() }.message(), "broken pipe");
    assert_eq!(KvsError::Serde { message: "bad json".to_owned() }.message(), "bad json");
    assert_eq!(KvsError::StringError { message: "remote".to_owned() }.message(), "remote");
}

#[test]
fn malformed_log_reports_a_serde_error() {
    let err = match KvStore::open(vec![(1u64, b"{\"Set\":{".to_vec())]) {
        Err(e) => e,
        Ok(_) => panic!("a malformed log must be rejected"),
    };
    assert!(matches!(err, KvsError::Serde { .. }));
}

#[test]
fn command_constructors_build_the_variants() {
    let set = Command::set("k".to_owned(), "v".to_owned());
    assert_eq!(set, Command::SetCmd { key: "k".to_owned(), value: "v".to_owned() });
    let rm = Command::remove("k".to_owned());
    assert_eq!(rm, Command::RmCmd { key: "k".to_owned() });
}

#[test]
fn command_pos_spans_a_byte_range() {
    let p = CommandPos::new(3, 10, 25);
    assert_eq!(p, CommandPos { gen: 3, pos: 10, len: 15 });
}
