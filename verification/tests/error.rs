//! What errors say.

use cfggraft::Error;
use std::io;

#[test]
fn io_errors_name_the_path() {
    let e = Error::io(
        "settings.json",
        io::Error::new(io::ErrorKind::NotFound, "nope"),
    );
    assert!(
        e.to_string().starts_with("settings.json: "),
        "got: {}",
        e.to_string()
    );
}

#[test]
fn invalid_errors_are_the_message_alone() {
    assert_eq!(Error::invalid("no end marker").to_string(), "no end marker");
}

#[test]
fn io_errors_say_what_went_wrong() {
    let e = Error::io("a", io::Error::new(io::ErrorKind::Other, "nope"));
    assert_eq!(e.to_string(), "a: nope");
}

#[test]
fn parse_errors_name_the_path_and_the_message() {
    let e = Error::parse("a.json", "expected value");
    assert_eq!(e.to_string(), "a.json: expected value");
    assert!(matches!(e, Error::Parse { .. }));
}
