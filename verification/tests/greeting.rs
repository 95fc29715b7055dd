use xtask::{greet, Error};

#[test]
fn greets_by_name() {
    assert_eq!(greet("ferris").expect("valid name"), "Hello, ferris!");
}

#[test]
fn rejects_empty_name() {
    assert!(matches!(greet("   "), Err(Error::EmptyName)));
}
