use z1::console::{parse, Command};

#[test]
fn blank_lines_are_skipped() {
    assert!(matches!(parse(""), Command::Skip));
    assert!(matches!(parse(" \t\r\n"), Command::Skip));
}

#[test]
fn commands_are_recognised_without_the_space_around_them() {
    assert!(matches!(parse("/exit\n"), Command::Exit));
    assert!(matches!(parse("  /quit"), Command::Exit));
    assert!(matches!(parse("/reset \n"), Command::Reset));
}

#[test]
fn everything_else_is_a_message() {
    match parse("  /exits now \n") {
        Command::Chat(m) => assert_eq!(m, "/exits now"),
        _ => panic!("not a message"),
    }
    match parse("Hello there\n") {
        Command::Chat(m) => assert_eq!(m, "Hello there"),
        _ => panic!("not a message"),
    }
}
