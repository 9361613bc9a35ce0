use chat::display::{decimal_text, message_line};

#[test]
fn decimal_digits() {
    assert_eq!(decimal_text(0), "0");
    assert_eq!(decimal_text(7), "7");
    assert_eq!(decimal_text(10), "10");
    assert_eq!(decimal_text(105), "105");
    assert_eq!(decimal_text(9999), "9999");
    assert_eq!(decimal_text(65535), "65535");
    for n in [1u16, 42, 80, 100, 1000, 12345, 60000] {
        assert_eq!(decimal_text(n), n.to_string());
    }
}

#[test]
fn line_of_a_message() {
    assert_eq!(
        message_line("alice", "hi there", "12:34", 80),
        "alice: hi there\x1b[80C\x1b[6D(12:34)"
    );
    assert_eq!(message_line("", "", "", 0), ": \x1b[0C\x1b[1D()");
}

#[test]
fn line_of_a_message_moves_the_cursor_as_termion_does() {
    let expected = format!(
        "{}: {}{}{}({})",
        "bob",
        "grüß dich",
        termion::cursor::Right(132),
        termion::cursor::Left(6),
        "09:05"
    );
    assert_eq!(message_line("bob", "grüß dich", "09:05", 132), expected);
}
