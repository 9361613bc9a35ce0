//! How a message is laid out on one line of a terminal.

use vstd::prelude::*;
use vstd::string::StringSliceAdditionalSpecFns;

verus! {

/// The digit for `d`, which is below ten.
pub open spec fn digit(d: nat) -> Seq<char> {
    if d == 0 {
        "0"@
    } else if d == 1 {
        "1"@
    } else if d == 2 {
        "2"@
    } else if d == 3 {
        "3"@
    } else if d == 4 {
        "4"@
    } else if d == 5 {
        "5"@
    } else if d == 6 {
        "6"@
    } else if d == 7 {
        "7"@
    } else if d == 8 {
        "8"@
    } else {
        "9"@
    }
}

/// `n` in decimal digits, without leading zeros.
pub open spec fn decimal(n: nat) -> Seq<char>
    decreases n,
{
    if n < 10 {
        digit(n)
    } else {
        decimal(n / 10) + digit(n % 10)
    }
}

/// The control sequence that moves the cursor `n` columns to the right.
pub open spec fn cursor_right(n: nat) -> Seq<char> {
    "\x1b["@ + decimal(n) + "C"@
}

/// The control sequence that moves the cursor `n` columns to the left.
pub open spec fn cursor_left(n: nat) -> Seq<char> {
    "\x1b["@ + decimal(n) + "D"@
}

/// The line for a message on a terminal `columns` wide: the author and the
/// text at the left, then the cursor is sent to the right edge and back by
/// the width of the time and one more, and the time follows in brackets.
pub open spec fn message_line_of(
    author: Seq<char>,
    body: Seq<char>,
    time: Seq<char>,
    time_width: nat,
    columns: u16,
) -> Seq<char> {
    author + ": "@ + body + cursor_right(columns as nat) + cursor_left(time_width + 1) + "("@ + time
        + ")"@
}

/// The digit for `d`.
fn digit_text(d: u16) -> (text: &'static str)
    requires
        d < 10,
    ensures
        text@ == digit(d as nat),
{
    if d == 0 {
        "0"
    } else if d == 1 {
        "1"
    } else if d == 2 {
        "2"
    } else if d == 3 {
        "3"
    } else if d == 4 {
        "4"
    } else if d == 5 {
        "5"
    } else if d == 6 {
        "6"
    } else if d == 7 {
        "7"
    } else if d == 8 {
        "8"
    } else {
        "9"
    }
}

/// `n` in decimal digits.
pub fn decimal_text(n: u16) -> (text: String)
    ensures
        text@ == decimal(n as nat),
    decreases n,
{
    if n < 10 {
        String::from_str(digit_text(n))
    } else {
        decimal_text(n / 10).concat(digit_text(n % 10))
    }
}

/// The line for a message by `author` with the text `body`, written at
/// `time`, on a terminal `columns` wide.
pub fn message_line(author: &str, body: &str, time: &str, columns: u16) -> (line: String)
    requires
        time.spec_bytes().len() < u16::MAX,
    ensures
        line@ == message_line_of(author@, body@, time@, time.spec_bytes().len(), columns),
{
    let width = time.as_bytes().len();
    let offset: u16 = width as u16 + 1;
    let mut line = String::from_str(author);
    line.append(": ");
    line.append(body);
    line.append("\x1b[");
    line.append(decimal_text(columns).as_str());
    line.append("C");
    line.append("\x1b[");
    line.append(decimal_text(offset).as_str());
    line.append("D");
    line.append("(");
    line.append(time);
    line.append(")");
    assert(line@ =~= message_line_of(author@, body@, time@, time.spec_bytes().len(), columns));
    line
}

} // verus!
