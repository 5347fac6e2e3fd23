//! Diagnostics as the user reads them.

use vstd::prelude::*;
use vstd::string::StringExecFns;

verus! {

/// The numeral of one decimal digit.
pub open spec fn digit(d: nat) -> Seq<char> {
    if d == 0 {
        "0"@
    } else if d == 1 {
        "1"@
    } else if d == 2 {
        "2"@
    } else if d == 3 {
        "3"@
    } else if d == 4 {
        "4"@
    } else if d == 5 {
        "5"@
    } else if d == 6 {
        "6"@
    } else if d == 7 {
        "7"@
    } else if d == 8 {
        "8"@
    } else {
        "9"@
    }
}

/// A number written in decimal digits, the most significant digit first.
pub open spec fn decimal(n: nat) -> Seq<char>
    decreases n,
{
    if n < 10 {
        digit(n)
    } else {
        decimal(n / 10) + digit(n % 10)
    }
}

/// A diagnostic in one line: the file in square brackets, together with the
/// line number where one is known, and the message behind it. No line number
/// is made up where none is known.
pub open spec fn rendered(filepath: Seq<char>, line: Option<nat>, message: Seq<char>) -> Seq<char> {
    match line {
        Some(n) => "["@ + filepath + ":"@ + decimal(n) + "] "@ + message,
        None => "["@ + filepath + "] "@ + message,
    }
}

fn digit_text(d: usize) -> (r: &'static str)
    requires
        d < 10,
    ensures
        r@ == digit(d as nat),
{
    if d == 0 {
        "0"
    } else if d == 1 {
        "1"
    } else if d == 2 {
        "2"
    } else if d == 3 {
        "3"
    } else if d == 4 {
        "4"
    } else if d == 5 {
        "5"
    } else if d == 6 {
        "6"
    } else if d == 7 {
        "7"
    } else if d == 8 {
        "8"
    } else {
        "9"
    }
}

fn decimal_text(n: usize) -> (r: String)
    ensures
        r@ == decimal(n as nat),
    decreases n,
{
    if n < 10 {
        digit_text(n).to_owned()
    } else {
        let mut text = decimal_text(n / 10);
        text.append(digit_text(n % 10));
        text
    }
}

/// Writes out the diagnostic of a file for the user.
pub fn render(filepath: &str, line_number: Option<usize>, message: &str) -> (r: String)
    ensures
        r@ == rendered(
            filepath@,
            match line_number {
                Some(n) => Some(n as nat),
                None => None,
            },
            message@,
        ),
{
    let mut text = "[".to_owned();
    text.append(filepath);
    match line_number {
        Some(n) => {
            text.append(":");
            let number = decimal_text(n);
            text.append(number.as_str());
        },
        None => {},
    }
    text.append("] ");
    text.append(message);
    text
}

} // verus!
