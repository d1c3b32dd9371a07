//! Severity-colored terminal text: ANSI escape rendering with an exact
//! character-level contract.

use vstd::prelude::*;
use crate::metric::Severity;

verus! {

/// Terminal color selector for severity-tagged output.
pub enum Color {
    Red,
    Green,
    Blue,
    Yellow,
    Magenta,
    Cyan,
    Custom(u8),
}

impl Color {
    /// The ANSI SGR code this color renders as.
    pub open spec fn spec_code(&self) -> u8 {
        match self {
            Color::Red => 31,
            Color::Green => 32,
            Color::Blue => 34,
            Color::Yellow => 33,
            Color::Magenta => 35,
            Color::Cyan => 36,
            Color::Custom(code) => *code,
        }
    }

    pub fn code(&self) -> (r: u8)
        ensures
            r == self.spec_code(),
    {
        match self {
            Color::Red => 31,
            Color::Green => 32,
            Color::Blue => 34,
            Color::Yellow => 33,
            Color::Magenta => 35,
            Color::Cyan => 36,
            Color::Custom(code) => *code,
        }
    }
}

/// The decimal digit `d` as a character (meaningful for 0 through 9).
pub open spec fn digit_char(d: int) -> char {
    if d == 0 {
        '0'
    } else if d == 1 {
        '1'
    } else if d == 2 {
        '2'
    } else if d == 3 {
        '3'
    } else if d == 4 {
        '4'
    } else if d == 5 {
        '5'
    } else if d == 6 {
        '6'
    } else if d == 7 {
        '7'
    } else if d == 8 {
        '8'
    } else {
        '9'
    }
}

/// The decimal rendering of a non-negative number, without leading zeros.
pub open spec fn dec_chars(n: int) -> Seq<char>
    decreases n,
{
    if n < 10 {
        seq![digit_char(n)]
    } else {
        dec_chars(n / 10).push(digit_char(n % 10))
    }
}

fn digit_str(d: u8) -> (r: &'static str)
    requires
        d < 10,
    ensures
        r@ == seq![digit_char(d as int)],
{
    proof {
        reveal_strlit("0");
        reveal_strlit("1");
        reveal_strlit("2");
        reveal_strlit("3");
        reveal_strlit("4");
        reveal_strlit("5");
        reveal_strlit("6");
        reveal_strlit("7");
        reveal_strlit("8");
        reveal_strlit("9");
    }
    match d {
        0 => "0",
        1 => "1",
        2 => "2",
        3 => "3",
        4 => "4",
        5 => "5",
        6 => "6",
        7 => "7",
        8 => "8",
        _ => {
            proof {
                assert(d == 9);
            }
            "9"
        },
    }
}

/// Renders a byte in decimal.
fn u8_dec(n: u8) -> (r: String)
    ensures
        r@ == dec_chars(n as int),
{
    if n < 10 {
        let out = String::from_str(digit_str(n));
        proof {
            assert(out@ =~= dec_chars(n as int));
        }
        out
    } else if n < 100 {
        let out = String::from_str(digit_str(n / 10)).concat(digit_str(n % 10));
        proof {
            assert(dec_chars(n as int) == dec_chars(n as int / 10).push(
                digit_char(n as int % 10),
            ));
            assert(out@ =~= dec_chars(n as int));
        }
        out
    } else {
        let hi = n / 100;
        let mid = (n / 10) % 10;
        let out = String::from_str(digit_str(hi)).concat(digit_str(mid)).concat(digit_str(n % 10));
        proof {
            assert(n as int / 10 / 10 == n as int / 100) by (nonlinear_arith);
            assert(dec_chars(n as int) == dec_chars(n as int / 10).push(
                digit_char(n as int % 10),
            ));
            assert(dec_chars(n as int / 10) == dec_chars(n as int / 100).push(
                digit_char((n as int / 10) % 10),
            ));
            assert(n as int / 100 < 10);
            assert(out@ =~= dec_chars(n as int));
        }
        out
    }
}

/// The rendering of `text` wrapped in the ANSI color sequence for `color`.
pub open spec fn spec_color_text(text: Seq<char>, color: Color) -> Seq<char> {
    "\u{1b}["@ + dec_chars(color.spec_code() as int) + "m"@ + text + "\u{1b}[0m"@
}

/// Wraps `text` in the ANSI escape sequence selecting `color`, with a reset
/// at the end.
pub fn color_text(text: &str, color: Color) -> (r: String)
    ensures
        r@ == spec_color_text(text@, color),
{
    let code = color.code();
    let num = u8_dec(code);
    String::from_str("\u{1b}[").concat(num.as_str()).concat("m").concat(text).concat("\u{1b}[0m")
}

/// The color in which a severity renders: green for low, yellow for caution,
/// red for high.
pub fn severity_color(sv: &Severity) -> (r: Color)
    ensures
        sv is Low ==> r is Green,
        sv is Caution ==> r is Yellow,
        sv is High ==> r is Red,
{
    match sv {
        Severity::Low => Color::Green,
        Severity::Caution => Color::Yellow,
        Severity::High => Color::Red,
    }
}

} // verus!
