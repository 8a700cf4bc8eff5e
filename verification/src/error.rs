//! Custom error types.

use vstd::prelude::*;
use vstd::string::StringExecFns;

verus! {

#[verifier::external_type_specification]
#[verifier::external_body]
pub struct ExIoError(std::io::Error);

/// Errors of the library.
#[derive(Debug)]
pub enum Error {
    /// The version number is not a supported NBS version.
    InvalidVersion(String),
    /// The panning value lies outside -100..=100.
    InvalidPanning(String),
    /// The volume value lies outside 0..=100.
    InvalidVolume(String),
    /// Reading or writing failed.
    Io(std::io::Error),
    /// An integer did not fit its target type.
    TryFromIntError(std::num::TryFromIntError),
}

pub type Result<T> = std::result::Result<T, Error>;

/// The decimal digit `d` as a character.
pub open spec fn digit_char(d: int) -> char {
    (48 + d) as char
}

/// The decimal representation of `n` (no leading zeros).
pub open spec fn decimal(n: nat) -> Seq<char>
    decreases n,
{
    if n < 10 {
        seq![digit_char(n as int)]
    } else {
        decimal(n / 10).push(digit_char((n % 10) as int))
    }
}

/// The decimal representation of a signed number, with `-` for negatives.
pub open spec fn signed_decimal(n: int) -> Seq<char> {
    if n < 0 {
        seq!['-'] + decimal((-n) as nat)
    } else {
        decimal(n as nat)
    }
}

/// Appends the digit `d` to `s`.
fn push_digit(s: &mut String, d: u8)
    requires
        d < 10,
    ensures
        final(s)@ == old(s)@.push(digit_char(d as int)),
{
    proof {
        reveal_strlit("0");
        reveal_strlit("1");
        reveal_strlit("2");
        reveal_strlit("3");
        reveal_strlit("4");
        reveal_strlit("5");
        reveal_strlit("6");
        reveal_strlit("7");
        reveal_strlit("8");
        reveal_strlit("9");
    }
    let text = match d {
        0 => "0",
        1 => "1",
        2 => "2",
        3 => "3",
        4 => "4",
        5 => "5",
        6 => "6",
        7 => "7",
        8 => "8",
        _ => "9",
    };
    s.append(text);
}

/// Appends the decimal representation of `n` to `s`.
fn push_decimal(s: &mut String, n: u8)
    ensures
        final(s)@ == old(s)@ + decimal(n as nat),
{
    if n >= 100 {
        push_digit(s, n / 100);
    }
    if n >= 10 {
        push_digit(s, (n / 10) % 10);
    }
    push_digit(s, n % 10);
    proof {
        let a = n as nat;
        if a >= 100 {
            assert(decimal(a / 100) == seq![digit_char((a / 100) as int)]);
            assert(decimal(a / 10) == seq![digit_char((a / 100) as int), digit_char(((a / 10) % 10) as int)]) by {
                assert((a / 10) / 10 == a / 100);
            }
        } else if a >= 10 {
            assert(decimal(a / 10) == seq![digit_char(((a / 10) % 10) as int)]);
        }
        assert(final(s)@ =~= old(s)@ + decimal(a));
    }
}

/// The decimal representation of an unsigned byte.
pub fn u8_to_string(n: u8) -> (r: String)
    ensures
        r@ == decimal(n as nat),
{
    let mut s = String::new();
    push_decimal(&mut s, n);
    proof {
        assert(s@ =~= decimal(n as nat));
    }
    s
}

/// The decimal representation of a signed byte.
pub fn i8_to_string(n: i8) -> (r: String)
    ensures
        r@ == signed_decimal(n as int),
{
    let mut s = String::new();
    if n < 0 {
        proof {
            reveal_strlit("-");
        }
        s.append("-");
        let magnitude: u8 = if n == -128 {
            128
        } else {
            (-n) as u8
        };
        push_decimal(&mut s, magnitude);
    } else {
        push_decimal(&mut s, n as u8);
    }
    proof {
        assert(s@ =~= signed_decimal(n as int));
    }
    s
}


/// The text of an I/O error, as its `Display` renders it.
#[verifier::external_body]
fn io_error_text(e: &std::io::Error) -> String {
    format!("{}", e)
}

/// The text of an integer conversion error, as its `Display` renders it.
#[verifier::external_body]
fn conversion_error_text(e: &std::num::TryFromIntError) -> String {
    format!("{}", e)
}

impl Error {
    /// The message of a range error: the description, the offending value
    /// and, for panning and volume, the accepted range.
    pub open spec fn spec_message(&self) -> Option<Seq<char>> {
        match self {
            Error::InvalidVersion(v) => Some("Invalid or unsupported version: "@ + v@),
            Error::InvalidPanning(v) => Some("Invalid panning value: "@ + v@ + " (must be -100 to 100)"@),
            Error::InvalidVolume(v) => Some("Invalid velocity value: "@ + v@ + " (must be 0-100)"@),
            _ => None,
        }
    }

    /// The message of the error. An I/O error gives its own text; an integer
    /// conversion error its own text after "Integer conversion error: ".
    pub fn message(&self) -> (r: String)
        ensures
            self.spec_message() matches Some(m) ==> r@ == m,
    {
        match self {
            Error::InvalidVersion(v) => {
                let mut s = String::from_str("Invalid or unsupported version: ");
                s.append(v.as_str());
                s
            },
            Error::InvalidPanning(v) => {
                let mut s = String::from_str("Invalid panning value: ");
                s.append(v.as_str());
                s.append(" (must be -100 to 100)");
                s
            },
            Error::InvalidVolume(v) => {
                let mut s = String::from_str("Invalid velocity value: ");
                s.append(v.as_str());
                s.append(" (must be 0-100)");
                s
            },
            Error::Io(e) => io_error_text(e),
            Error::TryFromIntError(e) => {
                let mut s = String::from_str("Integer conversion error: ");
                let text = conversion_error_text(e);
                s.append(text.as_str());
                s
            },
        }
    }
}

} // verus!
