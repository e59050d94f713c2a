//! The error type of this crate.
use vstd::prelude::*;

verus! {

/// Enum with all errors in this crate.
#[derive(Debug)]
pub enum GeoIndexError {
    /// General errors
    General(String),
}

/// The error message of a result, if it is an error.
pub open spec fn error_message<T>(r: Result<T, GeoIndexError>) -> Seq<char> {
    match r {
        Err(GeoIndexError::General(s)) => s@,
        Ok(_) => Seq::empty(),
    }
}

/// The decimal digits of `n`, as `format!("{}", n)` writes them.
pub open spec fn decimal(n: nat) -> Seq<char>
    decreases n,
{
    if n < 10 {
        seq![digit_char(n)]
    } else {
        decimal(n / 10).push(digit_char(n % 10))
    }
}

/// The ASCII digit of a value below ten.
pub open spec fn digit_char(d: nat) -> char {
    if d == 0 {
        '0'
    } else if d == 1 {
        '1'
    } else if d == 2 {
        '2'
    } else if d == 3 {
        '3'
    } else if d == 4 {
        '4'
    } else if d == 5 {
        '5'
    } else if d == 6 {
        '6'
    } else if d == 7 {
        '7'
    } else if d == 8 {
        '8'
    } else {
        '9'
    }
}

/// A message that embeds two numbers: `prefix`, `a`, `middle`, `b`, `suffix`.
pub open spec fn two_number_message(
    prefix: Seq<char>,
    a: nat,
    middle: Seq<char>,
    b: nat,
    suffix: Seq<char>,
) -> Seq<char> {
    prefix + decimal(a) + middle + decimal(b) + suffix
}

/// The ASCII digit of a value below ten, as a string.
fn digit_str(d: u64) -> (r: &'static str)
    requires
        d < 10,
    ensures
        r@ == seq![digit_char(d as nat)],
{
    if d == 0 {
        proof {
            reveal_strlit("0");
        }
        "0"
    } else if d == 1 {
        proof {
            reveal_strlit("1");
        }
        "1"
    } else if d == 2 {
        proof {
            reveal_strlit("2");
        }
        "2"
    } else if d == 3 {
        proof {
            reveal_strlit("3");
        }
        "3"
    } else if d == 4 {
        proof {
            reveal_strlit("4");
        }
        "4"
    } else if d == 5 {
        proof {
            reveal_strlit("5");
        }
        "5"
    } else if d == 6 {
        proof {
            reveal_strlit("6");
        }
        "6"
    } else if d == 7 {
        proof {
            reveal_strlit("7");
        }
        "7"
    } else if d == 8 {
        proof {
            reveal_strlit("8");
        }
        "8"
    } else {
        proof {
            reveal_strlit("9");
        }
        "9"
    }
}

/// Appends the decimal digits of `v` to `s`.
fn append_decimal(s: &mut String, v: u64)
    ensures
        final(s)@ == old(s)@ + decimal(v as nat),
    decreases v,
{
    if v >= 10 {
        append_decimal(s, v / 10);
    }
    let ghost mid = s@;
    s.append(digit_str(v % 10));
    proof {
        if v >= 10 {
            assert(decimal(v as nat) == decimal((v / 10) as nat).push(digit_char((v % 10) as nat)));
            assert(s@ =~= old(s)@ + decimal(v as nat));
        } else {
            assert(decimal(v as nat) == seq![digit_char(v as nat)]);
            assert(s@ =~= old(s)@ + decimal(v as nat));
        }
    }
}

/// A message holding two numbers in decimal digits between the given pieces of text.
pub(crate) fn format_two_numbers(prefix: &str, a: u64, middle: &str, b: u64, suffix: &str) -> (r:
    String)
    ensures
        r@ == two_number_message(prefix@, a as nat, middle@, b as nat, suffix@),
{
    let mut s = String::from_str(prefix);
    append_decimal(&mut s, a);
    s.append(middle);
    append_decimal(&mut s, b);
    s.append(suffix);
    proof {
        assert(s@ =~= two_number_message(prefix@, a as nat, middle@, b as nat, suffix@));
    }
    s
}

/// An error with the given message.
pub(crate) fn general_error(message: &str) -> (r: GeoIndexError)
    ensures
        match r {
            GeoIndexError::General(s) => s@ == message@,
        },
{
    GeoIndexError::General(message.to_owned())
}

} // verus!
