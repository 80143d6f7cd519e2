//! Textual rendering of the objects that are a literal of their own.
use crate::value::Obj;
use vstd::prelude::*;
use vstd::string::StringExecFns;

verus! {

/// The character of a decimal digit.
pub open spec fn digit(d: nat) -> char {
    if d == 0 {
        '0'
    } else if d == 1 {
        '1'
    } else if d == 2 {
        '2'
    } else if d == 3 {
        '3'
    } else if d == 4 {
        '4'
    } else if d == 5 {
        '5'
    } else if d == 6 {
        '6'
    } else if d == 7 {
        '7'
    } else if d == 8 {
        '8'
    } else {
        '9'
    }
}

/// The decimal digits of a natural number, without leading zeros.
pub open spec fn decimal(n: nat) -> Seq<char>
    decreases n,
{
    if n < 10 {
        seq![digit(n)]
    } else {
        decimal(n / 10).push(digit(n % 10))
    }
}

/// The decimal form of an integer: a minus sign before the digits of a
/// negative one.
pub open spec fn signed_decimal(i: int) -> Seq<char> {
    if i < 0 {
        seq!['-'] + decimal((-i) as nat)
    } else {
        decimal(i as nat)
    }
}

/// The text of a decimal digit.
fn digit_text(d: u64) -> (t: &'static str)
    requires
        d < 10,
    ensures
        t@ == seq![digit(d as nat)],
{
    proof {
        reveal_strlit("0");
        reveal_strlit("1");
        reveal_strlit("2");
        reveal_strlit("3");
        reveal_strlit("4");
        reveal_strlit("5");
        reveal_strlit("6");
        reveal_strlit("7");
        reveal_strlit("8");
        reveal_strlit("9");
    }
    if d == 0 {
        "0"
    } else if d == 1 {
        "1"
    } else if d == 2 {
        "2"
    } else if d == 3 {
        "3"
    } else if d == 4 {
        "4"
    } else if d == 5 {
        "5"
    } else if d == 6 {
        "6"
    } else if d == 7 {
        "7"
    } else if d == 8 {
        "8"
    } else {
        "9"
    }
}

/// Appends the decimal digits of `n`.
fn push_decimal(out: &mut String, n: u64)
    ensures
        final(out)@ == old(out)@ + decimal(n as nat),
    decreases n,
{
    if n >= 10 {
        push_decimal(out, n / 10);
    }
    out.append(digit_text(n % 10));
}

impl Obj {
    /// The literal text of the object, where it has one: `null`, `true` or
    /// `false`, the decimal form of an integer, or the text of a string as it
    /// is. Floats, blobs, lists and mappings have none here.
    pub fn literal_text(&self) -> (r: Option<String>)
        ensures
            match *self {
                Obj::Null => r matches Some(t) && t@ == "null"@,
                Obj::Bool(v) => r matches Some(t) && t@ == (if v {
                    "true"@
                } else {
                    "false"@
                }),
                Obj::Unsigned(v) => r matches Some(t) && t@ == decimal(v as nat),
                Obj::Signed(v) => r matches Some(t) && t@ == signed_decimal(v as int),
                Obj::Str(v) => r matches Some(t) && t@ == v@,
                _ => r is None,
            },
    {
        match self {
            Obj::Null => Some(String::from_str("null")),
            Obj::Bool(v) => Some(
                String::from_str(
                    if *v {
                        "true"
                    } else {
                        "false"
                    },
                ),
            ),
            Obj::Unsigned(v) => {
                let mut text = String::new();
                push_decimal(&mut text, *v);
                Some(text)
            },
            Obj::Signed(v) => {
                let mut text = String::new();
                if *v < 0 {
                    proof {
                        reveal_strlit("-");
                    }
                    text.append("-");
                    push_decimal(&mut text, (-(*v + 1)) as u64 + 1);
                } else {
                    push_decimal(&mut text, *v as u64);
                }
                Some(text)
            },
            Obj::Str(v) => Some(v.clone()),
            _ => None,
        }
    }
}

} // verus!
