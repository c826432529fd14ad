//! The scalar values a resource document may hold, and their rendering as
//! text.  Filter comparison and sorting are string-typed: every scalar is
//! compared through the character sequence [`render`] gives it.

use vstd::prelude::*;
use vstd::string::*;

verus! {

/// One scalar field value of a JSON-shaped resource document.
#[derive(Debug)]
pub enum Value {
    Str(String),
    Int(i64),
    Bool(bool),
    Null,
}

impl Clone for Value {
    fn clone(&self) -> (r: Self)
        ensures
            r == *self,
    {
        match self {
            Value::Str(s) => Value::Str(s.clone()),
            Value::Int(i) => Value::Int(*i),
            Value::Bool(b) => Value::Bool(*b),
            Value::Null => Value::Null,
        }
    }
}

/// The character for one decimal digit.
pub open spec fn dec_digit(n: int) -> char {
    if n == 0 {
        '0'
    } else if n == 1 {
        '1'
    } else if n == 2 {
        '2'
    } else if n == 3 {
        '3'
    } else if n == 4 {
        '4'
    } else if n == 5 {
        '5'
    } else if n == 6 {
        '6'
    } else if n == 7 {
        '7'
    } else if n == 8 {
        '8'
    } else {
        '9'
    }
}

/// The decimal digits of `n`, most significant first.
pub open spec fn dec_chars(n: nat) -> Seq<char>
    decreases n,
{
    if n < 10 {
        seq![dec_digit(n as int)]
    } else {
        dec_chars(n / 10).push(dec_digit((n % 10) as int))
    }
}

/// The decimal rendering of a signed integer.
pub open spec fn int_chars(i: int) -> Seq<char> {
    if i < 0 {
        seq!['-'] + dec_chars((-i) as nat)
    } else {
        dec_chars(i as nat)
    }
}

/// The text a scalar is compared and sorted by: strings render as
/// themselves, integers in decimal, booleans as `true`/`false`, and null as
/// the empty string (the same text an absent field compares by).
pub open spec fn render(v: Value) -> Seq<char> {
    match v {
        Value::Str(s) => s@,
        Value::Int(i) => int_chars(i as int),
        Value::Bool(b) => if b {
            seq!['t', 'r', 'u', 'e']
        } else {
            seq!['f', 'a', 'l', 's', 'e']
        },
        Value::Null => Seq::empty(),
    }
}

/// Appends the character of one decimal digit.
fn push_digit(s: &mut String, d: u64)
    requires
        d < 10,
    ensures
        final(s)@ == old(s)@.push(dec_digit(d as int)),
{
    if d == 0 {
        s.append("0");
        proof { reveal_strlit("0"); }
    } else if d == 1 {
        s.append("1");
        proof { reveal_strlit("1"); }
    } else if d == 2 {
        s.append("2");
        proof { reveal_strlit("2"); }
    } else if d == 3 {
        s.append("3");
        proof { reveal_strlit("3"); }
    } else if d == 4 {
        s.append("4");
        proof { reveal_strlit("4"); }
    } else if d == 5 {
        s.append("5");
        proof { reveal_strlit("5"); }
    } else if d == 6 {
        s.append("6");
        proof { reveal_strlit("6"); }
    } else if d == 7 {
        s.append("7");
        proof { reveal_strlit("7"); }
    } else if d == 8 {
        s.append("8");
        proof { reveal_strlit("8"); }
    } else {
        s.append("9");
        proof { reveal_strlit("9"); }
    }
    proof {
        assert(final(s)@ =~= old(s)@.push(dec_digit(d as int)));
    }
}

/// Appends the decimal digits of `n`, most significant first.
fn push_dec(s: &mut String, n: u64)
    ensures
        final(s)@ == old(s)@ + dec_chars(n as nat),
    decreases n,
{
    if n < 10 {
        push_digit(s, n);
        proof {
            assert(old(s)@ + dec_chars(n as nat) =~= old(s)@.push(dec_digit(n as int)));
        }
    } else {
        push_dec(s, n / 10);
        push_digit(s, n % 10);
        proof {
            assert(old(s)@ + dec_chars(n as nat) =~= (old(s)@ + dec_chars(n as nat / 10)).push(
                dec_digit((n % 10) as int),
            ));
        }
    }
}

/// Renders a signed integer in decimal.
pub fn i64_to_string(v: i64) -> (s: String)
    ensures
        s@ == int_chars(v as int),
{
    let mut s = String::new();
    if v < 0 {
        s.append("-");
        let mag: u64 = ((-(v + 1)) as u64) + 1;
        assert(mag == -(v as int));
        push_dec(&mut s, mag);
        proof {
            reveal_strlit("-");
            assert(s@ =~= int_chars(v as int));
        }
    } else {
        push_dec(&mut s, v as u64);
        proof {
            assert(s@ =~= int_chars(v as int));
        }
    }
    s
}

/// Renders a scalar as the text it is compared and sorted by.
pub fn render_value(v: &Value) -> (r: String)
    ensures
        r@ == render(*v),
{
    match v {
        Value::Str(s) => s.clone(),
        Value::Int(i) => i64_to_string(*i),
        Value::Bool(b) => {
            if *b {
                let r = String::new().concat("true");
                proof {
                    reveal_strlit("true");
                    assert(r@ =~= render(*v));
                }
                r
            } else {
                let r = String::new().concat("false");
                proof {
                    reveal_strlit("false");
                    assert(r@ =~= render(*v));
                }
                r
            }
        },
        Value::Null => String::new(),
    }
}

} // verus!
