//! Text of error messages.
use vstd::prelude::*;
use vstd::string::StringExecFns;

verus! {

/// The character of a decimal digit.
pub open spec fn digit_char(d: nat) -> char {
    (48 + d) as char
}

/// A number in decimal, without leading zeros.
pub open spec fn decimal(n: nat) -> Seq<char>
    decreases n,
{
    if n < 10 {
        seq![digit_char(n)]
    } else {
        decimal(n / 10).push(digit_char(n % 10))
    }
}

fn append_digit(s: &mut String, d: u64)
    requires
        d < 10,
    ensures
        final(s)@ == old(s)@.push(digit_char(d as nat)),
{
    let ghost before = s@;
    let text: &str = match d {
        0 => "0",
        1 => "1",
        2 => "2",
        3 => "3",
        4 => "4",
        5 => "5",
        6 => "6",
        7 => "7",
        8 => "8",
        _ => "9",
    };
    proof {
        reveal_strlit("0");
        reveal_strlit("1");
        reveal_strlit("2");
        reveal_strlit("3");
        reveal_strlit("4");
        reveal_strlit("5");
        reveal_strlit("6");
        reveal_strlit("7");
        reveal_strlit("8");
        reveal_strlit("9");
        assert(text@ =~= seq![digit_char(d as nat)]);
    }
    s.append(text);
    proof {
        assert(s@ =~= before.push(digit_char(d as nat)));
    }
}

/// Appends a number in decimal.
pub fn append_decimal(s: &mut String, n: u64)
    ensures
        final(s)@ == old(s)@ + decimal(n as nat),
    decreases n,
{
    let ghost before = s@;
    if n >= 10 {
        append_decimal(s, n / 10);
    }
    append_digit(s, n % 10);
    proof {
        assert(s@ =~= before + decimal(n as nat));
    }
}

/// The concatenation of two texts.
pub fn join(a: &str, b: &str) -> (s: String)
    ensures
        s@ == a@ + b@,
{
    let mut s: String = String::new();
    s.append(a);
    s.append(b);
    proof {
        assert(s@ =~= a@ + b@);
    }
    s
}

/// A text with a number in its middle.
pub fn with_number(a: &str, n: u64, b: &str) -> (s: String)
    ensures
        s@ == a@ + decimal(n as nat) + b@,
{
    let mut s: String = String::new();
    s.append(a);
    append_decimal(&mut s, n);
    s.append(b);
    proof {
        assert(s@ =~= a@ + decimal(n as nat) + b@);
    }
    s
}

} // verus!
