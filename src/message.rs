//! Diagnostic messages that name the values involved.

use vstd::prelude::*;
use vstd::string::StringExecFns;
use crate::error::RtsError;

verus! {

/// The character of the decimal digit `d`.
pub open spec fn digit_char(d: nat) -> char {
    if d == 0 {
        '0'
    } else if d == 1 {
        '1'
    } else if d == 2 {
        '2'
    } else if d == 3 {
        '3'
    } else if d == 4 {
        '4'
    } else if d == 5 {
        '5'
    } else if d == 6 {
        '6'
    } else if d == 7 {
        '7'
    } else if d == 8 {
        '8'
    } else {
        '9'
    }
}

/// The decimal digits of `n`, most significant first.
pub open spec fn decimal(n: nat) -> Seq<char>
    decreases n,
{
    if n < 10 {
        seq![digit_char(n)]
    } else {
        decimal(n / 10) + seq![digit_char(n % 10)]
    }
}

fn digit(d: u64) -> (r: &'static str)
    requires
        d < 10,
    ensures
        r@ == seq![digit_char(d as nat)],
{
    if d == 0 {
        proof { reveal_strlit("0"); }
        "0"
    } else if d == 1 {
        proof { reveal_strlit("1"); }
        "1"
    } else if d == 2 {
        proof { reveal_strlit("2"); }
        "2"
    } else if d == 3 {
        proof { reveal_strlit("3"); }
        "3"
    } else if d == 4 {
        proof { reveal_strlit("4"); }
        "4"
    } else if d == 5 {
        proof { reveal_strlit("5"); }
        "5"
    } else if d == 6 {
        proof { reveal_strlit("6"); }
        "6"
    } else if d == 7 {
        proof { reveal_strlit("7"); }
        "7"
    } else if d == 8 {
        proof { reveal_strlit("8"); }
        "8"
    } else {
        proof { reveal_strlit("9"); }
        "9"
    }
}

/// Appends the decimal digits of `n` to `s`.
pub fn push_decimal(s: &mut String, n: u64)
    ensures
        final(s)@ == old(s)@ + decimal(n as nat),
    decreases n,
{
    if n >= 10 {
        push_decimal(s, n / 10);
    }
    s.append(digit(n % 10));
    assert(final(s)@ =~= old(s)@ + decimal(n as nat));
}

/// A collection error: `msg` followed by the number `n`.
pub fn gc_error_with(msg: &str, n: u64) -> (r: RtsError)
    ensures
        r is Gc,
        r->Gc_0@ == msg@ + decimal(n as nat),
{
    let mut s = String::from_str(msg);
    push_decimal(&mut s, n);
    RtsError::Gc(s)
}

/// The error of a nursery that cannot give `requested` bytes, having
/// `available` left.
pub fn out_of_space(requested: u64, available: u64) -> (r: RtsError)
    ensures
        r is Gc,
        r->Gc_0@ == out_of_space_message(requested, available),
{
    let mut s = String::from_str("nursery_malloc: out of space, requested=");
    push_decimal(&mut s, requested);
    s.append(", available=");
    push_decimal(&mut s, available);
    RtsError::Gc(s)
}

/// The text of `out_of_space`.
pub open spec fn out_of_space_message(requested: u64, available: u64) -> Seq<char> {
    "nursery_malloc: out of space, requested="@ + decimal(requested as nat) + ", available="@
        + decimal(available as nat)
}

} // verus!
