//! Decimal text of numbers and the building blocks for rendering elements.
use vstd::prelude::*;
use vstd::string::StringExecFns;

verus! {

/// The decimal digit for `d`, a number below ten.
pub open spec fn digit_char(d: int) -> char {
    if d == 0 {
        '0'
    } else if d == 1 {
        '1'
    } else if d == 2 {
        '2'
    } else if d == 3 {
        '3'
    } else if d == 4 {
        '4'
    } else if d == 5 {
        '5'
    } else if d == 6 {
        '6'
    } else if d == 7 {
        '7'
    } else if d == 8 {
        '8'
    } else {
        '9'
    }
}

/// The decimal notation of a natural number, without leading zeros.
pub open spec fn decimal_nat(n: nat) -> Seq<char>
    decreases n,
{
    if n < 10 {
        seq![digit_char(n as int)]
    } else {
        decimal_nat(n / 10) + seq![digit_char((n % 10) as int)]
    }
}

/// The decimal notation of an integer, with a minus sign when negative.
pub open spec fn decimal(x: int) -> Seq<char> {
    if x < 0 {
        seq!['-'] + decimal_nat((-x) as nat)
    } else {
        decimal_nat(x as nat)
    }
}

/// Relies on `ToString::to_string` for `u64`: its decimal notation.
#[verifier::external_body]
pub(crate) fn u64_text(x: u64) -> (r: String)
    ensures
        r@ == decimal(x as int),
{
    x.to_string()
}

/// Relies on `ToString::to_string` for `i64`: its decimal notation, with a
/// minus sign when negative.
#[verifier::external_body]
pub(crate) fn i64_text(x: i64) -> (r: String)
    ensures
        r@ == decimal(x as int),
{
    x.to_string()
}

/// Relies on `ToString::to_string` for `char`: the character alone.
#[verifier::external_body]
pub(crate) fn char_text(c: char) -> (r: String)
    ensures
        r@ == seq![c],
{
    c.to_string()
}

/// The text `Id`, which stands for the identity.
pub open spec fn identity_text() -> Seq<char> {
    seq!['I', 'd']
}

/// Appends the character `c` to `s`.
pub(crate) fn push_char(s: &mut String, c: char)
    ensures
        final(s)@ == old(s)@ + seq![c],
{
    let t = char_text(c);
    push_text(s, &t);
}

/// Creates the text `Id`.
pub(crate) fn new_identity_text() -> (r: String)
    ensures
        r@ == identity_text(),
{
    let mut r = String::new();
    push_char(&mut r, 'I');
    push_char(&mut r, 'd');
    assert(r@ =~= identity_text());
    r
}

/// Appends `tail` to `s`.
pub(crate) fn push_text(s: &mut String, tail: &String)
    ensures
        final(s)@ == old(s)@ + tail@,
{
    s.append(tail.as_str());
}

} // verus!
