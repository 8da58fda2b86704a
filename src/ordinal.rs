use vstd::prelude::*;
use vstd::string::StringExecFns;

verus! {

/// The decimal digit character for `d`.
pub open spec fn digit_char(d: nat) -> char {
    if d == 0 { '0' }
    else if d == 1 { '1' }
    else if d == 2 { '2' }
    else if d == 3 { '3' }
    else if d == 4 { '4' }
    else if d == 5 { '5' }
    else if d == 6 { '6' }
    else if d == 7 { '7' }
    else if d == 8 { '8' }
    else { '9' }
}

/// The decimal representation of `n`, without leading zeros ("0" for zero).
pub open spec fn decimal(n: nat) -> Seq<char>
    decreases n,
{
    if n < 10 {
        seq![digit_char(n)]
    } else {
        decimal(n / 10).push(digit_char(n % 10))
    }
}

/// The English suffix chosen by the last decimal digit alone: "st", "nd", "rd", else "th".
/// Eleven, twelve and thirteen are deliberately not special-cased.
pub open spec fn ordinal_suffix(n: nat) -> Seq<char> {
    if n % 10 == 1 { seq!['s', 't'] }
    else if n % 10 == 2 { seq!['n', 'd'] }
    else if n % 10 == 3 { seq!['r', 'd'] }
    else { seq!['t', 'h'] }
}

/// The ordinal name of rank position `n`: "top" for the first, else digits and suffix.
pub open spec fn ordinal_spec(n: nat) -> Seq<char> {
    if n == 1 { seq!['t', 'o', 'p'] } else { decimal(n) + ordinal_suffix(n) }
}

/// The field name of rank position `n`, such as "top choice" or "2nd choice".
pub open spec fn rank_field_spec(n: nat) -> Seq<char> {
    ordinal_spec(n) + seq![' ', 'c', 'h', 'o', 'i', 'c', 'e']
}

/// Relies on `String::push`: appends one character.
#[verifier::external_body]
fn push_char(s: &mut String, c: char)
    ensures
        final(s)@ == old(s)@.push(c),
{
    s.push(c)
}

fn digit(d: u32) -> (c: char)
    requires
        d < 10,
    ensures
        c == digit_char(d as nat),
{
    if d == 0 { '0' }
    else if d == 1 { '1' }
    else if d == 2 { '2' }
    else if d == 3 { '3' }
    else if d == 4 { '4' }
    else if d == 5 { '5' }
    else if d == 6 { '6' }
    else if d == 7 { '7' }
    else if d == 8 { '8' }
    else { '9' }
}

/// Appends the decimal digits of `n`.
fn push_decimal(s: &mut String, n: u32)
    ensures
        final(s)@ == old(s)@ + decimal(n as nat),
    decreases n,
{
    if n >= 10 {
        push_decimal(s, n / 10);
    }
    push_char(s, digit(n % 10));
    proof {
        if n >= 10 {
            assert(old(s)@ + decimal(n as nat) =~= old(s)@ + decimal((n / 10) as nat) + seq![digit_char((n % 10) as nat)]);
        } else {
            assert(old(s)@ + decimal(n as nat) =~= old(s)@.push(digit_char(n as nat)));
        }
    }
}

/// The ordinal name of rank position `ord`: "top" for 1, otherwise the number followed by
/// "st", "nd", "rd" or "th" according to its last digit (so 11 gives "11st").
pub fn ordinal_name(ord: u32) -> (r: String)
    ensures
        r@ == ordinal_spec(ord as nat),
{
    let mut r = String::new();
    if ord == 1 {
        r.append("top");
        proof { reveal_strlit("top"); }
        assert(r@ =~= ordinal_spec(ord as nat));
        return r;
    }
    push_decimal(&mut r, ord);
    if ord % 10 == 1 {
        r.append("st");
        proof { reveal_strlit("st"); }
    } else if ord % 10 == 2 {
        r.append("nd");
        proof { reveal_strlit("nd"); }
    } else if ord % 10 == 3 {
        r.append("rd");
        proof { reveal_strlit("rd"); }
    } else {
        r.append("th");
        proof { reveal_strlit("th"); }
    }
    assert(r@ =~= ordinal_spec(ord as nat));
    r
}

/// The field name of rank position `ord`: its ordinal name followed by " choice".
pub fn rank_field(ord: u32) -> (r: String)
    ensures
        r@ == rank_field_spec(ord as nat),
{
    let mut r = ordinal_name(ord);
    r.append(" choice");
    proof { reveal_strlit(" choice"); }
    assert(r@ =~= rank_field_spec(ord as nat));
    r
}

} // verus!
