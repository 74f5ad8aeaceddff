//! Building the text of the debugging dumps.
use vstd::prelude::*;

verus! {

/// Appends `s` to `buffer`. This is `String::push_str` of the standard
/// library, which is taken on trust here: the buffer afterwards holds its
/// old characters followed by those of `s`.
#[verifier::external_body]
pub(crate) fn push_str(buffer: &mut String, s: &str)
    ensures
        final(buffer)@ == old(buffer)@ + s@,
{
    buffer.push_str(s)
}

/// The character that writes the digit `d`.
pub open spec fn digit_char(d: int) -> char {
    if d == 0 {
        '0'
    } else if d == 1 {
        '1'
    } else if d == 2 {
        '2'
    } else if d == 3 {
        '3'
    } else if d == 4 {
        '4'
    } else if d == 5 {
        '5'
    } else if d == 6 {
        '6'
    } else if d == 7 {
        '7'
    } else if d == 8 {
        '8'
    } else {
        '9'
    }
}

/// The decimal numeral of `n`, without leading zeros.
pub open spec fn decimal(n: nat) -> Seq<char>
    decreases n,
{
    if n < 10 {
        seq![digit_char(n as int)]
    } else {
        decimal(n / 10).push(digit_char((n % 10) as int))
    }
}

/// Appends the digit `d` to `buffer`.
fn push_digit(buffer: &mut String, d: usize)
    requires
        d < 10,
    ensures
        final(buffer)@ == old(buffer)@.push(digit_char(d as int)),
{
    proof {
        reveal_strlit("0");
        reveal_strlit("1");
        reveal_strlit("2");
        reveal_strlit("3");
        reveal_strlit("4");
        reveal_strlit("5");
        reveal_strlit("6");
        reveal_strlit("7");
        reveal_strlit("8");
        reveal_strlit("9");
    }
    let s: &str = if d == 0 {
        "0"
    } else if d == 1 {
        "1"
    } else if d == 2 {
        "2"
    } else if d == 3 {
        "3"
    } else if d == 4 {
        "4"
    } else if d == 5 {
        "5"
    } else if d == 6 {
        "6"
    } else if d == 7 {
        "7"
    } else if d == 8 {
        "8"
    } else {
        "9"
    };
    assert(s@ =~= seq![digit_char(d as int)]);
    push_str(buffer, s);
    assert(buffer@ =~= old(buffer)@.push(digit_char(d as int)));
}

/// Appends the decimal numeral of `n` to `buffer`.
pub fn push_decimal(buffer: &mut String, n: usize)
    ensures
        final(buffer)@ == old(buffer)@ + decimal(n as nat),
    decreases n,
{
    if n < 10 {
        push_digit(buffer, n);
        assert(buffer@ =~= old(buffer)@ + decimal(n as nat));
    } else {
        push_decimal(buffer, n / 10);
        push_digit(buffer, n % 10);
        assert(buffer@ =~= old(buffer)@ + decimal(n as nat));
    }
}

} // verus!
