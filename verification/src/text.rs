//! Numbers and names as text.

use vstd::arithmetic::div_mod::lemma_div_is_ordered_by_denominator;
use vstd::prelude::*;

verus! {

/// The character of the digit `d`.
pub open spec fn digit(d: nat) -> char {
    if d == 0 {
        '0'
    } else if d == 1 {
        '1'
    } else if d == 2 {
        '2'
    } else if d == 3 {
        '3'
    } else if d == 4 {
        '4'
    } else if d == 5 {
        '5'
    } else if d == 6 {
        '6'
    } else if d == 7 {
        '7'
    } else if d == 8 {
        '8'
    } else {
        '9'
    }
}

/// `n` in decimal digits, without leading zeros.
pub open spec fn decimal(n: nat) -> Seq<char>
    decreases n,
{
    if n < 10 {
        seq![digit(n)]
    } else {
        decimal(n / 10).push(digit(n % 10))
    }
}

/// `hundredths` hundredths as a decimal number with two places.
pub open spec fn fixed2(hundredths: nat) -> Seq<char> {
    decimal(hundredths / 100) + seq!['.', digit(hundredths % 100 / 10), digit(hundredths % 10)]
}

/// `count` spaces.
pub open spec fn spaces(count: nat) -> Seq<char> {
    Seq::new(count, |i: int| ' ')
}

/// `text`, with spaces behind it where it has fewer than `width` characters.
pub open spec fn padded(text: Seq<char>, width: nat) -> Seq<char> {
    if text.len() >= width {
        text
    } else {
        text + spaces((width - text.len()) as nat)
    }
}

/// `dividend / divisor`, rounded to the nearest whole number and, from the
/// middle between two, to the even one.
pub open spec fn rounded_quotient(dividend: nat, divisor: nat) -> nat {
    let quotient = dividend / divisor;
    let twice = 2 * (dividend % divisor);
    if twice > divisor || (twice == divisor && quotient % 2 == 1) {
        quotient + 1
    } else {
        quotient
    }
}

/// `dividend / divisor`, rounded to the nearest whole number and, from the
/// middle between two, to the even one.
pub fn divide_rounded(dividend: u128, divisor: u128) -> (quotient: u128)
    requires
        divisor > 0,
    ensures
        quotient == rounded_quotient(dividend as nat, divisor as nat),
{
    let quotient = dividend / divisor;
    let rest = dividend % divisor;
    let left = divisor - rest;
    if rest > left || (rest == left && quotient % 2 == 1) {
        assert(quotient < u128::MAX) by {
            lemma_div_is_ordered_by_denominator(dividend as int, 2, divisor as int);
        }
        quotient + 1
    } else {
        quotient
    }
}

fn digit_text(d: u128) -> (text: &'static str)
    requires
        d < 10,
    ensures
        text@ == seq![digit(d as nat)],
{
    proof {
        reveal_strlit("0");
        reveal_strlit("1");
        reveal_strlit("2");
        reveal_strlit("3");
        reveal_strlit("4");
        reveal_strlit("5");
        reveal_strlit("6");
        reveal_strlit("7");
        reveal_strlit("8");
        reveal_strlit("9");
    }
    let text = if d == 0 {
        "0"
    } else if d == 1 {
        "1"
    } else if d == 2 {
        "2"
    } else if d == 3 {
        "3"
    } else if d == 4 {
        "4"
    } else if d == 5 {
        "5"
    } else if d == 6 {
        "6"
    } else if d == 7 {
        "7"
    } else if d == 8 {
        "8"
    } else {
        "9"
    };
    assert(text@ =~= seq![digit(d as nat)]);
    text
}

/// Appends `n` in decimal digits to `text`.
pub fn push_decimal(text: &mut String, n: u128)
    ensures
        final(text)@ == old(text)@ + decimal(n as nat),
    decreases n,
{
    if n >= 10 {
        push_decimal(text, n / 10);
    }
    text.append(digit_text(n % 10));
    assert(final(text)@ =~= old(text)@ + decimal(n as nat));
}

/// Appends `hundredths` hundredths as a decimal number with two places to `text`.
pub fn push_fixed2(text: &mut String, hundredths: u128)
    ensures
        final(text)@ == old(text)@ + fixed2(hundredths as nat),
{
    push_decimal(text, hundredths / 100);
    text.append(".");
    text.append(digit_text(hundredths % 100 / 10));
    text.append(digit_text(hundredths % 10));
    proof {
        reveal_strlit(".");
        assert(final(text)@ =~= old(text)@ + fixed2(hundredths as nat));
    }
}

/// Appends `name` to `text`, and spaces where it has fewer than `width` characters.
pub fn push_padded(text: &mut String, name: &str, width: usize)
    ensures
        final(text)@ == old(text)@ + padded(name@, width as nat),
{
    text.append(name);
    let mut length = name.unicode_len();
    proof {
        reveal_strlit(" ");
    }
    assert(spaces(0) =~= Seq::<char>::empty());
    assert(old(text)@ + name@ =~= old(text)@ + name@ + spaces(0));
    while length < width
        invariant
            name@.len() <= length,
            length == name@.len() || length <= width,
            text@ == old(text)@ + name@ + spaces((length - name@.len()) as nat),
            " "@ == seq![' '],
        decreases width - length,
    {
        text.append(" ");
        assert(spaces((length - name@.len()) as nat) + seq![' '] =~= spaces(
            (length + 1 - name@.len()) as nat,
        ));
        length += 1;
    }
    assert(spaces(0) =~= Seq::<char>::empty());
    assert(text@ =~= old(text)@ + padded(name@, width as nat));
}

} // verus!
