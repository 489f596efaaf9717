//! Decimal text for integers.

use vstd::prelude::*;
use vstd::string::StringExecFns;

verus! {

/// The character that writes the digit `d`.
pub open spec fn digit_char(d: int) -> char {
    if d == 0 {
        '0'
    } else if d == 1 {
        '1'
    } else if d == 2 {
        '2'
    } else if d == 3 {
        '3'
    } else if d == 4 {
        '4'
    } else if d == 5 {
        '5'
    } else if d == 6 {
        '6'
    } else if d == 7 {
        '7'
    } else if d == 8 {
        '8'
    } else {
        '9'
    }
}

/// The decimal digits of `n`, most significant first, without leading zeros.
pub open spec fn digits(n: nat) -> Seq<char>
    decreases n,
{
    if n < 10 {
        seq![digit_char(n as int)]
    } else {
        digits(n / 10).push(digit_char((n % 10) as int))
    }
}

/// The decimal text of `n`: a minus sign for a negative number, then its digits.
pub open spec fn decimal(n: int) -> Seq<char> {
    if n < 0 {
        seq!['-'] + digits((-n) as nat)
    } else {
        digits(n as nat)
    }
}

/// Whether `c` is one of the ten decimal digits.
pub open spec fn is_digit(c: char) -> bool {
    48 <= c as int <= 57
}

/// The number that the digit `c` writes.
pub open spec fn digit_value(c: char) -> int {
    c as int - 48
}

/// Whether every character of `s` is a decimal digit.
pub open spec fn all_digits(s: Seq<char>) -> bool {
    forall|i: int| 0 <= i < s.len() ==> is_digit(#[trigger] s[i])
}

/// The number that a string of digits writes; zero for the empty string.
pub open spec fn digits_value(s: Seq<char>) -> int
    decreases s.len(),
{
    if s.len() == 0 {
        0
    } else {
        10 * digits_value(s.drop_last()) + digit_value(s.last())
    }
}

/// The character of a digit is a digit and writes it.
pub proof fn lemma_digit_char(d: int)
    requires
        0 <= d <= 9,
    ensures
        is_digit(digit_char(d)),
        digit_value(digit_char(d)) == d,
{
}

/// The digits of a number are digits, at least one, and write the number.
pub proof fn lemma_digits(n: nat)
    ensures
        digits(n).len() >= 1,
        all_digits(digits(n)),
        digits_value(digits(n)) == n,
    decreases n,
{
    lemma_digit_char((n % 10) as int);
    let text = digits(n);
    if n < 10 {
        assert(text.drop_last() =~= Seq::<char>::empty());
        assert(digits_value(text.drop_last()) == 0);
        assert(text.last() == digit_char(n as int));
    } else {
        lemma_digits(n / 10);
        assert(text.drop_last() =~= digits(n / 10));
        assert(text.last() == digit_char((n % 10) as int));
        assert forall|i: int| 0 <= i < text.len() implies is_digit(#[trigger] text[i]) by {
            if i < text.len() - 1 {
                assert(text[i] == digits(n / 10)[i]);
            }
        }
    }
    assert(digits_value(text) == 10 * digits_value(text.drop_last()) + digit_value(text.last()));
}

/// The decimal text of a number has at least one character, and all but a
/// leading minus sign are digits.
pub proof fn lemma_decimal_shape(n: int)
    ensures
        decimal(n).len() >= 1,
        forall|i: int| 1 <= i < decimal(n).len() ==> is_digit(#[trigger] decimal(n)[i]),
        n >= 0 ==> is_digit(decimal(n)[0]),
        n < 0 ==> decimal(n)[0] == '-',
{
    if n < 0 {
        lemma_digits((-n) as nat);
        assert forall|i: int| 1 <= i < decimal(n).len() implies is_digit(
            #[trigger] decimal(n)[i],
        ) by {
            assert(decimal(n)[i] == digits((-n) as nat)[i - 1]);
        }
    } else {
        lemma_digits(n as nat);
    }
}

/// Different numbers have different decimal texts.
pub proof fn lemma_decimal_injective(a: int, b: int)
    requires
        decimal(a) == decimal(b),
    ensures
        a == b,
{
    lemma_decimal_shape(a);
    lemma_decimal_shape(b);
    if a < 0 && b < 0 {
        lemma_digits((-a) as nat);
        lemma_digits((-b) as nat);
        assert(decimal(a).skip(1) =~= digits((-a) as nat));
        assert(decimal(b).skip(1) =~= digits((-b) as nat));
    } else if a >= 0 && b >= 0 {
        lemma_digits(a as nat);
        lemma_digits(b as nat);
    }
}

/// The text of one digit.
fn digit_text(d: u128) -> (r: &'static str)
    requires
        d < 10,
    ensures
        r@ == seq![digit_char(d as int)],
{
    proof {
        reveal_strlit("0");
        reveal_strlit("1");
        reveal_strlit("2");
        reveal_strlit("3");
        reveal_strlit("4");
        reveal_strlit("5");
        reveal_strlit("6");
        reveal_strlit("7");
        reveal_strlit("8");
        reveal_strlit("9");
    }
    let r = if d == 0 {
        "0"
    } else if d == 1 {
        "1"
    } else if d == 2 {
        "2"
    } else if d == 3 {
        "3"
    } else if d == 4 {
        "4"
    } else if d == 5 {
        "5"
    } else if d == 6 {
        "6"
    } else if d == 7 {
        "7"
    } else if d == 8 {
        "8"
    } else {
        "9"
    };
    assert(r@ =~= seq![digit_char(d as int)]);
    r
}

/// Appends the digits of `n` to `out`.
pub fn append_digits(out: &mut String, n: u128)
    ensures
        final(out)@ == old(out)@ + digits(n as nat),
    decreases n,
{
    if n >= 10 {
        append_digits(out, n / 10);
    }
    out.append(digit_text(n % 10));
    assert(out@ =~= old(out)@ + digits(n as nat));
}

/// Appends the decimal text of `n` to `out`.
pub fn append_decimal(out: &mut String, n: i128)
    ensures
        final(out)@ == old(out)@ + decimal(n as int),
{
    if n < 0 {
        proof {
            reveal_strlit("-");
        }
        out.append("-");
        let size: u128 = if n == i128::MIN {
            0x8000_0000_0000_0000_0000_0000_0000_0000
        } else {
            (-n) as u128
        };
        append_digits(out, size);
        assert(out@ =~= old(out)@ + decimal(n as int));
    } else {
        append_digits(out, n as u128);
    }
}

} // verus!
