//! Amounts of money as exact counts of hundredths, and the decimal text that
//! writes them in a transaction file.

use crate::text::{
    all_digits, append_digits, digit_char, digit_value, digits, digits_value, is_digit,
    lemma_digit_char, lemma_digits,
};
use vstd::prelude::*;
use vstd::string::{is_ascii_spec_bytes, StringExecFns};
use vstd::utf8::is_ascii_chars;

verus! {

/// How many characters the sign takes: one for a leading `+` or `-`.
pub open spec fn sign_len(text: Seq<char>) -> int {
    if text.len() > 0 && (text[0] == '-' || text[0] == '+') {
        1
    } else {
        0
    }
}

/// The index of the first decimal point of `s`, or its length if it has none.
pub open spec fn first_point(s: Seq<char>) -> int
    decreases s.len(),
{
    if s.len() == 0 || s[0] == '.' {
        0
    } else {
        1 + first_point(s.drop_first())
    }
}

/// The digits before the decimal point of an unsigned numeral.
pub open spec fn whole_part(body: Seq<char>) -> Seq<char> {
    body.take(first_point(body))
}

/// The digits after the decimal point of an unsigned numeral; empty if it has
/// no point.
pub open spec fn fraction_part(body: Seq<char>) -> Seq<char> {
    if first_point(body) < body.len() {
        body.skip(first_point(body) + 1)
    } else {
        Seq::empty()
    }
}

/// Whether `text` is a decimal numeral: an optional sign, digits, and
/// optionally a point followed by digits, with at least one digit in all.
pub open spec fn is_numeral(text: Seq<char>) -> bool {
    let body = text.skip(sign_len(text));
    &&& all_digits(whole_part(body))
    &&& all_digits(fraction_part(body))
    &&& whole_part(body).len() + fraction_part(body).len() >= 1
}

/// The digit at place `i` of a fraction, zero beyond its end.
pub open spec fn fraction_digit(fraction: Seq<char>, i: int) -> int {
    if 0 <= i < fraction.len() {
        digit_value(fraction[i])
    } else {
        0
    }
}

/// The size of an unsigned numeral in hundredths, rounded to the nearest
/// hundredth, a half rounding away from zero.
pub open spec fn magnitude(body: Seq<char>) -> int {
    let fraction = fraction_part(body);
    100 * digits_value(whole_part(body)) + 10 * fraction_digit(fraction, 0) + fraction_digit(
        fraction,
        1,
    ) + if fraction_digit(fraction, 2) >= 5 {
        1int
    } else {
        0int
    }
}

/// The number of hundredths that a numeral writes.
pub open spec fn numeral_value(text: Seq<char>) -> int {
    let m = magnitude(text.skip(sign_len(text)));
    if text.len() > 0 && text[0] == '-' {
        -m
    } else {
        m
    }
}

/// The amount that `text` writes: the value of a decimal numeral that fits in
/// an `i64` count of hundredths, and nothing for any other text.
pub open spec fn amount_value(text: Seq<char>) -> Option<i64> {
    if is_numeral(text) && i64::MIN <= numeral_value(text) <= i64::MAX {
        Some(numeral_value(text) as i64)
    } else {
        None
    }
}

/// The first point of `s` lies within `s`, no point stands before it, and it
/// holds a point unless it is the end of `s`.
pub proof fn lemma_first_point_found(s: Seq<char>)
    ensures
        0 <= first_point(s) <= s.len(),
        forall|j: int| 0 <= j < first_point(s) ==> s[j] != '.',
        first_point(s) == s.len() || s[first_point(s)] == '.',
    decreases s.len(),
{
    if s.len() > 0 && s[0] != '.' {
        let rest = s.drop_first();
        lemma_first_point_found(rest);
        assert forall|j: int| 0 <= j < first_point(s) implies s[j] != '.' by {
            if j > 0 {
                assert(rest[j - 1] == s[j]);
            }
        }
    }
}

/// The first point of `s` is the one place `p` that has no point before it and
/// holds a point or is the end of `s`.
pub proof fn lemma_first_point_is(s: Seq<char>, p: int)
    requires
        0 <= p <= s.len(),
        forall|j: int| 0 <= j < p ==> s[j] != '.',
        p == s.len() || s[p] == '.',
    ensures
        first_point(s) == p,
{
    lemma_first_point_found(s);
}

/// A numeral is made of ASCII characters.
pub proof fn lemma_numeral_is_ascii(text: Seq<char>)
    requires
        is_numeral(text),
    ensures
        is_ascii_chars(text),
{
    let sign = sign_len(text);
    let body = text.skip(sign);
    lemma_first_point_found(body);
    let point = first_point(body);
    assert forall|i: int| 0 <= i < text.len() implies '\0' <= #[trigger] text[i] <= '\u{7f}' by {
        if i >= sign {
            let j = i - sign;
            assert(body[j] == text[i]);
            if j < point {
                assert(whole_part(body)[j] == body[j]);
                assert(is_digit(whole_part(body)[j]));
            } else if j > point {
                assert(fraction_part(body)[j - point - 1] == body[j]);
                assert(is_digit(fraction_part(body)[j - point - 1]));
            }
        }
    }
}

/// Whether the bytes are the characters, one byte for each.
spec fn spelled(bytes: Seq<u8>, text: Seq<char>) -> bool {
    &&& bytes.len() == text.len()
    &&& forall|i: int| 0 <= i < text.len() ==> (#[trigger] bytes[i]) as int == text[i] as int
}

fn digit_of(byte: u8) -> (d: Option<u64>)
    ensures
        48 <= byte <= 57 ==> d == Some((byte - 48) as u64),
        !(48 <= byte <= 57) ==> d is None,
{
    if 48 <= byte && byte <= 57 {
        Some((byte - 48) as u64)
    } else {
        None
    }
}

/// The digit at place `i` of the fraction that starts at `from`, zero beyond
/// the end of the text.
fn fraction_digit_at(bytes: &[u8], from: usize, i: usize, Ghost(text): Ghost<Seq<char>>) -> (d: u64)
    requires
        spelled(bytes@, text),
        from <= bytes.len(),
        i < 3,
        all_digits(text.skip(from as int)),
    ensures
        d == fraction_digit(text.skip(from as int), i as int),
        d <= 9,
{
    if i < bytes.len() - from {
        assert(text.skip(from as int)[i as int] == text[from + i]);
        assert(is_digit(text.skip(from as int)[i as int]));
        match digit_of(bytes[from + i]) {
            Some(d) => d,
            None => 0,
        }
    } else {
        0
    }
}

/// The largest whole part whose hundredths may still fit an `i64`.
const WHOLE_LIMIT: u64 = 92_233_720_368_547_758;

/// Reads an amount from its decimal text.
///
/// The text is an optional sign, digits, and optionally a point followed by
/// digits. Digits beyond the second after the point round the amount to the
/// nearest hundredth. Text of any other form, and a numeral too large for an
/// `i64` count of hundredths, give `None`.
pub fn parse_amount(text: &str) -> (r: Option<i64>)
    ensures
        r == amount_value(text@),
{
    if !text.is_ascii() {
        proof {
            if is_numeral(text@) {
                lemma_numeral_is_ascii(text@);
            }
        }
        return None;
    }
    let bytes = text.as_bytes();
    proof {
        is_ascii_spec_bytes(text);
        assert(spelled(bytes@, text@));
    }
    let n = bytes.len();
    if n == 0 {
        assert(text@.skip(0) =~= text@);
        return None;
    }
    let negative = bytes[0] == 45;
    let start: usize = if bytes[0] == 45 || bytes[0] == 43 {
        1
    } else {
        0
    };
    let ghost body = text@.skip(start as int);
    let mut i: usize = start;
    let mut whole: u64 = 0;
    let mut too_large = false;
    let mut in_whole = true;
    while in_whole && i < n
        invariant
            start <= i <= n,
            n == text@.len(),
            spelled(bytes@, text@),
            body == text@.skip(start as int),
            forall|j: int| 0 <= j < i - start ==> is_digit(#[trigger] body[j]),
            !too_large ==> whole == digits_value(body.take(i - start)) && whole <= WHOLE_LIMIT,
            too_large ==> digits_value(body.take(i - start)) > WHOLE_LIMIT,
            !in_whole ==> i < n && !is_digit(body[i - start]),
        decreases n - i + if in_whole { 1int } else { 0int },
    {
        assert(body[i - start] == text@[i as int]);
        match digit_of(bytes[i]) {
            Some(d) => {
                proof {
                    let next = body.take(i - start + 1);
                    assert(next.drop_last() =~= body.take(i - start));
                    assert(next.last() == text@[i as int]);
                }
                if !too_large {
                    whole = whole * 10 + d;
                    if whole > WHOLE_LIMIT {
                        too_large = true;
                    }
                }
                i = i + 1;
            },
            None => {
                in_whole = false;
            },
        }
    }
    let ghost p = i - start;
    proof {
        lemma_first_point_found(body);
    }
    if i < n && bytes[i] != 46 {
        proof {
            assert(body[p] == text@[i as int]);
            if first_point(body) > p {
                assert(whole_part(body)[p] == body[p]);
            }
        }
        return None;
    }
    proof {
        if i < n {
            assert(body[p] == text@[i as int]);
        }
        lemma_first_point_is(body, p);
        assert(whole_part(body) == body.take(p));
        assert(all_digits(whole_part(body)));
    }
    let from: usize = if i < n {
        i + 1
    } else {
        n
    };
    let ghost fraction = text@.skip(from as int);
    proof {
        assert(fraction_part(body) =~= fraction);
    }
    let mut k: usize = from;
    while k < n
        invariant
            from <= k <= n,
            n == text@.len(),
            spelled(bytes@, text@),
            fraction == text@.skip(from as int),
            fraction == fraction_part(body),
            body == text@.skip(sign_len(text@)),
            forall|j: int| 0 <= j < k - from ==> is_digit(#[trigger] fraction[j]),
        decreases n - k,
    {
        assert(fraction[k - from] == text@[k as int]);
        if digit_of(bytes[k]).is_none() {
            return None;
        }
        k = k + 1;
    }
    if (i - start) + (n - from) < 1 || too_large {
        return None;
    }
    let tenths = fraction_digit_at(bytes, from, 0, Ghost(text@));
    let hundredths = fraction_digit_at(bytes, from, 1, Ghost(text@));
    let thousandths = fraction_digit_at(bytes, from, 2, Ghost(text@));
    let round_up: u64 = if thousandths >= 5 {
        1
    } else {
        0
    };
    let size: u64 = whole * 100 + tenths * 10 + hundredths + round_up;
    assert(size == magnitude(body));
    if negative {
        if size < 9_223_372_036_854_775_808 {
            Some(-(size as i64))
        } else if size == 9_223_372_036_854_775_808 {
            Some(i64::MIN)
        } else {
            None
        }
    } else if size <= 9_223_372_036_854_775_807 {
        Some(size as i64)
    } else {
        None
    }
}

/// The text of an amount: a minus sign if it is negative, the whole units,
/// a point, and the two digits of the hundredths.
pub open spec fn amount_text_of(amount: int) -> Seq<char> {
    let size = if amount < 0 {
        -amount
    } else {
        amount
    };
    let sign = if amount < 0 {
        seq!['-']
    } else {
        Seq::<char>::empty()
    };
    sign + digits((size / 100) as nat) + seq!['.'] + seq![
        digit_char((size % 100) / 10),
        digit_char(size % 10),
    ]
}

/// Writes an amount, or a sum of amounts, as decimal text with two decimals,
/// such as `-275.00`.
pub fn amount_text(amount: i128) -> (text: String)
    ensures
        text@ == amount_text_of(amount as int),
{
    let mut text = String::new();
    let size: u128 = if amount == i128::MIN {
        0x8000_0000_0000_0000_0000_0000_0000_0000
    } else if amount < 0 {
        (-amount) as u128
    } else {
        amount as u128
    };
    proof {
        reveal_strlit("-");
        reveal_strlit(".");
    }
    if amount < 0 {
        text.append("-");
    }
    append_digits(&mut text, size / 100);
    text.append(".");
    append_digits(&mut text, (size % 100) / 10);
    append_digits(&mut text, size % 10);
    proof {
        let tenths = ((size % 100) / 10) as nat;
        let hundredths = (size % 10) as nat;
        assert(digits(tenths) + digits(hundredths) =~= seq![
            digit_char(tenths as int),
            digit_char(hundredths as int),
        ]);
        assert(text@ =~= amount_text_of(amount as int));
    }
    text
}

/// The text of an amount reads back as that amount.
pub proof fn lemma_amount_text_reads_back(amount: i64)
    ensures
        amount_value(amount_text_of(amount as int)) == Some(amount),
{
    let size: int = if amount < 0 {
        -amount
    } else {
        amount as int
    };
    let whole = digits((size / 100) as nat);
    let fraction = seq![digit_char((size % 100) / 10), digit_char(size % 10)];
    let body = whole + seq!['.'] + fraction;
    let text = amount_text_of(amount as int);
    lemma_digits((size / 100) as nat);
    lemma_digit_char((size % 100) / 10);
    lemma_digit_char(size % 10);
    assert(is_digit(whole[0]));
    if amount < 0 {
        assert(text[0] == '-');
        assert(text.skip(1) =~= body);
    } else {
        assert(text[0] == whole[0]);
        assert(text.skip(0) =~= body);
    }
    assert forall|j: int| 0 <= j < whole.len() implies body[j] != '.' by {
        assert(is_digit(whole[j]));
    }
    lemma_first_point_is(body, whole.len() as int);
    assert(whole_part(body) =~= whole);
    assert(fraction_part(body) =~= fraction);
    assert(magnitude(body) == size);
}

} // verus!
