//! Unsigned integers written in base ten.

use vstd::prelude::*;
use vstd::string::StringExecFns;

verus! {

/// The character that stands for the digit `d`, for `d` below ten.
pub open spec fn digit_char(d: nat) -> char {
    if d == 0 {
        '0'
    } else if d == 1 {
        '1'
    } else if d == 2 {
        '2'
    } else if d == 3 {
        '3'
    } else if d == 4 {
        '4'
    } else if d == 5 {
        '5'
    } else if d == 6 {
        '6'
    } else if d == 7 {
        '7'
    } else if d == 8 {
        '8'
    } else {
        '9'
    }
}

/// Whether `c` is one of the ten digits `0` to `9`.
pub open spec fn is_decimal_digit(c: char) -> bool {
    '0' <= c <= '9'
}

/// The base-ten numeral of `n`: no sign, no separators, and no leading zero
/// except for zero itself, which is written `0`.
pub open spec fn decimal(n: nat) -> Seq<char>
    decreases n,
{
    if n < 10 {
        seq![digit_char(n)]
    } else {
        decimal(n / 10).push(digit_char(n % 10))
    }
}

/// A numeral is never empty and holds nothing but digits.
pub proof fn lemma_decimal_digits(n: nat)
    ensures
        decimal(n).len() >= 1,
        forall|i: int| 0 <= i < decimal(n).len() ==> is_decimal_digit(#[trigger] decimal(n)[i]),
    decreases n,
{
    if n >= 10 {
        lemma_decimal_digits(n / 10);
    }
}

/// A numeral has no leading zero, except that of zero.
pub proof fn lemma_decimal_no_leading_zero(n: nat)
    ensures
        decimal(n)[0] == '0' <==> n == 0,
    decreases n,
{
    if n >= 10 {
        lemma_decimal_no_leading_zero(n / 10);
        lemma_decimal_digits(n / 10);
    }
}

fn digit_text(d: usize) -> (text: &'static str)
    requires
        d < 10,
    ensures
        text@ == seq![digit_char(d as nat)],
{
    proof {
        reveal_strlit("0");
        reveal_strlit("1");
        reveal_strlit("2");
        reveal_strlit("3");
        reveal_strlit("4");
        reveal_strlit("5");
        reveal_strlit("6");
        reveal_strlit("7");
        reveal_strlit("8");
        reveal_strlit("9");
    }
    let text = if d == 0 {
        "0"
    } else if d == 1 {
        "1"
    } else if d == 2 {
        "2"
    } else if d == 3 {
        "3"
    } else if d == 4 {
        "4"
    } else if d == 5 {
        "5"
    } else if d == 6 {
        "6"
    } else if d == 7 {
        "7"
    } else if d == 8 {
        "8"
    } else {
        "9"
    };
    assert(text@ =~= seq![digit_char(d as nat)]);
    text
}

/// Writes `n` in base ten.
pub fn decimal_string(n: usize) -> (text: String)
    ensures
        text@ == decimal(n as nat),
    decreases n,
{
    if n < 10 {
        String::from_str(digit_text(n))
    } else {
        let mut text = decimal_string(n / 10);
        text.append(digit_text(n % 10));
        assert(text@ =~= decimal(n as nat));
        text
    }
}

/// The digit that `c` stands for, where `c` is one of the ten digits.
pub open spec fn digit_value(c: char) -> nat {
    (c as u32 - 48) as nat
}

/// Whether `text` holds digits only.
pub open spec fn all_digits(text: Seq<char>) -> bool {
    forall|i: int| 0 <= i < text.len() ==> is_decimal_digit(#[trigger] text[i])
}

/// The number that the digits in `digits` write in base ten, leading zeros
/// allowed; zero for no digits.
pub open spec fn number_of(digits: Seq<char>) -> nat
    decreases digits.len(),
{
    if digits.len() == 0 {
        0
    } else {
        number_of(digits.drop_last()) * 10 + digit_value(digits.last())
    }
}

/// The digits of a text that may start with a plus sign: the text without
/// that sign.
pub open spec fn unsigned_part(text: Seq<char>) -> Seq<char> {
    if text.len() > 0 && text[0] == '+' {
        text.drop_first()
    } else {
        text
    }
}

/// The number that `text` writes, if it writes one that fits a machine word:
/// an optional plus sign, then one digit or more and nothing else.
pub open spec fn parsed_usize(text: Seq<char>) -> Option<nat> {
    let digits = unsigned_part(text);
    if digits.len() > 0 && all_digits(digits) && number_of(digits) <= usize::MAX {
        Some(number_of(digits))
    } else {
        None
    }
}

/// The first digits of a numeral write no more than all of them.
pub proof fn lemma_number_of_prefix(digits: Seq<char>, count: int)
    requires
        0 <= count <= digits.len(),
    ensures
        number_of(digits.take(count)) <= number_of(digits),
    decreases digits.len(),
{
    if count == digits.len() {
        assert(digits.take(count) =~= digits);
    } else {
        lemma_number_of_prefix(digits.drop_last(), count);
        assert(digits.drop_last().take(count) =~= digits.take(count));
    }
}

/// The digit that a digit character stands for is the digit it was made of.
proof fn lemma_digit_value(d: nat)
    requires
        d < 10,
    ensures
        digit_value(digit_char(d)) == d,
        is_decimal_digit(digit_char(d)),
{
}

/// Reading undoes writing: the numeral of a number holds digits only and
/// writes that number, so that a number that fits a machine word is read
/// back from its numeral.
pub proof fn lemma_read_what_was_written(n: nat)
    ensures
        all_digits(decimal(n)),
        number_of(decimal(n)) == n,
        n <= usize::MAX ==> parsed_usize(decimal(n)) == Some(n),
    decreases n,
{
    lemma_decimal_digits(n);
    if n < 10 {
        lemma_digit_value(n);
        let numeral = decimal(n);
        assert(numeral.drop_last() =~= Seq::<char>::empty());
        assert(number_of(numeral.drop_last()) == 0);
        assert(numeral.last() == digit_char(n));
    } else {
        lemma_read_what_was_written(n / 10);
        lemma_digit_value(n % 10);
        let numeral = decimal(n);
        assert(numeral.drop_last() =~= decimal(n / 10));
        assert(numeral.last() == digit_char(n % 10));
    }
    assert(decimal(n)[0] != '+');
    assert(unsigned_part(decimal(n)) == decimal(n));
}

/// Reads the number that `text` writes in base ten. There is a number only
/// where `text` is an optional plus sign followed by one digit or more, and
/// the number fits a machine word.
pub fn parse_usize(text: &str) -> (number: Option<usize>)
    ensures
        match number {
            Some(n) => parsed_usize(text@) == Some(n as nat),
            None => parsed_usize(text@) is None,
        },
{
    let ghost digits = unsigned_part(text@);
    let ghost skipped: int = text@.len() - digits.len();
    let mut value: usize = 0;
    let mut any = false;
    let mut first = true;
    for c in it: text.chars()
        invariant
            it.seq() == text@,
            digits == unsigned_part(text@),
            skipped == text@.len() - digits.len(),
            first <==> it.index() == 0,
            !first ==> skipped <= it.index(),
            !first ==> all_digits(digits.take(it.index() - skipped)),
            !first ==> value == number_of(digits.take(it.index() - skipped)),
            first ==> value == 0 && !any,
            !first ==> (any <==> it.index() - skipped > 0),
    {
        if first && c == '+' {
            first = false;
            proof {
                assert(digits.take(0) =~= Seq::<char>::empty());
            }
        } else {
            let ghost at: int = it.index() - skipped;
            proof {
                if first {
                    assert(digits.take(0) =~= Seq::<char>::empty());
                    assert(number_of(digits.take(0)) == 0);
                }
                assert(digits[at] == c);
                assert(digits.take(at + 1).drop_last() =~= digits.take(at));
                assert(digits.take(at + 1).last() == c);
            }
            first = false;
            if c < '0' || c > '9' {
                return None;
            }
            let digit: usize = (c as u32 - 48) as usize;
            if value > (usize::MAX - digit) / 10 {
                proof {
                    if all_digits(digits) {
                        lemma_number_of_prefix(digits, at + 1);
                    }
                }
                return None;
            }
            value = value * 10 + digit;
            any = true;
            proof {
                assert forall|i: int| 0 <= i < digits.take(at + 1).len() implies is_decimal_digit(
                    #[trigger] digits.take(at + 1)[i],
                ) by {
                    if i < at {
                        assert(digits.take(at)[i] == digits.take(at + 1)[i]);
                    }
                }
            }
        }
    }
    proof {
        if !first {
            assert(digits.take(digits.len() as int) =~= digits);
        }
    }
    if any {
        Some(value)
    } else {
        None
    }
}

} // verus!
