//! Counters as decimal texts.

use vstd::prelude::*;
use vstd::string::StringExecFns;

verus! {

/// The value of a decimal digit.
pub open spec fn digit_value(c: char) -> int {
    c as int - '0' as int
}

/// Whether a character is a decimal digit.
pub open spec fn is_digit(c: char) -> bool {
    '0' <= c && c <= '9'
}

/// Whether a text consists of decimal digits.
pub open spec fn all_digits(text: Seq<char>) -> bool {
    forall|i: int| 0 <= i < text.len() ==> is_digit(#[trigger] text[i])
}

/// The value of a text of decimal digits.
pub open spec fn digits_value(text: Seq<char>) -> int
    decreases text.len(),
{
    if text.len() == 0 {
        0
    } else {
        digits_value(text.drop_last()) * 10 + digit_value(text.last())
    }
}

/// The digits of a text: what follows a leading plus sign, if there is one.
pub open spec fn unsigned_part(text: Seq<char>) -> Seq<char> {
    if text.len() > 0 && text[0] == '+' {
        text.drop_first()
    } else {
        text
    }
}

/// The counter that a text stands for: an optional plus sign and at least one decimal
/// digit, with a value that fits in 64 bits.
pub open spec fn parsed(text: Seq<char>) -> Option<u64> {
    let digits = unsigned_part(text);
    if digits.len() > 0 && all_digits(digits) && digits_value(digits) <= u64::MAX {
        Some(digits_value(digits) as u64)
    } else {
        None
    }
}

/// The character of a decimal digit.
pub open spec fn digit(d: int) -> char {
    ('0' as int + d) as char
}

/// The shortest decimal text of a counter.
pub open spec fn decimal(n: nat) -> Seq<char>
    decreases n,
{
    if n < 10 {
        seq![digit(n as int)]
    } else {
        decimal(n / 10).push(digit((n % 10) as int))
    }
}

/// The digits of a number have its value.
proof fn lemma_decimal(n: nat)
    ensures
        decimal(n).len() > 0,
        all_digits(decimal(n)),
        digits_value(decimal(n)) == n,
    decreases n,
{
    if n < 10 {
        let text = seq![digit(n as int)];
        assert(text.drop_last() =~= Seq::empty());
        assert(digits_value(text.drop_last()) == 0);
    } else {
        lemma_decimal(n / 10);
        let front = decimal(n / 10);
        let last = digit((n % 10) as int);
        assert(front.push(last).drop_last() =~= front);
    }
}

/// The text of a counter stands for that counter.
pub proof fn law_decimal_round_trip(n: u64)
    ensures
        parsed(decimal(n as nat)) == Some(n),
{
    lemma_decimal(n as nat);
    assert(is_digit(decimal(n as nat)[0]));
}

/// Digits that follow make a value no smaller.
proof fn lemma_longer_is_no_smaller(text: Seq<char>, n: int)
    requires
        0 <= n <= text.len(),
        all_digits(text),
    ensures
        0 <= digits_value(text.take(n)) <= digits_value(text),
    decreases text.len(),
{
    if n == text.len() {
        assert(text.take(n) =~= text);
        if n > 0 {
            let front = text.drop_last();
            assert(all_digits(front)) by {
                assert forall|i: int| 0 <= i < front.len() implies is_digit(
                    #[trigger] front[i],
                ) by {
                    assert(front[i] == text[i]);
                }
            }
            lemma_longer_is_no_smaller(front, n - 1);
            assert(front.take(n - 1) =~= front);
            assert(is_digit(text[n - 1]));
        }
    } else {
        let front = text.drop_last();
        assert(all_digits(front)) by {
            assert forall|i: int| 0 <= i < front.len() implies is_digit(#[trigger] front[i]) by {
                assert(front[i] == text[i]);
            }
        }
        lemma_longer_is_no_smaller(front, n);
        assert(front.take(n) =~= text.take(n));
        assert(is_digit(text[text.len() - 1]));
    }
}

/// The counter that a text stands for, if any.
pub fn parse_counter(text: &str) -> (counter: Option<u64>)
    ensures
        counter == parsed(text@),
{
    let length: usize = text.unicode_len();
    if length == 0 {
        return None;
    }
    let start: usize = if text.get_char(0) == '+' {
        1
    } else {
        0
    };
    let ghost digits = unsigned_part(text@);
    assert(digits =~= text@.skip(start as int));
    if start == length {
        return None;
    }
    let mut value: u64 = 0;
    let mut i: usize = start;
    assert(digits.take(0) =~= Seq::empty());
    while i < length
        invariant
            length == text@.len(),
            start <= i <= length,
            digits == text@.skip(start as int),
            digits == unsigned_part(text@),
            all_digits(digits.take(i - start)),
            value == digits_value(digits.take(i - start)),
        decreases length - i,
    {
        let c: char = text.get_char(i);
        let ghost at = i - start;
        assert(digits[at] == c);
        if c < '0' || c > '9' {
            assert(!is_digit(digits[at]));
            return None;
        }
        let d: u64 = (c as u32 - '0' as u32) as u64;
        proof {
            let front = digits.take(at);
            let longer = digits.take(at + 1);
            assert(longer.drop_last() =~= front);
            assert(longer.last() == c);
            assert forall|j: int| 0 <= j < longer.len() implies is_digit(#[trigger] longer[j]) by {
                if j < at {
                    assert(longer[j] == front[j]);
                }
            }
            assert(digits_value(longer) == value * 10 + d);
            if all_digits(digits) {
                lemma_longer_is_no_smaller(digits, at + 1);
            }
        }
        match value.checked_mul(10) {
            Some(scaled) => match scaled.checked_add(d) {
                Some(sum) => {
                    value = sum;
                },
                None => {
                    return None;
                },
            },
            None => {
                return None;
            },
        }
        i = i + 1;
    }
    assert(digits.take(i - start) =~= digits);
    Some(value)
}

/// The text of one decimal digit.
fn digit_text(d: u64) -> (text: &'static str)
    requires
        d < 10,
    ensures
        text@ == seq![digit(d as int)],
{
    proof {
        reveal_strlit("0");
        reveal_strlit("1");
        reveal_strlit("2");
        reveal_strlit("3");
        reveal_strlit("4");
        reveal_strlit("5");
        reveal_strlit("6");
        reveal_strlit("7");
        reveal_strlit("8");
        reveal_strlit("9");
    }
    let text: &'static str = match d {
        0 => "0",
        1 => "1",
        2 => "2",
        3 => "3",
        4 => "4",
        5 => "5",
        6 => "6",
        7 => "7",
        8 => "8",
        _ => "9",
    };
    assert(text@ =~= seq![digit(d as int)]);
    text
}

/// The decimal text of a counter.
pub fn print_counter(n: u64) -> (text: String)
    ensures
        text@ == decimal(n as nat),
    decreases n,
{
    if n < 10 {
        digit_text(n).to_owned()
    } else {
        let mut text = print_counter(n / 10);
        text.append(digit_text(n % 10));
        assert(text@ =~= decimal((n / 10) as nat).push(digit((n % 10) as int)));
        text
    }
}

/// A counter below ten is printed as one digit, and a digit behind the text of a counter
/// makes the text of ten times the counter and the digit.
pub proof fn law_decimal_puts_digits_in_a_row(n: nat, d: nat)
    requires
        d < 10,
    ensures
        decimal(d) == seq![('0' as int + d) as char],
        n > 0 ==> decimal(10 * n + d) == decimal(n).push(('0' as int + d) as char),
{
    assert((10 * n + d) / 10 == n);
    assert((10 * n + d) % 10 == d);
}

/// Reading a counter: one digit stands for its value, and a digit behind a text that
/// stands for a counter makes one that stands for ten times the counter and the digit, if
/// that fits in 64 bits.
pub proof fn law_parsed_reads_digits_in_a_row(text: Seq<char>, c: char)
    requires
        '0' <= c && c <= '9',
    ensures
        parsed(seq![c]) == Some((c as int - '0' as int) as u64),
        parsed(text) is Some && parsed(text)->0 * 10 + (c as int - '0' as int) <= u64::MAX
            ==> parsed(text.push(c)) == Some(
            (parsed(text)->0 * 10 + (c as int - '0' as int)) as u64,
        ),
        parsed(text) is Some && parsed(text)->0 * 10 + (c as int - '0' as int) > u64::MAX
            ==> parsed(text.push(c)) is None,
{
    let one = seq![c];
    assert(unsigned_part(one) == one);
    assert(one.drop_last() =~= Seq::empty());
    assert(digits_value(one.drop_last()) == 0);
    assert(digits_value(one) == digit_value(c));
    if parsed(text) is Some {
        let digits = unsigned_part(text);
        let longer = unsigned_part(text.push(c));
        assert(longer =~= digits.push(c));
        assert(longer.drop_last() =~= digits);
        assert forall|i: int| 0 <= i < longer.len() implies is_digit(#[trigger] longer[i]) by {
            if i < digits.len() {
                assert(longer[i] == digits[i]);
            }
        }
        lemma_longer_is_no_smaller(digits, digits.len() as int);
        assert(digits.take(digits.len() as int) =~= digits);
    }
}

/// Only an optional plus sign and decimal digits, at least one, stand for a counter. A plus
/// sign in front changes nothing.
pub proof fn law_parsed_takes_digits_only(text: Seq<char>, i: int)
    ensures
        parsed(Seq::<char>::empty()) is None,
        parsed(seq!['+']) is None,
        0 <= i < text.len() && (text[i] < '0' || text[i] > '9') && (i > 0 || text[i] != '+')
            ==> parsed(text) is None,
        text.len() > 0 && text[0] != '+' ==> parsed(seq!['+'] + text) == parsed(text),
{
    assert(seq!['+'].drop_first() =~= Seq::empty());
    assert((seq!['+'] + text).drop_first() =~= text);
    if 0 <= i < text.len() && (text[i] < '0' || text[i] > '9') && (i > 0 || text[i] != '+') {
        let digits = unsigned_part(text);
        if text[0] == '+' {
            assert(digits[i - 1] == text[i]);
            assert(!is_digit(digits[i - 1]));
        } else {
            assert(!is_digit(digits[i]));
        }
    }
}

} // verus!
