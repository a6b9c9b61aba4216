//! Decimal numbers as text.
use vstd::prelude::*;

verus! {

pub open spec fn is_digit(c: char) -> bool {
    '0' <= c <= '9'
}

pub open spec fn all_digits(s: Seq<char>) -> bool {
    forall|i: int| 0 <= i < s.len() ==> is_digit(#[trigger] s[i])
}

/// The digit character for a number below ten.
pub open spec fn digit_char(d: nat) -> char {
    ('0' as nat + d) as char
}

/// The number that a run of decimal digits stands for.
pub open spec fn value_of(digits: Seq<char>) -> nat
    decreases digits.len(),
{
    if digits.len() == 0 {
        0
    } else {
        10 * value_of(digits.drop_last()) + (digits.last() as nat - '0' as nat) as nat
    }
}

/// What follows an optional plus sign.
pub open spec fn unsigned(s: Seq<char>) -> Seq<char> {
    if s.len() > 0 && s[0] == '+' {
        s.skip(1)
    } else {
        s
    }
}

/// The `u32` that a text spells: at least one decimal digit and nothing else after an optional
/// plus sign, with a value that fits.
pub open spec fn number(s: Seq<char>) -> Option<u32> {
    let digits = unsigned(s);
    if digits.len() > 0 && all_digits(digits) && value_of(digits) <= u32::MAX {
        Some(value_of(digits) as u32)
    } else {
        None
    }
}

/// The decimal digits of a number, without leading zeros.
pub open spec fn decimal(n: nat) -> Seq<char>
    decreases n,
{
    if n < 10 {
        seq![digit_char(n)]
    } else {
        decimal(n / 10).push(digit_char(n % 10))
    }
}

proof fn lemma_value_grows(digits: Seq<char>, i: int)
    requires
        0 <= i <= digits.len(),
    ensures
        value_of(digits.take(i)) <= value_of(digits),
    decreases digits.len(),
{
    if i == digits.len() {
        assert(digits.take(i) =~= digits);
    } else {
        lemma_value_grows(digits.drop_last(), i);
        assert(digits.drop_last().take(i) =~= digits.take(i));
    }
}

/// Reads the number that a text spells.
pub fn parse_number(s: &[char]) -> (r: Option<u32>)
    ensures
        r == number(s@),
{
    let start: usize = if s.len() > 0 && s[0] == '+' {
        1
    } else {
        0
    };
    let ghost digits = unsigned(s@);
    assert(digits =~= s@.skip(start as int));
    if start == s.len() {
        return None;
    }
    let mut total: u64 = 0;
    for i in start..s.len()
        invariant
            start <= s@.len(),
            digits == s@.skip(start as int),
            digits == unsigned(s@),
            total == value_of(digits.take(i - start)),
            total <= u32::MAX,
            all_digits(digits.take(i - start)),
    {
        let c = s[i];
        assert(digits[i - start] == c);
        if c < '0' || c > '9' {
            return None;
        }
        total = total * 10 + (c as u32 - '0' as u32) as u64;
        assert(digits.take(i + 1 - start).drop_last() =~= digits.take(i - start));
        if total > u32::MAX as u64 {
            proof {
                lemma_value_grows(digits, i + 1 - start);
            }
            return None;
        }
    }
    assert(digits.take(digits.len() as int) =~= digits);
    Some(total as u32)
}

/// Writes a number in decimal.
pub fn decimal_text(n: u32) -> (r: String)
    ensures
        r@ == decimal(n as nat),
    decreases n,
{
    let mut r = if n < 10 {
        String::new()
    } else {
        decimal_text(n / 10)
    };
    let digit = (48u8 + (n % 10) as u8) as char;
    assert(digit == digit_char((n % 10) as nat));
    r.push(digit);
    assert(r@ =~= decimal(n as nat));
    r
}

/// Decimal digits are digits, there is one at least, and they stand for the number.
pub proof fn lemma_decimal_digits(n: nat)
    ensures
        decimal(n).len() > 0,
        all_digits(decimal(n)),
        value_of(decimal(n)) == n,
    decreases n,
{
    let last = digit_char(n % 10);
    assert(is_digit(last) && last as nat - '0' as nat == n % 10);
    if n < 10 {
        assert(value_of(decimal(n).drop_last()) == 0);
        assert(decimal(n).last() == last);
    } else {
        lemma_decimal_digits(n / 10);
        assert(decimal(n).drop_last() =~= decimal(n / 10));
    }
}

/// Reading undoes writing: the decimal text of a number spells that number.
pub proof fn law_number_of_decimal(n: u32)
    ensures
        number(decimal(n as nat)) == Some(n),
{
    lemma_decimal_digits(n as nat);
    assert(is_digit(decimal(n as nat)[0]));
    assert(unsigned(decimal(n as nat)) == decimal(n as nat));
}

/// A number is written digit by digit.
pub proof fn law_decimal_digit_by_digit(n: nat, d: nat)
    requires
        d < 10,
    ensures
        decimal(d) == seq![('0' as nat + d) as char],
        n > 0 ==> decimal(10 * n + d) == decimal(n).push(('0' as nat + d) as char),
{
    assert((10 * n + d) / 10 == n && (10 * n + d) % 10 == d);
}

/// A number is read digit by digit: each further digit makes it ten times what it was and adds its
/// own value, anything else ends it, and so does a value that does not fit.
pub proof fn law_number_digit_by_digit(s: Seq<char>, c: char)
    requires
        s.len() > 0,
        s != seq!['+'],
    ensures
        number(s.push(c)) == match number(s) {
            Some(n) => if '0' <= c <= '9' && 10 * n + (c as int - '0' as int) <= u32::MAX {
                Some((10 * n + (c as int - '0' as int)) as u32)
            } else {
                None
            },
            None => None,
        },
{
    let digits = unsigned(s);
    let more = digits.push(c);
    assert(unsigned(s.push(c)) =~= more);
    assert(more.drop_last() =~= digits);
    assert(digits.len() > 0) by {
        if digits.len() == 0 {
            assert(s =~= seq!['+']);
        }
    }
    assert(all_digits(more) <==> all_digits(digits) && is_digit(c)) by {
        if all_digits(more) {
            assert(is_digit(more[digits.len() as int]));
            assert forall|i: int| 0 <= i < digits.len() implies is_digit(#[trigger] digits[i]) by {
                assert(is_digit(more[i]));
            }
        }
    }
}

/// A number starts with a digit, which may have a plus sign before it.
pub proof fn law_number_starts(c: char)
    ensures
        number(Seq::<char>::empty()) is None,
        number(seq!['+']) is None,
        number(seq![c]) == if '0' <= c <= '9' {
            Some((c as int - '0' as int) as u32)
        } else {
            None
        },
        number(seq!['+', c]) == if '0' <= c <= '9' {
            Some((c as int - '0' as int) as u32)
        } else {
            None
        },
{
    let one = seq![c];
    assert(one.drop_last() =~= Seq::empty());
    assert(value_of(one.drop_last()) == 0);
    assert(seq!['+', c].skip(1) =~= one);
    assert(seq!['+'].skip(1) =~= Seq::empty());
    assert(one[0] == c);
    assert(all_digits(one) <==> is_digit(c));
}

} // verus!
