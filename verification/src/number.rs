//! Whole numbers in decimal: reading one from text and writing one out.
use crate::text::byte_len;
use crate::text::push_char;
use vstd::prelude::*;

verus! {

/// `c` is one of the digits `0` to `9`.
pub open spec fn is_digit(c: char) -> bool {
    '0' <= c && c <= '9'
}

/// The digit that stands for `value`, which is under ten.
pub open spec fn digit_of(value: nat) -> char {
    if value == 0 {
        '0'
    } else if value == 1 {
        '1'
    } else if value == 2 {
        '2'
    } else if value == 3 {
        '3'
    } else if value == 4 {
        '4'
    } else if value == 5 {
        '5'
    } else if value == 6 {
        '6'
    } else if value == 7 {
        '7'
    } else if value == 8 {
        '8'
    } else {
        '9'
    }
}

/// The value of a digit.
pub open spec fn digit_value(c: char) -> nat {
    (c as u32 - '0' as u32) as nat
}

/// Every character of `text` is a digit.
pub open spec fn all_digits(text: Seq<char>) -> bool {
    forall|i: int| 0 <= i < text.len() ==> is_digit(#[trigger] text[i])
}

/// The number that a row of digits writes, the empty row writing zero.
pub open spec fn digits_value(digits: Seq<char>) -> nat
    decreases digits.len(),
{
    if digits.len() == 0 {
        0
    } else {
        digits_value(digits.drop_last()) * 10 + digit_value(digits.last())
    }
}

/// `text` without the plus sign that it may begin with.
pub open spec fn unsigned_part(text: Seq<char>) -> Seq<char> {
    if text.len() > 0 && text[0] == '+' {
        text.drop_first()
    } else {
        text
    }
}

/// The number that `text` writes: an optional plus sign, then one digit or
/// more and nothing else, for a value that fits in 64 bits.
pub open spec fn parsed_u64(text: Seq<char>) -> Option<u64> {
    let digits = unsigned_part(text);
    if digits.len() > 0 && all_digits(digits) && digits_value(digits) <= u64::MAX {
        Some(digits_value(digits) as u64)
    } else {
        None
    }
}

/// `value` in decimal, without sign or leading zero.
pub open spec fn decimal(value: nat) -> Seq<char>
    decreases value,
{
    if value < 10 {
        seq![digit_of(value)]
    } else {
        decimal(value / 10).push(digit_of(value % 10))
    }
}

/// A row of digits writes no less than any of its beginnings.
pub proof fn lemma_digits_value_grows(digits: Seq<char>, count: int)
    requires
        0 <= count <= digits.len(),
    ensures
        digits_value(digits.take(count)) <= digits_value(digits),
    decreases digits.len(),
{
    if count == digits.len() {
        assert(digits.take(count) =~= digits);
    } else {
        lemma_digits_value_grows(digits.drop_last(), count);
        assert(digits.drop_last().take(count) =~= digits.take(count));
    }
}

/// What [`decimal`] writes is read back by [`parsed_u64`].
pub proof fn law_decimal_parses(value: u64)
    ensures
        parsed_u64(decimal(value as nat)) == Some(value),
{
    lemma_decimal_digits(value as nat);
}

/// [`decimal`] writes digits, at least one, whose value is the number written.
pub proof fn lemma_decimal_digits(value: nat)
    ensures
        decimal(value).len() > 0,
        all_digits(decimal(value)),
        digits_value(decimal(value)) == value,
        unsigned_part(decimal(value)) == decimal(value),
    decreases value,
{
    if value < 10 {
        let digits = seq![digit_of(value)];
        assert(digits.drop_last() =~= Seq::<char>::empty());
        assert(digits_value(digits.drop_last()) == 0);
        assert(digits.last() == digit_of(value));
    } else {
        lemma_decimal_digits(value / 10);
        let head = decimal(value / 10);
        let digits = head.push(digit_of(value % 10));
        assert(digits.drop_last() =~= head);
        assert(digits.last() == digit_of(value % 10));
        assert(digits[0] == head[0]);
    }
}

/// Whether `c` is a digit.
pub fn is_digit_char(c: char) -> (digit: bool)
    ensures
        digit == is_digit(c),
{
    '0' <= c && c <= '9'
}

/// Reads a number from `text`, all of which must write it.
pub fn parse_u64(text: &str) -> (value: Option<u64>)
    ensures
        value == parsed_u64(text@),
{
    let len = byte_len(text);
    let mut value: u64 = 0;
    let mut at: usize = 0;
    let mut signed: bool = false;
    for c in it: text.chars()
        invariant
            it.seq() == text@,
            text@.len() <= len,
            at == it.index(),
            signed == (at > 0 && text@[0] == '+'),
            all_digits(text@.subrange(if signed { 1int } else { 0int }, at as int)),
            value == digits_value(text@.subrange(if signed { 1int } else { 0int }, at as int)),
    {
        let ghost start = if signed { 1int } else { 0int };
        let ghost read = text@.subrange(start, at as int);
        if at == 0 && c == '+' {
            signed = true;
            proof {
                assert(text@.subrange(1, 1) =~= Seq::<char>::empty());
            }
        } else if is_digit_char(c) {
            let digit: u64 = (c as u32 - '0' as u32) as u64;
            let ghost next = text@.subrange(start, at + 1);
            proof {
                assert(next.drop_last() =~= read);
                assert(next.last() == c);
            }
            if value > (u64::MAX - digit) / 10 {
                proof {
                    let digits = unsigned_part(text@);
                    assert(digits.take(at + 1 - start) =~= next);
                    lemma_digits_value_grows(digits, at + 1 - start);
                }
                return None;
            }
            value = value * 10 + digit;
        } else {
            proof {
                let digits = unsigned_part(text@);
                assert(digits[at - start] == c);
            }
            return None;
        }
        at += 1;
    }
    proof {
        let digits = unsigned_part(text@);
        let start = if signed { 1int } else { 0int };
        assert(digits =~= text@.subrange(start, at as int));
    }
    if (signed && at == 1) || at == 0 {
        None
    } else {
        Some(value)
    }
}

/// The digit for a value under ten.
fn digit_char(value: u64) -> (c: char)
    requires
        value < 10,
    ensures
        c == digit_of(value as nat),
{
    if value == 0 {
        '0'
    } else if value == 1 {
        '1'
    } else if value == 2 {
        '2'
    } else if value == 3 {
        '3'
    } else if value == 4 {
        '4'
    } else if value == 5 {
        '5'
    } else if value == 6 {
        '6'
    } else if value == 7 {
        '7'
    } else if value == 8 {
        '8'
    } else {
        '9'
    }
}

/// Appends `value` in decimal to `out`.
pub fn push_decimal(out: &mut String, value: u64)
    ensures
        final(out)@ == old(out)@ + decimal(value as nat),
    decreases value,
{
    if value >= 10 {
        push_decimal(out, value / 10);
    }
    push_char(out, digit_char(value % 10));
    proof {
        if value >= 10 {
            assert(final(out)@ =~= old(out)@ + decimal(value as nat));
        } else {
            assert(final(out)@ =~= old(out)@ + decimal(value as nat));
        }
    }
}

} // verus!
