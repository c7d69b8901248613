//! Whole numbers written as text, in base ten and base sixteen.

use vstd::prelude::*;

verus! {

/// What a digit counts for, or `None` when the character is no digit of the base.
pub open spec fn digit_value(c: char, base: nat) -> Option<nat> {
    let value = if '0' <= c <= '9' {
        (c as u32 - '0' as u32) as int
    } else if 'a' <= c <= 'f' {
        c as u32 - 'a' as u32 + 10
    } else if 'A' <= c <= 'F' {
        c as u32 - 'A' as u32 + 10
    } else {
        16
    };
    if value < base {
        Some(value as nat)
    } else {
        None
    }
}

/// Whether every character is a digit of the base.
pub open spec fn is_digits(text: Seq<char>, base: nat) -> bool {
    forall|i: int| 0 <= i < text.len() ==> digit_value(#[trigger] text[i], base) is Some
}

/// The number that digits spell.
pub open spec fn digits_value(text: Seq<char>, base: nat) -> nat
    decreases text.len(),
{
    if text.len() == 0 {
        0
    } else {
        digits_value(text.drop_last(), base) * base + digit_value(text.last(), base).unwrap()
    }
}

/// The number that a text of digits spells, when it is not past `max`.
pub open spec fn number_of_digits(text: Seq<char>, base: nat, max: nat) -> Option<nat> {
    if text.len() > 0 && is_digits(text, base) && digits_value(text, base) <= max {
        Some(digits_value(text, base))
    } else {
        None
    }
}

/// The number a text spells in base ten, with or without a plus sign before it.
///
/// This is what std reads as an unsigned number.
pub open spec fn number_of_text(text: Seq<char>, max: nat) -> Option<nat> {
    if text.len() > 0 && text[0] == '+' {
        number_of_digits(text.drop_first(), 10, max)
    } else {
        number_of_digits(text, 10, max)
    }
}

/// More digits never spell a smaller number.
proof fn lemma_value_grows(text: Seq<char>, base: nat, count: int)
    requires
        0 <= count <= text.len(),
        base > 0,
    ensures
        digits_value(text.take(count), base) <= digits_value(text, base),
    decreases text.len() - count,
{
    if count == text.len() {
        assert(text.take(count) =~= text);
    } else {
        lemma_value_grows(text, base, count + 1);
        let longer = text.take(count + 1);
        assert(longer.drop_last() =~= text.take(count));
        let shorter_value = digits_value(text.take(count), base);
        assert(shorter_value <= shorter_value * base) by (nonlinear_arith)
            requires
                base > 0,
        ;
    }
}

/// Returns what a digit counts for.
fn read_digit(c: char, base: u32) -> (value: Option<u32>)
    requires
        base <= 16,
    ensures
        value is Some <==> digit_value(c, base as nat) is Some,
        value matches Some(value) ==> digit_value(c, base as nat) == Some(value as nat),
{
    let value: u32 = if '0' <= c && c <= '9' {
        c as u32 - '0' as u32
    } else if 'a' <= c && c <= 'f' {
        c as u32 - 'a' as u32 + 10
    } else if 'A' <= c && c <= 'F' {
        c as u32 - 'A' as u32 + 10
    } else {
        16
    };
    if value < base {
        Some(value)
    } else {
        None
    }
}

/// Reads a number in this base that is not past `max`.
pub fn read_digits(text: &[char], base: u32, max: u64) -> (number: Option<u64>)
    requires
        0 < base <= 16,
    ensures
        number is Some <==> number_of_digits(text@, base as nat, max as nat) is Some,
        number matches Some(number) ==> number_of_digits(text@, base as nat, max as nat) == Some(
            number as nat,
        ),
{
    if text.len() == 0 {
        return None;
    }
    let mut value: u64 = 0;
    let mut i: usize = 0;
    while i < text.len()
        invariant
            0 < base <= 16,
            i <= text@.len(),
            value <= max,
            is_digits(text@.take(i as int), base as nat),
            value == digits_value(text@.take(i as int), base as nat),
        decreases text@.len() - i,
    {
        let ghost taken = text@.take(i + 1);
        assert(taken.drop_last() =~= text@.take(i as int));
        assert(taken.last() == text@[i as int]);
        match read_digit(text[i], base) {
            None => {
                assert(digit_value(text@[i as int], base as nat) is None);
                return None;
            },
            Some(digit) => {
                assert(value as u128 * base as u128 + digit as u128 <= u128::MAX) by (nonlinear_arith)
                    requires
                        value <= u64::MAX,
                        base <= 16,
                        digit <= u32::MAX,
                ;
                let next: u128 = value as u128 * base as u128 + digit as u128;
                if next > max as u128 {
                    proof {
                        lemma_value_grows(text@, base as nat, i + 1);
                    }
                    return None;
                }
                value = next as u64;
                assert forall|k: int| 0 <= k < taken.len() implies digit_value(#[trigger] taken[k], base as nat) is Some by {
                    if k < i {
                        assert(taken[k] == text@.take(i as int)[k]);
                    }
                }
            },
        }
        i += 1;
    }
    assert(text@.take(i as int) =~= text@);
    Some(value)
}

/// Reads a number in base ten that is not past `max`, with or without a plus sign.
pub fn read_number(text: &[char], max: u64) -> (number: Option<u64>)
    ensures
        number is Some <==> number_of_text(text@, max as nat) is Some,
        number matches Some(number) ==> number_of_text(text@, max as nat) == Some(number as nat),
{
    if text.len() > 0 && text[0] == '+' {
        let rest = vstd::slice::slice_subrange(text, 1, text.len());
        assert(rest@ =~= text@.drop_first());
        read_digits(rest, 10, max)
    } else {
        read_digits(text, 10, max)
    }
}

// --- Writing -----------------------------------------------------------------

/// The digit of a value below sixteen, in small letters.
pub open spec fn digit_char(value: nat) -> char {
    if value < 10 {
        ('0' as u32 + value) as char
    } else {
        ('a' as u32 + value - 10) as char
    }
}

/// A number written in this base, with no zero before it.
pub open spec fn number_text(number: nat, base: nat) -> Seq<char>
    decreases number,
{
    if number < base || base < 2 {
        seq![digit_char(number)]
    } else {
        proof {
            assert(number / base < number) by (nonlinear_arith)
                requires
                    base >= 2,
                    number >= base,
            ;
        }
        number_text(number / base, base).push(digit_char(number % base))
    }
}

/// Reading a number that was written gives the number.
pub proof fn lemma_number_round_trip(number: nat, base: nat)
    requires
        2 <= base <= 16,
    ensures
        number_text(number, base).len() > 0,
        is_digits(number_text(number, base), base),
        digits_value(number_text(number, base), base) == number,
        number_text(number, base)[0] == '0' ==> number == 0,
    decreases number,
{
    let text = number_text(number, base);
    if number < base {
        assert(text.drop_last() =~= Seq::<char>::empty());
        assert(digits_value(Seq::<char>::empty(), base) == 0);
        assert(text.last() == digit_char(number));
        assert(digit_value(digit_char(number), base) == Some(number));
        assert(0 * base == 0) by (nonlinear_arith);
    } else {
        let front = number_text(number / base, base);
        assert(number / base < number && number / base > 0) by (nonlinear_arith)
            requires
                base >= 2,
                number >= base,
        ;
        assert(number % base < base) by (nonlinear_arith)
            requires
                base >= 2,
        ;
        lemma_number_round_trip(number / base, base);
        assert(text.drop_last() =~= front);
        assert(text.last() == digit_char(number % base));
        assert(digit_value(digit_char(number % base), base) == Some(number % base));
        assert forall|i: int| 0 <= i < text.len() implies digit_value(#[trigger] text[i], base) is Some by {
            if i < front.len() {
                assert(text[i] == front[i]);
            }
        }
        assert(number == (number / base) * base + number % base) by (nonlinear_arith)
            requires
                base >= 2,
        ;
        assert(text[0] == front[0]);
    }
}

/// A number below a power of the base takes no more digits than the power.
pub proof fn lemma_number_len(number: nat, base: nat, bound: nat, digits: nat)
    requires
        2 <= base,
        digits >= 1,
        bound == vstd::arithmetic::power::pow(base as int, digits),
        number < bound,
    ensures
        number_text(number, base).len() <= digits,
    decreases digits,
{
    reveal(vstd::arithmetic::power::pow);
    if number >= base {
        if digits == 1 {
            assert(vstd::arithmetic::power::pow(base as int, 0) == 1);
            assert(bound == base * 1);
        } else {
            let shorter = vstd::arithmetic::power::pow(base as int, (digits - 1) as nat);
            assert(bound == base * shorter);
            assert(number / base < shorter) by (nonlinear_arith)
                requires
                    number < base * shorter,
                    base >= 2,
            ;
            lemma_number_len(number / base, base, shorter as nat, (digits - 1) as nat);
        }
    }
}

/// Returns a number written in this base.
pub fn write_number(number: u64, base: u64) -> (text: Vec<char>)
    requires
        2 <= base <= 16,
    ensures
        text@ == number_text(number as nat, base as nat),
    decreases number,
{
    if number < base {
        let mut text: Vec<char> = Vec::new();
        text.push(write_digit(number));
        assert(text@ =~= seq![digit_char(number as nat)]);
        text
    } else {
        assert(number / base < number) by (nonlinear_arith)
            requires
                base >= 2,
                number >= base,
        ;
        let mut text = write_number(number / base, base);
        text.push(write_digit(number % base));
        text
    }
}

/// Returns the digit of a value below sixteen.
fn write_digit(value: u64) -> (digit: char)
    requires
        value < 16,
    ensures
        digit == digit_char(value as nat),
{
    if value < 10 {
        (48 + value as u8) as char
    } else {
        (97 + (value - 10) as u8) as char
    }
}

// --- What digits mean --------------------------------------------------------

/// The digits of base ten are `0` to `9`, and those of base sixteen are also `a` to `f` and
/// `A` to `F`, each with its value.
pub proof fn law_digits(c: char)
    ensures
        digit_value(c, 10) == (if 48 <= c as u32 <= 57 {
            Some((c as u32 - 48) as nat)
        } else {
            None
        }),
        digit_value(c, 16) == (if 48 <= c as u32 <= 57 {
            Some((c as u32 - 48) as nat)
        } else if 97 <= c as u32 <= 102 {
            Some((c as u32 - 87) as nat)
        } else if 65 <= c as u32 <= 70 {
            Some((c as u32 - 55) as nat)
        } else {
            None
        }),
{
}

/// One more digit multiplies by the base and adds the digit.
pub proof fn law_digits_in_a_row(text: Seq<char>, c: char, base: nat, value: nat)
    requires
        digit_value(c, base) == Some(value),
    ensures
        digits_value(Seq::<char>::empty(), base) == 0,
        digits_value(text.push(c), base) == digits_value(text, base) * base + value,
        is_digits(text.push(c), base) <==> is_digits(text, base),
{
    let longer = text.push(c);
    assert(longer.drop_last() =~= text);
    if is_digits(longer, base) {
        assert forall|i: int| 0 <= i < text.len() implies digit_value(#[trigger] text[i], base) is Some by {
            assert(longer[i] == text[i]);
        }
    }
}

/// A text spells a number of at most `max` when it is one digit or more of base ten, with
/// or without one plus sign before them, and their value is not past `max`.
pub proof fn law_which_texts_are_numbers(text: Seq<char>, digits: Seq<char>, max: nat)
    requires
        text == digits && (digits.len() > 0 ==> digits[0] != '+') || text == seq!['+'] + digits,
    ensures
        number_of_text(text, max) is Some <==> digits.len() > 0 && digits_value(digits, 10) <= max && forall|i: int|
            0 <= i < digits.len() ==> '0' <= #[trigger] digits[i] <= '9',
        number_of_text(text, max) matches Some(value) ==> value == digits_value(digits, 10),
{
    if text == seq!['+'] + digits {
        assert(text[0] == '+');
        assert(text.drop_first() =~= digits);
    }
    assert(number_of_text(text, max) == number_of_digits(digits, 10, max));
    assert forall|i: int| 0 <= i < digits.len() implies (digit_value(#[trigger] digits[i], 10) is Some <==> '0'
        <= digits[i] <= '9') by {
        law_digits(digits[i]);
    }
}

/// Whether a text is digits of a base in small letters, without a zero before a number
/// that is not zero.
pub open spec fn is_written(text: Seq<char>, base: nat) -> bool {
    &&& text.len() > 0
    &&& forall|i: int| 0 <= i < text.len() ==> digit_value(#[trigger] text[i], base) is Some && !('A' <= text[i] <= 'F')
    &&& text.len() > 1 ==> text[0] != '0'
}

/// The digit of a value is the one that counts for it.
proof fn lemma_digit_char(c: char, base: nat)
    requires
        2 <= base <= 16,
        digit_value(c, base) is Some,
        !('A' <= c <= 'F'),
    ensures
        digit_char(digit_value(c, base)->0) == c,
        digit_value(c, base)->0 < base,
        digit_value(c, base)->0 == 0 <==> c == '0',
{
}

/// Digits without a zero before them do not spell zero, but for one zero.
proof fn lemma_value_is_not_zero(text: Seq<char>, base: nat)
    requires
        2 <= base <= 16,
        is_written(text, base),
        text[0] != '0',
    ensures
        digits_value(text, base) > 0,
    decreases text.len(),
{
    let front = text.drop_last();
    let last = text.last();
    assert(last == text[text.len() - 1]);
    lemma_digit_char(last, base);
    if text.len() > 1 {
        assert forall|i: int| 0 <= i < front.len() implies digit_value(#[trigger] front[i], base) is Some && !(
        'A' <= front[i] <= 'F') by {
            assert(front[i] == text[i]);
        }
        assert(front[0] == text[0]);
        lemma_value_is_not_zero(front, base);
        let value = digits_value(front, base);
        assert(value * base > 0) by (nonlinear_arith)
            requires
                value > 0,
                base >= 2,
        ;
    } else {
        assert(front =~= Seq::<char>::empty());
        assert(digits_value(front, base) == 0);
        assert(0 * base == 0) by (nonlinear_arith);
    }
}

/// A number is written in one way: as digits in small letters that spell it, without a
/// zero before them.
pub proof fn law_numbers_are_written_in_one_way(text: Seq<char>, base: nat)
    requires
        2 <= base <= 16,
        is_written(text, base),
    ensures
        number_text(digits_value(text, base), base) == text,
    decreases text.len(),
{
    let front = text.drop_last();
    let last = text.last();
    let digit = digit_value(last, base)->0;
    let value = digits_value(text, base);
    assert(last == text[text.len() - 1]);
    lemma_digit_char(last, base);
    if text.len() == 1 {
        assert(front =~= Seq::<char>::empty());
        assert(digits_value(front, base) == 0);
        assert(0 * base == 0) by (nonlinear_arith);
        assert(value == digit);
        assert(text =~= seq![last]);
    } else {
        let high = digits_value(front, base);
        assert forall|i: int| 0 <= i < front.len() implies digit_value(#[trigger] front[i], base) is Some && !(
        'A' <= front[i] <= 'F') by {
            assert(front[i] == text[i]);
        }
        assert(front[0] == text[0]);
        lemma_value_is_not_zero(front, base);
        law_numbers_are_written_in_one_way(front, base);
        assert(value == high * base + digit);
        assert(value >= base && value / base == high && value % base == digit) by (nonlinear_arith)
            requires
                value == high * base + digit,
                high > 0,
                digit < base,
                base >= 2,
        ;
        assert(front.push(last) =~= text);
    }
}

/// What is written for a number is such a text, and spells the number.
pub proof fn law_numbers_are_written_plainly(number: nat, base: nat)
    requires
        2 <= base <= 16,
    ensures
        is_written(number_text(number, base), base),
        digits_value(number_text(number, base), base) == number,
    decreases number,
{
    let text = number_text(number, base);
    lemma_number_round_trip(number, base);
    if number < base {
        assert(text[0] == digit_char(number));
    } else {
        assert(number / base < number && number / base > 0 && number % base < base) by (nonlinear_arith)
            requires
                base >= 2,
                number >= base,
        ;
        let front = number_text(number / base, base);
        law_numbers_are_written_plainly(number / base, base);
        assert forall|i: int| 0 <= i < text.len() implies !('A' <= #[trigger] text[i] <= 'F') by {
            if i < front.len() {
                assert(text[i] == front[i]);
            } else {
                assert(text[i] == digit_char(number % base));
            }
        }
    }
    assert forall|i: int| 0 <= i < text.len() implies digit_value(#[trigger] text[i], base) is Some && !('A'
        <= text[i] <= 'F') by {}
}

} // verus!
