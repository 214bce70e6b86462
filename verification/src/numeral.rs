//! Decimal numerals of 64-bit integers, read and written.
use vstd::prelude::*;

use crate::text::chars_of;
use crate::text::string_of;

verus! {

/// Whether a character is one of the ten ASCII digits.
pub open spec fn is_digit(c: char) -> bool {
    '0' <= c && c <= '9'
}

/// The number that a digit stands for.
pub open spec fn digit_value(c: char) -> int {
    c as int - '0' as int
}

/// The digit that stands for a number below ten.
pub open spec fn digit_char(d: int) -> char {
    ('0' as int + d) as char
}

/// Whether a text is made of digits only.
pub open spec fn all_digits(text: Seq<char>) -> bool {
    forall|i: int| 0 <= i < text.len() ==> is_digit(#[trigger] text[i])
}

/// The number that a run of digits stands for, in base ten.
pub open spec fn digits_value(digits: Seq<char>) -> int
    decreases digits.len(),
{
    if digits.len() == 0 {
        0
    } else {
        10 * digits_value(digits.drop_last()) + digit_value(digits.last())
    }
}

/// Whether a text starts with a sign.
pub open spec fn is_signed(text: Seq<char>) -> bool {
    text.len() > 0 && (text[0] == '-' || text[0] == '+')
}

/// What follows the sign of a text, where it has one.
pub open spec fn unsigned_part(text: Seq<char>) -> Seq<char> {
    if is_signed(text) {
        text.skip(1)
    } else {
        text
    }
}

/// The number that a signed run of digits stands for.
pub open spec fn signed_value(text: Seq<char>) -> int {
    if text.len() > 0 && text[0] == '-' {
        -digits_value(unsigned_part(text))
    } else {
        digits_value(unsigned_part(text))
    }
}

/// The 64-bit integer that a text denotes: an optional sign, then at least one digit, then
/// nothing more, with a value in range. Any other text denotes none.
pub open spec fn int_value(text: Seq<char>) -> Option<i64> {
    let digits = unsigned_part(text);
    if digits.len() > 0 && all_digits(digits) && i64::MIN <= signed_value(text) <= i64::MAX {
        Some(signed_value(text) as i64)
    } else {
        None
    }
}

/// The decimal digits of a natural number, without leading zeros.
pub open spec fn digits_of(n: nat) -> Seq<char>
    decreases n,
{
    if n < 10 {
        seq![digit_char(n as int)]
    } else {
        digits_of(n / 10).push(digit_char((n % 10) as int))
    }
}

/// The decimal numeral of an integer: its digits, behind a minus sign where it is negative.
pub open spec fn decimal(i: int) -> Seq<char> {
    if i < 0 {
        seq!['-'] + digits_of((-i) as nat)
    } else {
        digits_of(i as nat)
    }
}

proof fn lemma_digits_value_bounds(digits: Seq<char>, n: int)
    requires
        all_digits(digits),
        0 <= n <= digits.len(),
    ensures
        0 <= digits_value(digits.take(n)) <= digits_value(digits),
    decreases digits.len(),
{
    if digits.len() == 0 {
        assert(digits.take(n) =~= digits);
    } else {
        let front = digits.drop_last();
        assert(is_digit(digits.last()));
        assert forall|i: int| 0 <= i < front.len() implies is_digit(#[trigger] front[i]) by {
            assert(is_digit(digits[i]));
        }
        if n == digits.len() {
            lemma_digits_value_bounds(front, front.len() as int);
            assert(front.take(front.len() as int) =~= front);
            assert(digits.take(n) =~= digits);
        } else {
            lemma_digits_value_bounds(front, n);
            assert(front.take(n) =~= digits.take(n));
        }
    }
}

/// Reads an integer in decimal, with an optional sign.
pub fn read_int(text: &str) -> (value: Option<i64>)
    ensures
        value == int_value(text@),
{
    let chars = chars_of(text);
    let len: usize = chars.len();
    let negative: bool = len > 0 && chars[0] == '-';
    let signed: bool = len > 0 && (chars[0] == '-' || chars[0] == '+');
    let start: usize = if signed {
        1
    } else {
        0
    };
    let ghost digits = unsigned_part(text@);
    assert(digits =~= text@.skip(start as int));
    if start == len {
        return None;
    }
    let mut magnitude: i128 = 0;
    let mut i: usize = start;
    while i < len
        invariant
            start <= i <= len,
            len == chars.len(),
            chars@ == text@,
            start <= 1,
            digits == text@.skip(start as int),
            digits == unsigned_part(text@),
            negative == (text@.len() > 0 && text@[0] == '-'),
            forall|j: int| 0 <= j < i - start ==> is_digit(#[trigger] digits[j]),
            magnitude == digits_value(digits.take(i - start)),
            0 <= magnitude <= 0x1_0000_0000_0000_0000,
        decreases len - i,
    {
        let c: char = chars[i];
        assert(digits[i - start] == c);
        if c < '0' || c > '9' {
            assert(!is_digit(digits[i - start]));
            return None;
        }
        let d: i128 = (c as u32 - '0' as u32) as i128;
        magnitude = 10 * magnitude + d;
        assert(digits.take(i + 1 - start).drop_last() =~= digits.take(i - start));
        assert(digits.take(i + 1 - start).last() == c);
        if magnitude > 0x1_0000_0000_0000_0000 {
            proof {
                if all_digits(digits) {
                    lemma_digits_value_bounds(digits, i + 1 - start);
                }
            }
            return None;
        }
        i = i + 1;
    }
    assert(digits.take(len - start) =~= digits);
    let value: i128 = if negative {
        -magnitude
    } else {
        magnitude
    };
    if i64::MIN as i128 <= value && value <= i64::MAX as i128 {
        Some(value as i64)
    } else {
        None
    }
}

/// Writes an integer in decimal.
pub fn show_int(i: i64) -> (text: String)
    ensures
        text@ == decimal(i as int),
{
    let magnitude: u64 = if i < 0 {
        (-(i as i128)) as u64
    } else {
        i as u64
    };
    // The digits, last one first.
    let mut backwards: Vec<char> = Vec::new();
    let mut rest: u64 = magnitude;
    let ghost all = digits_of(magnitude as nat);
    while rest >= 10
        invariant
            all == digits_of(rest as nat) + backwards@.reverse(),
        decreases rest,
    {
        let d: u8 = (rest % 10) as u8;
        let c: char = ('0' as u8 + d) as char;
        let ghost before = backwards@;
        backwards.push(c);
        assert(c == digit_char((rest % 10) as int));
        assert(backwards@.reverse() =~= seq![c] + before.reverse());
        assert(digits_of(rest as nat) + before.reverse() =~= digits_of((rest / 10) as nat)
            + backwards@.reverse());
        rest = rest / 10;
    }
    let c: char = ('0' as u8 + rest as u8) as char;
    let ghost before = backwards@;
    backwards.push(c);
    assert(c == digit_char(rest as int));
    assert(backwards@.reverse() =~= digits_of(rest as nat) + before.reverse());
    let mut chars: Vec<char> = Vec::new();
    if i < 0 {
        chars.push('-');
    }
    let ghost sign = chars@;
    let mut left: usize = backwards.len();
    while left > 0
        invariant
            left <= backwards.len(),
            chars@ == sign + backwards@.skip(left as int).reverse(),
        decreases left,
    {
        left = left - 1;
        let ghost shorter = backwards@.skip(left + 1);
        chars.push(backwards[left]);
        assert(backwards@.skip(left as int) =~= seq![backwards@[left as int]] + shorter);
        assert(backwards@.skip(left as int).reverse() =~= shorter.reverse().push(
            backwards@[left as int],
        ));
    }
    assert(backwards@.skip(0) =~= backwards@);
    assert(chars@ =~= decimal(i as int));
    string_of(&chars)
}

proof fn lemma_digits_of(n: nat)
    ensures
        digits_of(n).len() > 0,
        all_digits(digits_of(n)),
        digits_value(digits_of(n)) == n,
    decreases n,
{
    if n < 10 {
        let s = digits_of(n);
        assert(s.drop_last() =~= Seq::<char>::empty());
        assert(digits_value(s.drop_last()) == 0);
        assert(digit_value(digit_char(n as int)) == n);
    } else {
        lemma_digits_of(n / 10);
        let s = digits_of(n);
        let front = digits_of(n / 10);
        assert(s.drop_last() =~= front);
        assert(digit_value(digit_char((n % 10) as int)) == n % 10);
        assert forall|i: int| 0 <= i < s.len() implies is_digit(#[trigger] s[i]) by {
            if i < front.len() {
                assert(is_digit(front[i]));
            }
        }
    }
}

/// The numeral of an integer denotes that integer: what is written is read back unchanged.
pub proof fn law_numeral_read_back(i: i64)
    ensures
        int_value(decimal(i as int)) == Some(i),
{
    if i < 0 {
        let n = (-i) as nat;
        lemma_digits_of(n);
        assert(decimal(i as int).skip(1) =~= digits_of(n));
    } else {
        lemma_digits_of(i as nat);
        assert(is_digit(decimal(i as int)[0]));
    }
}

/// The numerals of integers, character by character: one digit is the number it stands for, a
/// digit more makes it ten times as large and adds its number, `-` before the digits makes it
/// negative, `+` changes nothing. A number out of range is none.
pub proof fn law_digits_in_base_ten(digits: Seq<char>, c: char)
    requires
        forall|i: int| 0 <= i < digits.len() ==> '0' <= #[trigger] digits[i] && digits[i] <= '9',
        '0' <= c && c <= '9',
    ensures
        int_value(seq![c]) == Some((c as int - '0' as int) as i64),
        int_value(digits) matches Some(i) ==> int_value(digits.push(c)) == (if 10 * i + (c as int
            - '0' as int) <= i64::MAX {
            Some((10 * i + (c as int - '0' as int)) as i64)
        } else {
            None
        }),
        digits.len() > 0 && int_value(digits) is None ==> int_value(digits.push(c)) is None,
        int_value(seq!['+'] + digits.push(c)) == int_value(digits.push(c)),
        int_value(seq!['-', c]) == Some(-(c as int - '0' as int) as i64),
        int_value(digits.push(c)) matches Some(i) ==> i >= 0 && int_value(
            seq!['-'] + digits.push(c),
        ) == Some((-i) as i64),
        int_value(seq!['-'] + digits) matches Some(i) ==> int_value(seq!['-'] + digits.push(c))
            == (if 10 * i - (c as int - '0' as int) >= i64::MIN {
            Some((10 * i - (c as int - '0' as int)) as i64)
        } else {
            None
        }),
        digits.len() > 0 && int_value(seq!['-'] + digits) is None ==> int_value(
            seq!['-'] + digits.push(c),
        ) is None,
{
    let one = seq![c];
    let more = digits.push(c);
    let plus = seq!['+'] + more;
    let minus = seq!['-'] + more;
    assert(all_digits(more)) by {
        assert forall|i: int| 0 <= i < more.len() implies is_digit(#[trigger] more[i]) by {
            assert(i < digits.len() ==> more[i] == digits[i]);
        }
    }
    assert(all_digits(digits));
    assert(is_digit(more[0]));
    assert(digits.len() > 0 ==> is_digit(digits[0]));
    assert(one.drop_last() =~= Seq::<char>::empty());
    assert(digits_value(one.drop_last()) == 0);
    assert(all_digits(one));
    assert(more.drop_last() =~= digits);
    assert(plus.skip(1) =~= more);
    assert(minus.skip(1) =~= more);
    assert(seq!['-', c].skip(1) =~= one);
    assert((seq!['-'] + digits).skip(1) =~= digits);
    lemma_digits_value_bounds(digits, digits.len() as int);
    lemma_digits_value_bounds(more, more.len() as int);
    assert(digits.take(digits.len() as int) =~= digits);
    assert(more.take(more.len() as int) =~= more);
}

/// No other text is the numeral of an integer: not the empty one, not a sign alone, and none with
/// a character that is no digit, but for a sign at the start.
pub proof fn law_no_other_numerals(text: Seq<char>, k: int)
    ensures
        text.len() == 0 ==> int_value(text) is None,
        text.len() == 1 && !('0' <= text[0] && text[0] <= '9') ==> int_value(text) is None,
        0 <= k < text.len() && !('0' <= text[k] && text[k] <= '9') && !(k == 0 && (text[k] == '-'
            || text[k] == '+')) ==> int_value(text) is None,
{
    let rest = unsigned_part(text);
    if 0 <= k < text.len() && !('0' <= text[k] && text[k] <= '9') && !(k == 0 && (text[k] == '-'
        || text[k] == '+')) {
        if is_signed(text) {
            assert(rest[k - 1] == text[k]);
        } else {
            assert(rest[k] == text[k]);
        }
    }
    if text.len() == 1 && !('0' <= text[0] && text[0] <= '9') && !is_signed(text) {
        assert(rest[0] == text[0]);
    }
}

/// An integer is written in its shortest form: no plus sign, no zero before other digits, a minus
/// sign exactly where it is negative.
pub proof fn law_shortest_numeral(i: i64)
    ensures
        decimal(i as int).len() > 0,
        decimal(i as int)[0] == '-' <==> i < 0,
        decimal(i as int)[0] != '+',
        i >= 0 && decimal(i as int)[0] == '0' ==> decimal(i as int).len() == 1,
        i < 0 ==> decimal(i as int).len() > 1 && decimal(i as int)[1] != '0',
{
    let n = if i < 0 {
        (-i) as nat
    } else {
        i as nat
    };
    lemma_digits_of(n);
    lemma_first_digit(n);
    assert(is_digit(digits_of(n)[0]));
}

proof fn lemma_first_digit(n: nat)
    ensures
        digits_of(n).len() > 0,
        n > 0 ==> digits_of(n)[0] != '0',
        n == 0 ==> digits_of(n).len() == 1,
        digits_of(n)[0] == '0' ==> digits_of(n).len() == 1,
    decreases n,
{
    if n < 10 {
        assert(digit_value(digit_char(n as int)) == n);
    } else {
        lemma_first_digit(n / 10);
    }
}

} // verus!
