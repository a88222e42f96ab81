//! Whole numbers in decimal notation.

use vstd::prelude::*;

use crate::text::{digit, is_digit, lower_char, lowered, slice_of};

verus! {

pub open spec fn digit_char(n: nat) -> char {
    (48 + n) as char
}

pub open spec fn digit_value(c: char) -> nat {
    (c as int - 48) as nat
}

/// The decimal notation of a number, without leading zeros.
pub open spec fn decimal(n: nat) -> Seq<char>
    decreases n,
{
    if n < 10 {
        seq![digit_char(n)]
    } else {
        decimal(n / 10).push(digit_char(n % 10))
    }
}

/// The decimal notation of a whole number, with a sign in front when it is negative.
pub open spec fn signed_decimal(n: int) -> Seq<char> {
    if n < 0 {
        seq!['-'] + decimal((-n) as nat)
    } else {
        decimal(n as nat)
    }
}

/// A text of at least one digit and nothing else.
pub open spec fn is_number(s: Seq<char>) -> bool {
    s.len() > 0 && all_digits(s)
}

pub open spec fn all_digits(s: Seq<char>) -> bool {
    forall|i: int| 0 <= i < s.len() ==> is_digit(#[trigger] s[i])
}

/// The number that a text of digits denotes.
pub open spec fn number_value(s: Seq<char>) -> nat
    decreases s.len(),
{
    if s.len() == 0 {
        0
    } else {
        number_value(s.drop_last()) * 10 + digit_value(s.last())
    }
}

/// The whole number that a text denotes: digits, with at most one sign in front.
pub open spec fn integer_value(s: Seq<char>) -> Option<int> {
    let (negative, digits) = if s.len() > 0 && (s[0] == '+' || s[0] == '-') {
        (s[0] == '-', s.drop_first())
    } else {
        (false, s)
    };
    if !is_number(digits) {
        None
    } else if negative {
        Some(-number_value(digits))
    } else {
        Some(number_value(digits) as int)
    }
}

/// The number between `i32::MIN` and `i32::MAX` that a text denotes, if it denotes one.
pub open spec fn i32_value(s: Seq<char>) -> Option<i32> {
    match integer_value(s) {
        Some(n) if i32::MIN <= n <= i32::MAX => Some(n as i32),
        _ => None,
    }
}

/// Capitals make no difference to the number that a text denotes.
pub proof fn lemma_numbers_have_no_capitals(left: Seq<char>, right: Seq<char>)
    requires
        lowered(left) == lowered(right),
    ensures
        i32_value(left) == i32_value(right),
{
    lemma_number_is_small(left, right);
    lemma_number_is_small(right, left);
}

proof fn lemma_number_is_small(left: Seq<char>, right: Seq<char>)
    requires
        lowered(left) == lowered(right),
    ensures
        i32_value(left) is Some ==> left == right,
{
    assert(lowered(left).len() == left.len() && lowered(right).len() == right.len());
    if i32_value(left) is Some {
        assert forall|i: int| 0 <= i < left.len() implies left[i] == right[i] by {
            assert(lowered(left)[i] == lower_char(left[i]));
            assert(lowered(right)[i] == lower_char(right[i]));
            assert(is_digit(left[i]) || left[i] == '+' || left[i] == '-') by {
                if i > 0 {
                    assert(left.drop_first()[i - 1] == left[i]);
                }
            }
        }
        assert(left =~= right);
    }
}

/// The number up to `u64::MAX` that a text of digits denotes, if it denotes one.
pub open spec fn u64_value(s: Seq<char>) -> Option<u64> {
    if is_number(s) && number_value(s) <= u64::MAX {
        Some(number_value(s) as u64)
    } else {
        None
    }
}

proof fn lemma_number_value_grows(s: Seq<char>, n: int)
    requires
        0 <= n <= s.len(),
    ensures
        number_value(s.take(n)) <= number_value(s),
    decreases s.len() - n,
{
    if n < s.len() {
        lemma_number_value_grows(s, n + 1);
        assert(s.take(n + 1).drop_last() == s.take(n));
    } else {
        assert(s.take(n) == s);
    }
}

/// The number up to `u64::MAX` that a text of digits denotes.
pub fn parse_u64(chars: &Vec<char>) -> (number: Option<u64>)
    ensures
        number == u64_value(chars@),
{
    if chars.len() == 0 {
        return None;
    }
    let mut value: u64 = 0;
    let mut i: usize = 0;
    while i < chars.len()
        invariant
            i <= chars.len(),
            all_digits(chars@.take(i as int)),
            value == number_value(chars@.take(i as int)),
        decreases chars.len() - i,
    {
        let c = chars[i];
        if !digit(c) {
            assert(!is_digit(chars@[i as int]));
            return None;
        }
        let ghost next = chars@.take(i + 1);
        assert(next.drop_last() == chars@.take(i as int));
        assert(next.last() == c);
        let units: u64 = (c as u64) - 48;
        proof {
            lemma_number_value_grows(chars@, i + 1);
        }
        let tens: Option<u64> = value.checked_mul(10);
        let sum: Option<u64> = match tens {
            Some(tens) => tens.checked_add(units),
            None => None,
        };
        match sum {
            Some(sum) => {
                value = sum;
            },
            None => {
                return None;
            },
        }
        assert forall|j: int| 0 <= j < next.len() implies is_digit(#[trigger] next[j]) by {
            if j < i {
                assert(chars@.take(i as int)[j] == next[j]);
            }
        }
        i += 1;
    }
    assert(chars@.take(chars@.len() as int) == chars@);
    Some(value)
}

/// The number between `i32::MIN` and `i32::MAX` that a text denotes.
pub fn parse_i32(chars: &Vec<char>) -> (number: Option<i32>)
    ensures
        number == i32_value(chars@),
{
    if chars.len() == 0 {
        return None;
    }
    let signed = chars[0] == '+' || chars[0] == '-';
    let negative = chars[0] == '-';
    let digits = slice_of(
        chars,
        if signed {
            1
        } else {
            0
        },
        chars.len(),
    );
    assert(digits@ == if signed {
        chars@.drop_first()
    } else {
        chars@
    });
    match parse_u64(&digits) {
        None => None,
        Some(size) => if negative {
            if size <= 2147483648 {
                Some((-(size as i64)) as i32)
            } else {
                None
            }
        } else if size <= 2147483647 {
            Some(size as i32)
        } else {
            None
        },
    }
}

/// Writes a number in decimal notation.
pub fn write_decimal(n: u64) -> (chars: Vec<char>)
    ensures
        chars@ == decimal(n as nat),
    decreases n,
{
    let units: u8 = (n % 10) as u8;
    let last: char = (48 + units) as char;
    if n < 10 {
        let mut chars: Vec<char> = Vec::new();
        chars.push(last);
        assert(chars@ =~= decimal(n as nat));
        chars
    } else {
        let mut chars = write_decimal(n / 10);
        chars.push(last);
        chars
    }
}

/// Writes a whole number in decimal notation.
pub fn write_signed_decimal(n: i64) -> (chars: Vec<char>)
    ensures
        chars@ == signed_decimal(n as int),
{
    if n < 0 {
        let size: u64 = (-(n as i128)) as u64;
        let digits = write_decimal(size);
        let mut chars: Vec<char> = Vec::new();
        chars.push('-');
        crate::text::extend(&mut chars, &digits);
        assert(chars@ =~= seq!['-'] + digits@);
        chars
    } else {
        write_decimal(n as u64)
    }
}

/// Reading the decimal notation of a number gives the number back.
pub proof fn lemma_decimal_round_trip(n: nat)
    ensures
        is_number(decimal(n)),
        number_value(decimal(n)) == n,
    decreases n,
{
    if n < 10 {
        let s = decimal(n);
        assert(s.drop_last() =~= seq![]);
        assert(number_value(seq![]) == 0);
        assert(number_value(s) == number_value(s.drop_last()) * 10 + digit_value(s.last()));
    } else {
        lemma_decimal_round_trip(n / 10);
        let s = decimal(n);
        assert(s.drop_last() =~= decimal(n / 10));
        assert forall|i: int| 0 <= i < s.len() implies is_digit(#[trigger] s[i]) by {
            if i < s.len() - 1 {
                assert(decimal(n / 10)[i] == s[i]);
            }
        }
    }
}

/// The decimal notation of a number other than zero does not begin with a zero.
pub proof fn decimals_have_no_leading_zero(n: nat)
    ensures
        decimal(n).len() > 0,
        n > 0 ==> decimal(n)[0] as int != 48,
    decreases n,
{
    if n >= 10 {
        decimals_have_no_leading_zero(n / 10);
    }
}

/// Reading back what was written gives the number, with its sign.
pub proof fn written_numbers_are_read_back(n: int)
    ensures
        integer_value(signed_decimal(n)) == Some(n),
        i32::MIN <= n <= i32::MAX ==> i32_value(signed_decimal(n)) == Some(n as i32),
        0 <= n <= u64::MAX ==> u64_value(decimal(n as nat)) == Some(n as u64),
        i32_value(Seq::<char>::empty()) is None,
        u64_value(Seq::<char>::empty()) is None,
{
    if n < 0 {
        lemma_decimal_round_trip((-n) as nat);
        assert(signed_decimal(n).drop_first() =~= decimal((-n) as nat));
    } else {
        lemma_decimal_round_trip(n as nat);
        assert(is_digit(decimal(n as nat)[0]));
    }
}

/// One more digit behind a number makes ten times as many and that digit more.
pub proof fn digits_count_by_their_place(s: Seq<char>, c: char)
    requires
        48 <= c as int <= 57,
    ensures
        number_value(Seq::<char>::empty()) == 0,
        number_value(s.push(c)) == 10 * number_value(s) + (c as int - 48),
{
    assert(s.push(c).drop_last() =~= s);
}

/// Decimal digits, with at most one plus or minus in front, denote the whole number that the
/// digits denote, which the minus turns negative. Without a sign they can be read as a count.
pub proof fn digits_with_a_sign_denote_whole_numbers(sign: Seq<char>, digits: Seq<char>)
    requires
        sign == Seq::<char>::empty() || sign == seq!['+'] || sign == seq!['-'],
        digits.len() > 0,
        forall|i: int| 0 <= i < digits.len() ==> 48 <= (#[trigger] digits[i]) as int <= 57,
    ensures
        ({
            let size = number_value(digits) as int;
            let number = if sign == seq!['-'] {
                -size
            } else {
                size
            };
            &&& i32_value(sign + digits) == if -0x8000_0000 <= number <= 0x7fff_ffff {
                Some(number as i32)
            } else {
                None
            }
            &&& u64_value(sign + digits) == if sign.len() == 0 && size <= 0xffff_ffff_ffff_ffff {
                Some(size as u64)
            } else {
                None
            }
        }),
{
    assert forall|i: int| 0 <= i < digits.len() implies is_digit(#[trigger] digits[i]) by {
        assert(48 <= digits[i] as int <= 57);
    }
    let whole = sign + digits;
    assert(is_digit(digits[0]));
    if sign.len() == 0 {
        assert(whole =~= digits);
        assert(sign != seq!['-']) by {
            assert(seq!['-'].len() == 1);
        }
    } else {
        assert(whole.drop_first() =~= digits);
        assert(whole[0] == sign[0]);
        assert(!is_digit(whole[0]));
        if sign == seq!['+'] {
            assert(seq!['+'][0] == '+' && seq!['-'][0] == '-');
        }
    }
}

/// A text that denotes a whole number holds nothing but decimal digits, at least one of them,
/// behind at most one plus or minus.
pub proof fn whole_numbers_hold_only_digits_and_a_sign(s: Seq<char>, i: int)
    requires
        i32_value(s) is Some || u64_value(s) is Some,
        0 <= i < s.len(),
    ensures
        48 <= s[i] as int <= 57 || (i == 0 && u64_value(s) is None && (s[0] == '+' || s[0] == '-')),
        48 <= s.last() as int <= 57,
{
    let last = s.len() - 1;
    if s[0] == '+' || s[0] == '-' {
        assert(!is_digit(s[0]));
        let digits = s.drop_first();
        if i > 0 {
            assert(is_digit(digits[i - 1]));
        }
        assert(is_digit(digits[last - 1]));
    } else {
        assert(is_digit(s[i]));
        assert(is_digit(s[last]));
    }
}

} // verus!
