//! Double-precision numbers, held by their IEEE 754 bit patterns, and their decimal notation.
//!
//! Every finite double is a whole multiple of the smallest positive one, two to the power of
//! minus 1074. The value of a double is given here as that multiple, so that it is an integer.

use vstd::arithmetic::div_mod::*;
use vstd::prelude::*;

use crate::natural::Natural;
use crate::number::{all_digits, integer_value, is_number, number_value};
use crate::text::{digit, extend, is_digit, slice_of};

verus! {

/// Two to the power of `k`.
pub open spec fn two(k: nat) -> nat
    decreases k,
{
    if k == 0 {
        1
    } else {
        2 * two((k - 1) as nat)
    }
}

/// Ten to the power of `k`.
pub open spec fn ten(k: nat) -> nat
    decreases k,
{
    if k == 0 {
        1
    } else {
        10 * ten((k - 1) as nat)
    }
}

/// A double-precision number, by its bit pattern.
#[derive(Clone, Copy, Debug, PartialEq, Eq, Structural)]
pub struct Binary64 {
    pub bits: u64,
}

impl Binary64 {
    pub open spec fn negative(self) -> bool {
        self.bits >= 0x8000_0000_0000_0000
    }

    /// The bit pattern without the sign.
    pub open spec fn magnitude(self) -> nat {
        (self.bits % 0x8000_0000_0000_0000) as nat
    }

    /// Neither infinite nor a NaN.
    pub open spec fn is_finite(self) -> bool {
        self.magnitude() < 0x7ff0_0000_0000_0000
    }

    /// Not a number.
    pub open spec fn is_nan(self) -> bool {
        self.magnitude() > 0x7ff0_0000_0000_0000
    }

    /// The size of a finite number, as a multiple of the smallest positive one.
    pub open spec fn units(self) -> nat {
        let exponent = self.magnitude() / 0x10_0000_0000_0000;
        let fraction = self.magnitude() % 0x10_0000_0000_0000;
        if exponent == 0 {
            fraction
        } else {
            (0x10_0000_0000_0000 + fraction) * two((exponent - 1) as nat)
        }
    }

    /// The value of a finite number, as a multiple of the smallest positive one.
    pub open spec fn value(self) -> int {
        if self.negative() {
            -self.units()
        } else {
            self.units() as int
        }
    }
}

proof fn lemma_two_adds(a: nat, b: nat)
    ensures
        two(a + b) == two(a) * two(b),
    decreases a,
{
    if a > 0 {
        lemma_two_adds((a - 1) as nat, b);
        let x = two((a - 1) as nat);
        let y = two(b);
        assert(2 * (x * y) == (2 * x) * y) by (nonlinear_arith);
        assert((a - 1) as nat + b == (a + b - 1) as nat);
    } else {
        assert(1 * two(b) == two(b));
    }
}

proof fn lemma_two_positive(a: nat)
    ensures
        two(a) >= 1,
    decreases a,
{
    if a > 0 {
        lemma_two_positive((a - 1) as nat);
    }
}

proof fn lemma_two_monotone(a: nat, b: nat)
    requires
        a <= b,
    ensures
        two(a) <= two(b),
    decreases b,
{
    if a < b {
        lemma_two_monotone(a, (b - 1) as nat);
    }
}

proof fn lemma_two_values()
    ensures
        two(52) == 0x10_0000_0000_0000,
        two(53) == 0x20_0000_0000_0000,
{
    assert(two(10) == 1024) by {
        reveal_with_fuel(two, 11);
    }
    lemma_two_adds(10, 10);
    assert(two(20) == 1024 * 1024);
    lemma_two_adds(20, 20);
    assert(two(40) == 1048576 * 1048576);
    lemma_two_adds(40, 10);
    assert(two(50) == 1099511627776 * 1024);
    assert(two(2) == 4) by {
        reveal_with_fuel(two, 3);
    }
    lemma_two_adds(50, 2);
    assert(two(52) == 1125899906842624 * 4);
    assert(two(53) == 2 * two(52));
}

/// Larger bit patterns denote larger numbers.
pub proof fn lemma_units_follow_magnitude(a: Binary64, b: Binary64)
    requires
        a.magnitude() < b.magnitude(),
    ensures
        a.units() < b.units(),
{
    let m = 0x10_0000_0000_0000nat;
    let ea = a.magnitude() / m;
    let eb = b.magnitude() / m;
    let fa = a.magnitude() % m;
    let fb = b.magnitude() % m;
    lemma_two_values();
    if ea == eb {
        if ea > 0 {
            let t = two((ea - 1) as nat);
            lemma_two_positive((ea - 1) as nat);
            assert((m + fa) * t < (m + fb) * t) by (nonlinear_arith)
                requires
                    fa < fb,
                    t >= 1,
            ;
        }
    } else {
        assert(ea < eb);
        let t = two((eb - 1) as nat);
        lemma_two_positive((eb - 1) as nat);
        assert(m * t <= (m + fb) * t) by (nonlinear_arith)
            requires
                t >= 1,
        ;
        assert(m * t >= m) by (nonlinear_arith)
            requires
                t >= 1,
                m >= 1,
        ;
        if ea > 0 {
            let s = two((ea - 1) as nat);
            lemma_two_positive((ea - 1) as nat);
            lemma_two_monotone(ea, (eb - 1) as nat);
            assert(two(ea) == 2 * s);
            assert((m + fa) * s < (2 * m) * s) by (nonlinear_arith)
                requires
                    fa < m,
                    s >= 1,
            ;
            assert((2 * m) * s <= m * t) by (nonlinear_arith)
                requires
                    2 * s <= t,
            ;
        }
    }
}

impl Binary64 {
    /// Whether this is not a number.
    pub fn nan(self) -> (found: bool)
        ensures
            found == self.is_nan(),
    {
        self.bits % 0x8000_0000_0000_0000 > 0x7ff0_0000_0000_0000
    }

    /// Whether this number is larger than `other`.
    pub fn greater(self, other: Binary64) -> (larger: bool)
        requires
            self.is_finite(),
            other.is_finite(),
        ensures
            larger == (self.value() > other.value()),
    {
        let sign: u64 = 0x8000_0000_0000_0000;
        let left: u64 = self.bits % sign;
        let right: u64 = other.bits % sign;
        proof {
            if left < right {
                lemma_units_follow_magnitude(self, other);
            } else if right < left {
                lemma_units_follow_magnitude(other, self);
            }
            let zero = Binary64 { bits: 0 };
            if left > 0 {
                lemma_units_follow_magnitude(zero, self);
            }
            if right > 0 {
                lemma_units_follow_magnitude(zero, other);
            }
        }
        if self.bits < sign {
            if other.bits < sign {
                left > right
            } else {
                left > 0 || right > 0
            }
        } else {
            if other.bits < sign {
                false
            } else {
                left < right
            }
        }
    }
}

// ---------------------------------------------------------------------------
// Rounding
// ---------------------------------------------------------------------------

/// `n / d` rounded to a whole number; of two equally near ones, to the even one.
pub open spec fn round_half_even(n: nat, d: nat) -> nat {
    let quotient = n / d;
    let rest = n % d;
    if 2 * rest < d {
        quotient
    } else if 2 * rest > d {
        quotient + 1
    } else {
        quotient + quotient % 2
    }
}

/// The number of binary digits of `x`.
pub open spec fn binary_digits(x: nat) -> nat
    decreases x,
{
    if x == 0 {
        0
    } else {
        1 + binary_digits(x / 2)
    }
}

/// How many of the binary digits of `x` do not fit into the 53 that a double holds.
pub open spec fn excess_digits(x: nat) -> nat {
    if binary_digits(x) > 53 {
        (binary_digits(x) - 53) as nat
    } else {
        0
    }
}

/// The size of the double nearest to `n / d`, as a multiple of the smallest positive double,
/// were there no largest one.
pub open spec fn nearest_units(n: nat, d: nat) -> nat {
    let scaled = n * two(1074);
    let excess = excess_digits(scaled / d);
    round_half_even(scaled, d * two(excess)) * two(excess)
}

/// The doubles end below this size.
pub open spec fn overflow_units() -> nat {
    two(2098)
}

/// The double with the given sign and size.
pub open spec fn with_units(negative: bool, units: nat) -> Binary64 {
    choose|x: Binary64|
        #![trigger x.units()]
        x.is_finite() && x.negative() == negative && x.units() == units
}

/// Sign and size determine a double.
pub proof fn lemma_with_units(x: Binary64)
    requires
        x.is_finite(),
    ensures
        with_units(x.negative(), x.units()) == x,
{
    let y = with_units(x.negative(), x.units());
    assert(y.is_finite() && y.negative() == x.negative() && y.units() == x.units());
    if x.magnitude() < y.magnitude() {
        lemma_units_follow_magnitude(x, y);
    } else if y.magnitude() < x.magnitude() {
        lemma_units_follow_magnitude(y, x);
    }
    assert(x.bits == y.bits);
}

proof fn lemma_binary_digits_below(x: nat, k: nat)
    requires
        x < two(k),
    ensures
        binary_digits(x) <= k,
    decreases k,
{
    if x > 0 {
        assert(k > 0);
        lemma_binary_digits_below(x / 2, (k - 1) as nat);
    }
}

proof fn lemma_binary_digits_from(x: nat, k: nat)
    requires
        x >= two(k),
    ensures
        binary_digits(x) >= k + 1,
    decreases k,
{
    lemma_two_positive(k);
    if k > 0 {
        lemma_binary_digits_from(x / 2, (k - 1) as nat);
    }
}

/// Dividing a number below `d * p` by `d` stays below `p`.
proof fn lemma_quotient_below(n: nat, d: nat, p: nat)
    requires
        d > 0,
        n < d * p,
    ensures
        n / d < p,
{
    lemma_fundamental_div_mod(n as int, d as int);
    let q = n / d;
    if q >= p {
        assert(d * q >= d * p) by (nonlinear_arith)
            requires
                q >= p,
        ;
    }
}

proof fn lemma_quotient_from(n: nat, d: nat, p: nat)
    requires
        d > 0,
        n >= d * p,
    ensures
        n / d >= p,
{
    lemma_fundamental_div_mod(n as int, d as int);
    let q = n / d;
    if q + 1 <= p {
        assert(d * (q + 1) <= d * p) by (nonlinear_arith)
            requires
                q + 1 <= p,
        ;
        assert(d * (q + 1) == d * q + d) by (nonlinear_arith);
    }
}

/// Sizes far above the largest double round to sizes above it.
proof fn lemma_overflow(n: nat, d: nat, k: nat)
    requires
        d > 0,
        n * two(1074) >= d * two(k + 53),
        k >= 2045,
    ensures
        nearest_units(n, d) >= overflow_units(),
{
    let a = n * two(1074);
    let x = a / d;
    lemma_quotient_from(a, d, two(k + 53));
    lemma_binary_digits_from(x, k + 53);
    let digits = binary_digits(x);
    let excess = excess_digits(x);
    assert(excess == digits - 53);
    lemma_binary_digits_least(x);
    let top = (digits - 1) as nat;
    assert(x >= two(top));
    lemma_two_adds(52, excess);
    assert(52 + excess == top);
    lemma_fundamental_div_mod(a as int, d as int);
    assert(d * x >= d * two(top)) by (nonlinear_arith)
        requires
            x >= two(top),
    ;
    let wide = d * two(excess);
    lemma_two_positive(excess);
    assert(wide > 0) by (nonlinear_arith)
        requires
            d > 0,
            two(excess) >= 1,
            wide == d * two(excess),
    ;
    assert(wide * two(52) == d * two(top)) by (nonlinear_arith)
        requires
            wide == d * two(excess),
            two(top) == two(52) * two(excess),
    ;
    lemma_quotient_from(a, wide, two(52));
    let rounded = round_half_even(a, wide);
    assert(rounded >= two(52));
    assert(rounded * two(excess) >= two(52) * two(excess)) by (nonlinear_arith)
        requires
            rounded >= two(52),
    ;
    lemma_two_monotone(2098, top);
}

proof fn lemma_binary_digits_least(x: nat)
    requires
        x > 0,
    ensures
        binary_digits(x) > 0,
        x >= two((binary_digits(x) - 1) as nat),
    decreases x,
{
    if x > 1 {
        lemma_binary_digits_least(x / 2);
    } else {
        assert(binary_digits(0) == 0);
        assert(binary_digits(1) == 1);
    }
}

/// The bit pattern that a rounded size of up to 53 digits with `k` digits behind them has.
proof fn lemma_assembled(k: nat, q: nat, x: Binary64)
    requires
        k <= 2045,
        q <= 0x20_0000_0000_0000,
        k > 0 ==> q >= 0x10_0000_0000_0000,
        x.bits == k * 0x10_0000_0000_0000 + q,
    ensures
        x.units() == q * two(k),
        !x.negative(),
        x.is_finite() == (q * two(k) < overflow_units()),
{
    let m = 0x10_0000_0000_0000nat;
    lemma_two_values();
    assert(k * m <= 2045 * m) by (nonlinear_arith)
        requires
            k <= 2045,
    ;
    assert(x.magnitude() == k * m + q);
    if q < m {
        assert(k == 0);
        assert(x.units() == q);
        assert(two(0) == 1);
        lemma_two_monotone(52, 2098);
    } else if q < 2 * m {
        assert(x.magnitude() / m == k + 1);
        assert(x.magnitude() % m == q - m);
        assert(x.units() == q * two(k));
        lemma_two_adds(53, k);
        lemma_two_monotone(53 + k, 2098);
        lemma_two_positive(k);
        assert(q * two(k) < two(53) * two(k)) by (nonlinear_arith)
            requires
                q < two(53),
                two(k) >= 1,
        ;
    } else {
        assert(q == 2 * m);
        assert(x.magnitude() / m == k + 2);
        assert(x.magnitude() % m == 0);
        assert(two(k + 1) == 2 * two(k));
        assert(m * (2 * two(k)) == (2 * m) * two(k)) by (nonlinear_arith);
        lemma_two_adds(53, k);
        assert(q * two(k) == two(53 + k));
        if k <= 2044 {
            lemma_two_monotone(53 + k, 2097);
            lemma_two_positive(2097);
            assert(two(2098) == 2 * two(2097));
        } else {
            lemma_two_monotone(2098, 53 + k);
        }
    }
}

fn double(number: &Natural) -> (twice: Natural)
    ensures
        twice@ == 2 * number@,
{
    let twice = number.multiply_add(2, 0);
    assert(number@ * 2 + 0 == 2 * number@);
    twice
}

/// Multiplies by two to the power of `k`.
fn shifted(number: &Natural, k: usize) -> (wide: Natural)
    ensures
        wide@ == number@ * two(k as nat),
{
    let mut wide = number.multiply_add(1, 0);
    let mut i: usize = 0;
    assert(number@ * 1 == number@);
    while i < k
        invariant
            i <= k,
            wide@ == number@ * two(i as nat),
        decreases k - i,
    {
        let ghost t = two(i as nat);
        assert(2 * (number@ * t) == number@ * (2 * t)) by (nonlinear_arith);
        wide = double(&wide);
        i += 1;
    }
    wide
}

/// The positive double nearest to `n / d`, or nothing when it would be too large.
pub fn nearest(n: &Natural, d: &Natural) -> (found: Option<Binary64>)
    requires
        d@ > 0,
    ensures
        match found {
            Some(x) => x.is_finite() && !x.negative() && x.units() == nearest_units(n@, d@),
            None => nearest_units(n@, d@) >= overflow_units(),
        },
{
    let scaled = shifted(n, 1074);
    let ghost a = scaled@;
    let mut unit = shifted(d, 0);
    let mut limit = shifted(d, 53);
    let mut k: u64 = 0;
    assert(two(0) == 1);
    while scaled.at_least(&limit)
        invariant
            d@ > 0,
            scaled@ == a,
            a == n@ * two(1074),
            k <= 2045,
            unit@ == d@ * two(k as nat),
            limit@ == d@ * two((k + 53) as nat),
            k > 0 ==> a >= d@ * two((k + 52) as nat),
        decreases 2046 - k,
    {
        if k == 2045 {
            proof {
                lemma_overflow(n@, d@, k as nat);
            }
            return None;
        }
        proof {
            let t = two(k as nat);
            let w = two((k + 53) as nat);
            let e = d@;
            assert(2 * (e * t) == e * (2 * t)) by (nonlinear_arith);
            assert(2 * (e * w) == e * (2 * w)) by (nonlinear_arith);
        }
        unit = double(&unit);
        limit = double(&limit);
        k += 1;
    }
    let half = shifted(&unit, 52);
    let mut rest = shifted(&scaled, 0);
    let mut q: u64 = 0;
    let mut i: u64 = 0;
    let ghost dd = unit@;
    let ghost s = half@;
    proof {
        assert(two(0) == 1);
        assert(a * two(0) == a);
        lemma_two_adds(k as nat, 52);
        lemma_two_adds(k as nat, 53);
        let e = d@;
        let t = two(k as nat);
        assert(e * (t * two(52)) == (e * t) * two(52)) by (nonlinear_arith);
        assert(e * (t * two(53)) == (e * t) * two(53)) by (nonlinear_arith);
        assert(two(53) == 2 * two(52));
        assert(dd * (2 * two(52)) == 2 * (dd * two(52))) by (nonlinear_arith);
        assert(limit@ == 2 * s);
        assert(0 * (2 * s) == 0);
    }
    while i < 53
        invariant
            i <= 53,
            half@ == s,
            rest@ < 2 * s,
            q < two(i as nat),
            a * two(i as nat) == q * (2 * s) + rest@,
        decreases 53 - i,
    {
        let bit = rest.at_least(&half);
        let ghost before = rest@;
        if bit {
            rest = rest.minus(&half);
        }
        rest = double(&rest);
        proof {
            lemma_two_values();
            lemma_two_monotone(i as nat, 52);
            let t = two(i as nat);
            let b: nat = if bit {
                1
            } else {
                0
            };
            let qq = q as nat;
            assert(two((i + 1) as nat) == 2 * t);
            assert(a * (2 * t) == 2 * (a * t)) by (nonlinear_arith);
            assert(2 * (qq * (2 * s)) + b * (2 * s) == (2 * qq + b) * (2 * s)) by (nonlinear_arith);
            assert(b * (2 * s) == if bit {
                2 * s
            } else {
                0
            }) by (nonlinear_arith)
                requires
                    b == (if bit {
                        1nat
                    } else {
                        0nat
                    }),
            ;
        }
        q = 2 * q + if bit {
            1
        } else {
            0
        };
        i += 1;
    }
    let up = rest.at_least(&half);
    let tie = up && half.at_least(&rest);
    let ghost exact = q;
    proof {
        lemma_two_values();
    }
    if up && !(tie && q % 2 == 0) {
        q = q + 1;
    }
    let found = Binary64 { bits: k * 0x10_0000_0000_0000 + q };
    proof {
        lemma_two_values();
        let qq = exact as nat;
        let t = two(53);
        let r = a - qq * dd;
        let rr = rest@;
        assert(qq * (dd * t) == (qq * dd) * t) by (nonlinear_arith);
        assert(2 * s == dd * t);
        assert(a * t - (qq * dd) * t == (a - qq * dd) * t) by (nonlinear_arith);
        assert(r * t == rr);
        assert(0 <= r < dd) by (nonlinear_arith)
            requires
                r * t == rr,
                0 <= rr < dd * t,
                t > 0,
        ;
        lemma_two_positive(k as nat);
        assert(dd * qq + r == a) by (nonlinear_arith)
            requires
                r == a - qq * dd,
        ;
        lemma_fundamental_div_mod_converse(a as int, dd as int, qq as int, r);
        assert(a / dd == qq);
        assert(a % dd == r);
        assert((2 * r < dd) == (rr < s) && (2 * r > dd) == (rr > s)) by (nonlinear_arith)
            requires
                r * t == rr,
                2 * s == dd * t,
                t > 0,
        ;
        assert(q == round_half_even(a, dd));
        let e = d@;
        let kk = k as nat;
        lemma_quotient_below(a, e, two(kk + 53));
        lemma_binary_digits_below(a / e, kk + 53);
        if kk > 0 {
            lemma_quotient_from(a, e, two(kk + 52));
            lemma_binary_digits_from(a / e, kk + 52);
            lemma_two_adds(kk, 52);
            assert(e * (two(kk) * two(52)) == (e * two(kk)) * two(52)) by (nonlinear_arith);
            lemma_quotient_from(a, dd, two(52));
        }
        assert(excess_digits(a / e) == kk);
        assert(nearest_units(n@, d@) == q * two(kk));
        lemma_assembled(kk, q as nat, found);
    }
    if found.bits < 0x7ff0_0000_0000_0000 {
        Some(found)
    } else {
        None
    }
}

// ---------------------------------------------------------------------------
// Decimal notation
// ---------------------------------------------------------------------------

/// The place of the first `mark` or `other` in `s`, or the length of `s`.
pub open spec fn mark_place(s: Seq<char>, mark: char, other: char) -> nat
    decreases s.len(),
{
    if s.len() == 0 || s[0] == mark || s[0] == other {
        0
    } else {
        1 + mark_place(s.drop_first(), mark, other)
    }
}

/// What stands behind place `n`.
pub open spec fn behind(s: Seq<char>, n: nat) -> Seq<char> {
    if n < s.len() {
        s.skip(n as int + 1)
    } else {
        seq![]
    }
}

/// Digits with at most one point among them and, behind an `e`, an exponent: the digits as a
/// number and the power of ten that it is to be multiplied by.
pub open spec fn decimal_notation(s: Seq<char>) -> Option<(nat, int)> {
    let mark = mark_place(s, 'e', 'E');
    let exponent = if mark < s.len() {
        integer_value(behind(s, mark))
    } else {
        Some(0)
    };
    let mantissa = s.take(mark as int);
    let point = mark_place(mantissa, '.', '.');
    let fraction = behind(mantissa, point);
    let digits = mantissa.take(point as int) + fraction;
    match exponent {
        Some(exponent) if is_number(digits) => Some(
            (number_value(digits), exponent - fraction.len()),
        ),
        _ => None,
    }
}

/// The size of the double nearest to `n` times ten to the power of `exponent`.
pub open spec fn decimal_units(n: nat, exponent: int) -> nat {
    if exponent >= 0 {
        nearest_units(n * ten(exponent as nat), 1)
    } else {
        nearest_units(n, ten((-exponent) as nat))
    }
}

/// The finite double nearest to the number that `s` denotes in decimal notation, with at most
/// one sign in front; nothing when `s` denotes none or one beyond the largest double.
pub open spec fn finite_value(s: Seq<char>) -> Option<Binary64> {
    match decimal_notation(without_sign(s)) {
        Some((n, exponent)) if decimal_units(n, exponent) < overflow_units() => Some(
            with_units(has_minus(s), decimal_units(n, exponent)),
        ),
        _ => None,
    }
}

/// A minus stands in front.
pub open spec fn has_minus(s: Seq<char>) -> bool {
    s.len() > 0 && s[0] == '-'
}

/// What follows the sign, if there is one.
pub open spec fn without_sign(s: Seq<char>) -> Seq<char> {
    if s.len() > 0 && (s[0] == '+' || s[0] == '-') {
        s.drop_first()
    } else {
        s
    }
}

fn find_mark(chars: &Vec<char>, mark: char, other: char) -> (place: usize)
    ensures
        place == mark_place(chars@, mark, other),
        place <= chars@.len(),
{
    let mut i: usize = 0;
    assert(chars@.skip(0) == chars@);
    while i < chars.len() && chars[i] != mark && chars[i] != other
        invariant
            i <= chars.len(),
            mark_place(chars@, mark, other) == i + mark_place(chars@.skip(i as int), mark, other),
        decreases chars.len() - i,
    {
        assert(chars@.skip(i as int).drop_first() == chars@.skip(i + 1));
        i += 1;
    }
    i
}

fn tail_behind(chars: &Vec<char>, place: usize) -> (tail: Vec<char>)
    ensures
        tail@ == behind(chars@, place as nat),
{
    if place < chars.len() {
        let tail = slice_of(chars, place + 1, chars.len());
        assert(tail@ == chars@.skip(place + 1));
        tail
    } else {
        Vec::new()
    }
}

/// Exponents beyond this size are as good as this one.
const EXPONENT_LIMIT: i128 = 1_000_000_000_000_000_000_000;

spec fn limited(v: int) -> int {
    if v > EXPONENT_LIMIT {
        EXPONENT_LIMIT as int
    } else if v < -EXPONENT_LIMIT {
        -EXPONENT_LIMIT
    } else {
        v
    }
}

fn only_digits(chars: &Vec<char>) -> (found: bool)
    ensures
        found == is_number(chars@),
{
    let mut i: usize = 0;
    while i < chars.len()
        invariant
            i <= chars.len(),
            forall|j: int| 0 <= j < i ==> is_digit(#[trigger] chars@[j]),
        decreases chars.len() - i,
    {
        if !digit(chars[i]) {
            return false;
        }
        i += 1;
    }
    chars.len() > 0
}

/// Reads a whole number, as far as its size matters for an exponent.
fn read_exponent(chars: &Vec<char>) -> (exponent: Option<i128>)
    ensures
        match integer_value(chars@) {
            Some(v) => exponent is Some && exponent->0 == limited(v),
            None => exponent is None,
        },
{
    if chars.len() == 0 {
        return None;
    }
    let negative = chars[0] == '-';
    let start: usize = if chars[0] == '+' || chars[0] == '-' {
        1
    } else {
        0
    };
    let digits = slice_of(chars, start, chars.len());
    assert(digits@ == if start == 1 {
        chars@.drop_first()
    } else {
        chars@
    });
    if !only_digits(&digits) {
        return None;
    }
    let mut size: i128 = 0;
    let mut i: usize = 0;
    while i < digits.len()
        invariant
            i <= digits.len(),
            all_digits(digits@),
            0 <= size <= EXPONENT_LIMIT,
            size == limited(number_value(digits@.take(i as int)) as int),
        decreases digits.len() - i,
    {
        let ghost next = digits@.take(i + 1);
        assert(next.drop_last() == digits@.take(i as int));
        assert(is_digit(digits@[i as int]));
        let units: i128 = (digits[i] as u32 - 48) as i128;
        let wide: i128 = size * 10 + units;
        size = if wide > EXPONENT_LIMIT {
            EXPONENT_LIMIT
        } else {
            wide
        };
        i += 1;
    }
    assert(digits@.take(digits@.len() as int) == digits@);
    if negative {
        Some(-size)
    } else {
        Some(size)
    }
}

fn read_natural(digits: &Vec<char>) -> (number: Natural)
    requires
        all_digits(digits@),
    ensures
        number@ == number_value(digits@),
{
    let mut number = Natural::small(0);
    let mut i: usize = 0;
    while i < digits.len()
        invariant
            i <= digits.len(),
            all_digits(digits@),
            number@ == number_value(digits@.take(i as int)),
        decreases digits.len() - i,
    {
        let ghost next = digits@.take(i + 1);
        assert(next.drop_last() == digits@.take(i as int));
        assert(is_digit(digits@[i as int]));
        number = number.multiply_add(10, digits[i] as u32 - 48);
        i += 1;
    }
    assert(digits@.take(digits@.len() as int) == digits@);
    number
}

/// Multiplies by ten to the power of `k`.
fn times_ten(number: &Natural, k: u128) -> (wide: Natural)
    ensures
        wide@ == number@ * ten(k as nat),
{
    let mut wide = number.multiply_add(1, 0);
    let mut i: u128 = 0;
    assert(ten(0) == 1);
    assert(number@ * 1 == number@);
    while i < k
        invariant
            i <= k,
            wide@ == number@ * ten(i as nat),
        decreases k - i,
    {
        let ghost t = ten(i as nat);
        assert((number@ * t) * 10 == number@ * (10 * t)) by (nonlinear_arith);
        wide = wide.multiply_add(10, 0);
        i += 1;
    }
    wide
}

proof fn lemma_ten_adds(a: nat, b: nat)
    ensures
        ten(a + b) == ten(a) * ten(b),
    decreases a,
{
    if a > 0 {
        lemma_ten_adds((a - 1) as nat, b);
        let x = ten((a - 1) as nat);
        let y = ten(b);
        assert(10 * (x * y) == (10 * x) * y) by (nonlinear_arith);
        assert((a - 1) as nat + b == (a + b - 1) as nat);
    } else {
        assert(1 * ten(b) == ten(b));
    }
}

proof fn lemma_ten_from_two(k: nat)
    ensures
        ten(k) >= two(3 * k),
        ten(k) >= 1,
    decreases k,
{
    if k > 0 {
        lemma_ten_from_two((k - 1) as nat);
        let j = (3 * (k - 1)) as nat;
        assert(two(j + 1) == 2 * two(j));
        assert(two(j + 2) == 2 * two(j + 1));
        assert(two(j + 3) == 2 * two(j + 2));
        assert(j + 3 == 3 * k);
    }
}

proof fn lemma_number_value_below(s: Seq<char>)
    requires
        all_digits(s),
    ensures
        number_value(s) < ten(s.len()),
    decreases s.len(),
{
    if s.len() > 0 {
        let t = s.drop_last();
        assert forall|i: int| 0 <= i < t.len() implies is_digit(#[trigger] t[i]) by {
            assert(t[i] == s[i]);
        }
        lemma_number_value_below(t);
        assert(is_digit(s.last()));
    } else {
        assert(ten(0) == 1);
    }
}

/// Powers of ten beyond this bring every number beyond the largest double.
proof fn lemma_huge(n: nat, exponent: int)
    requires
        n >= 1,
        exponent >= 400,
    ensures
        decimal_units(n, exponent) >= overflow_units(),
{
    let e = exponent as nat;
    lemma_ten_from_two(e);
    lemma_two_monotone(1024, 3 * e);
    let m = n * ten(e);
    assert(m >= ten(e)) by (nonlinear_arith)
        requires
            n >= 1,
            m == n * ten(e),
    ;
    lemma_two_adds(1024, 1074);
    assert(m * two(1074) >= two(1024) * two(1074)) by (nonlinear_arith)
        requires
            m >= two(1024),
    ;
    lemma_overflow(m, 1, 2045);
}

/// Numbers far below the smallest double round to zero.
proof fn lemma_tiny(n: nat, len: nat, exponent: int)
    requires
        n < ten(len),
        len + exponent <= -400,
    ensures
        decimal_units(n, exponent) == 0,
{
    let d = (-exponent) as nat;
    let low = (d - 400) as nat;
    lemma_ten_adds(low, 400);
    lemma_ten_adds(len, (low - len) as nat);
    lemma_ten_from_two((low - len) as nat);
    assert(ten(len) * ten((low - len) as nat) >= ten(len)) by (nonlinear_arith)
        requires
            ten((low - len) as nat) >= 1,
    ;
    lemma_ten_from_two(400);
    lemma_two_monotone(1075, 1200);
    assert(two(1075) == 2 * two(1074));
    let t = two(1074);
    let h = ten(400);
    let l = ten(low);
    lemma_two_positive(1074);
    assert(2 * (n * t) < l * h) by (nonlinear_arith)
        requires
            n < l,
            h >= 2 * t,
            t >= 1,
    ;
    let scaled = n * t;
    assert(scaled < ten(d));
    lemma_basic_div(scaled as int, ten(d) as int);
    lemma_small_mod(scaled, ten(d));
    assert(scaled / ten(d) == 0);
    assert(binary_digits(0) == 0);
    assert(two(0) == 1);
    assert(ten(d) * two(0) == ten(d));
    assert(round_half_even(scaled, ten(d)) == 0);
    assert(excess_digits(scaled / ten(d)) == 0);
    assert(nearest_units(n, ten(d)) == 0 * two(0));
}

fn negated(x: Binary64) -> (y: Binary64)
    requires
        !x.negative(),
        x.is_finite(),
    ensures
        y.negative(),
        y.is_finite(),
        y.units() == x.units(),
{
    let y = Binary64 { bits: x.bits + 0x8000_0000_0000_0000 };
    assert(y.magnitude() == x.magnitude());
    y
}

/// The positive double nearest to the digits times a power of ten.
fn nearest_decimal(digits: &Vec<char>, exponent: i128) -> (found: Option<Binary64>)
    requires
        is_number(digits@),
        -2 * EXPONENT_LIMIT <= exponent <= 2 * EXPONENT_LIMIT,
    ensures
        match found {
            Some(x) => x.is_finite() && !x.negative() && x.units() == decimal_units(
                number_value(digits@),
                exponent as int,
            ),
            None => decimal_units(number_value(digits@), exponent as int) >= overflow_units(),
        },
{
    let number = read_natural(digits);
    let one = Natural::small(1);
    let zero = Binary64 { bits: 0 };
    assert(zero.units() == 0);
    let ghost n = number_value(digits@);
    if !number.at_least(&one) {
        proof {
            lemma_nearest_zero(exponent as int);
        }
        return Some(zero);
    }
    if exponent >= 400 {
        proof {
            lemma_huge(n, exponent as int);
        }
        return None;
    }
    let len: i128 = digits.len() as i128;
    if exponent >= 0 {
        let wide = times_ten(&number, exponent as u128);
        return nearest(&wide, &one);
    }
    if len + exponent <= -400 {
        proof {
            lemma_number_value_below(digits@);
            lemma_tiny(n, digits@.len(), exponent as int);
        }
        return Some(zero);
    }
    let below: u128 = (-exponent) as u128;
    let divisor = times_ten(&one, below);
    proof {
        lemma_ten_from_two(below as nat);
        assert(1 * ten(below as nat) == ten(below as nat));
    }
    nearest(&number, &divisor)
}

proof fn lemma_nearest_zero(exponent: int)
    ensures
        decimal_units(0, exponent) == 0,
{
    assert(binary_digits(0) == 0);
    assert(two(0) == 1);
    let d = if exponent >= 0 {
        1
    } else {
        ten((-exponent) as nat)
    };
    lemma_ten_from_two((if exponent >= 0 {
        0
    } else {
        -exponent
    }) as nat);
    assert(0 * two(1074) == 0);
    if exponent >= 0 {
        assert(0 * ten(exponent as nat) == 0);
    }
    lemma_basic_div(0, d as int);
    lemma_small_mod(0, d);
    assert(d * two(0) == d);
    assert(round_half_even(0, d) == 0);
    assert(0nat / d == 0);
    assert(excess_digits(0nat / d) == 0);
    assert(nearest_units(0, d) == 0 * two(0));
}

/// Reads a finite double from its decimal notation.
pub fn parse_finite(chars: &Vec<char>) -> (found: Option<Binary64>)
    ensures
        found == finite_value(chars@),
        found is Some ==> {
            &&& found->0.is_finite()
            &&& found->0.negative() == has_minus(chars@)
            &&& decimal_notation(without_sign(chars@)) is Some
            &&& found->0.units() == decimal_units(
                (decimal_notation(without_sign(chars@))->0).0,
                (decimal_notation(without_sign(chars@))->0).1,
            )
        },
{
    let signed = chars.len() > 0 && (chars[0] == '+' || chars[0] == '-');
    let negative = chars.len() > 0 && chars[0] == '-';
    let rest = slice_of(
        chars,
        if signed {
            1
        } else {
            0
        },
        chars.len(),
    );
    assert(rest@ == if signed {
        chars@.drop_first()
    } else {
        chars@
    });
    let mark = find_mark(&rest, 'e', 'E');
    let mantissa = slice_of(&rest, 0, mark);
    let exponent: Option<i128> = if mark < rest.len() {
        let tail = tail_behind(&rest, mark);
        read_exponent(&tail)
    } else {
        Some(0)
    };
    let point = find_mark(&mantissa, '.', '.');
    let fraction = tail_behind(&mantissa, point);
    let mut digits = slice_of(&mantissa, 0, point);
    extend(&mut digits, &fraction);
    assert(mantissa@ == rest@.take(mark as int));
    assert(digits@ == mantissa@.take(point as int) + fraction@);
    let exponent: i128 = match exponent {
        Some(exponent) => exponent,
        None => {
            return None;
        },
    };
    if !only_digits(&digits) {
        return None;
    }
    let total: i128 = exponent - fraction.len() as i128;
    let found = nearest_decimal(&digits, total);
    proof {
        let n = number_value(digits@);
        let v = if mark < rest.len() {
            integer_value(behind(rest@, mark as nat))->0
        } else {
            0
        };
        let truth = v - fraction@.len();
        assert(decimal_notation(rest@) == Some((n, truth)));
        if truth != total {
            if n == 0 {
                lemma_nearest_zero(truth);
                lemma_nearest_zero(total as int);
            } else if v > EXPONENT_LIMIT {
                lemma_huge(n, truth);
                lemma_huge(n, total as int);
            } else {
                lemma_number_value_below(digits@);
                lemma_tiny(n, digits@.len(), truth);
                lemma_tiny(n, digits@.len(), total as int);
            }
        }
    }
    match found {
        None => None,
        Some(x) => {
            let x = if negative {
                negated(x)
            } else {
                x
            };
            proof {
                lemma_with_units(x);
                lemma_below_overflow(x);
            }
            Some(x)
        },
    }
}

proof fn lemma_below_overflow(x: Binary64)
    requires
        x.is_finite(),
    ensures
        x.units() < overflow_units(),
{
    let m = 0x10_0000_0000_0000nat;
    let exponent = x.magnitude() / m;
    let fraction = x.magnitude() % m;
    lemma_two_values();
    if exponent == 0 {
        lemma_two_monotone(52, 2098);
    } else {
        let e = (exponent - 1) as nat;
        lemma_two_positive(e);
        lemma_two_adds(53, e);
        assert((m + fraction) * two(e) < two(53) * two(e)) by (nonlinear_arith)
            requires
                m + fraction < two(53),
                two(e) >= 1,
        ;
        assert(53 + e <= 2098);
        lemma_two_monotone(53 + e, 2098);
    }
}

// ---------------------------------------------------------------------------
// Multiples and whole parts
// ---------------------------------------------------------------------------

/// The whole part of a number of the given size, but at most `u64::MAX`.
pub open spec fn whole_part(units: nat) -> u64 {
    if units / two(1074) > u64::MAX {
        u64::MAX
    } else {
        (units / two(1074)) as u64
    }
}

/// The double nearest to `factor` times `x`, cut down to a whole number, but at most
/// `u64::MAX`.
pub open spec fn whole_multiple(x: Binary64, factor: u64) -> u64 {
    whole_part(nearest_units(x.units() * (factor as nat), two(1074)))
}

proof fn lemma_whole_part_of_shifted(m: nat, e: nat)
    ensures
        e >= 1074 ==> m * two(e) / two(1074) == m * two((e - 1074) as nat),
        e < 1074 ==> m * two(e) / two(1074) == m / two((1074 - e) as nat),
{
    if e >= 1074 {
        let r = (e - 1074) as nat;
        lemma_two_adds(1074, r);
        lemma_two_positive(1074);
        let t = two(1074);
        let x = m * two(r);
        assert(m * (t * two(r)) == t * x + 0) by (nonlinear_arith)
            requires
                x == m * two(r),
        ;
        lemma_fundamental_div_mod_converse((m * two(e)) as int, t as int, x as int, 0);
    } else {
        let r = (1074 - e) as nat;
        lemma_two_adds(e, r);
        lemma_two_positive(e);
        lemma_two_positive(r);
        let s = two(e);
        let t = two(r);
        lemma_fundamental_div_mod(m as int, t as int);
        let q = m / t;
        let rest = m % t;
        assert(m * s == (s * t) * q + rest * s) by (nonlinear_arith)
            requires
                m == t * q + rest,
        ;
        assert(0 <= rest * s < s * t) by (nonlinear_arith)
            requires
                0 <= rest < t,
                s >= 1,
        ;
        lemma_fundamental_div_mod_converse((m * s) as int, (s * t) as int, q as int, (rest * s) as int);
    }
}

/// The whole part of a positive double, but at most `u64::MAX`.
fn truncated(x: Binary64) -> (whole: u64)
    requires
        x.is_finite(),
        !x.negative(),
    ensures
        whole == whole_part(x.units()),
{
    let exponent: u64 = x.bits / 0x10_0000_0000_0000;
    let fraction: u64 = x.bits % 0x10_0000_0000_0000;
    proof {
        lemma_two_values();
    }
    if exponent == 0 {
        proof {
            lemma_two_monotone(52, 1074);
            lemma_basic_div(x.units() as int, two(1074) as int);
        }
        return 0;
    }
    let mut m: u64 = 0x10_0000_0000_0000 + fraction;
    let ghost full = m as nat;
    let ghost e = (exponent - 1) as nat;
    proof {
        lemma_whole_part_of_shifted(full, e);
    }
    if exponent >= 1087 {
        proof {
            let r = (e - 1074) as nat;
            lemma_two_monotone(12, r);
            assert(two(12) == 4096) by {
                reveal_with_fuel(two, 13);
            }
            assert(full * two(r) >= two(52) * 4096) by (nonlinear_arith)
                requires
                    full >= two(52),
                    two(r) >= 4096,
            ;
        }
        return u64::MAX;
    }
    if exponent >= 1075 {
        let mut k: u64 = 1075;
        proof {
            assert(two((k - 1075) as nat) == 1);
            assert(full * 1 == full);
        }
        while k < exponent
            invariant
                1075 <= k <= exponent < 1087,
                m == full * two((k - 1075) as nat),
                full < two(53),
            decreases exponent - k,
        {
            let ghost r = (k - 1075) as nat;
            proof {
                lemma_two_values();
                lemma_two_monotone(r, 10);
                assert(two(10) == 1024) by {
                    reveal_with_fuel(two, 11);
                }
                lemma_two_positive(r);
                assert(full * two(r) < two(53) * 1024) by (nonlinear_arith)
                    requires
                        full < two(53),
                        1 <= two(r) <= 1024,
                ;
                assert(two(r + 1) == 2 * two(r));
                assert(2 * (full * two(r)) == full * (2 * two(r))) by (nonlinear_arith);
            }
            m = 2 * m;
            k += 1;
        }
        return m;
    }
    let mut k: u64 = 1075;
    assert(two((1075 - k) as nat) == 1);
    assert(full / 1 == full);
    while k > exponent
        invariant
            exponent <= k <= 1075,
            m == full / two((1075 - k) as nat),
        decreases k,
    {
        let ghost r = (1075 - k) as nat;
        proof {
            lemma_two_positive(r);
            lemma_div_denominator(full as int, two(r) as int, 2);
            assert(two(r + 1) == 2 * two(r));
            assert(two(r) * 2 == two(r + 1));
        }
        m = m / 2;
        k -= 1;
    }
    m
}

/// Multiplies by a whole number and cuts the result down to a whole number.
pub fn multiply_whole(x: Binary64, factor: u64) -> (whole: u64)
    requires
        x.is_finite(),
        !x.negative(),
    ensures
        whole == whole_multiple(x, factor),
{
    let exponent: u64 = x.bits / 0x10_0000_0000_0000;
    let fraction: u64 = x.bits % 0x10_0000_0000_0000;
    let m: u64 = if exponent == 0 {
        fraction
    } else {
        0x10_0000_0000_0000 + fraction
    };
    let shift: usize = if exponent == 0 {
        0
    } else {
        (exponent - 1) as usize
    };
    assert(m * factor <= 0x20_0000_0000_0000 * 0xffff_ffff_ffff_ffff) by (nonlinear_arith)
        requires
            m <= 0x20_0000_0000_0000,
            factor <= 0xffff_ffff_ffff_ffff,
    ;
    let product: u128 = (m as u128) * (factor as u128);
    let number = Natural::wide(product);
    let n = shifted(&number, shift);
    let one = Natural::small(1);
    let d = shifted(&one, 1074);
    proof {
        let t = two(shift as nat);
        assert(two(0) == 1);
        assert(x.units() == m * t);
        assert((m * factor) * t == (m * t) * factor) by (nonlinear_arith);
        lemma_two_positive(1074);
        assert(1 * two(1074) == two(1074));
    }
    match nearest(&n, &d) {
        Some(y) => truncated(y),
        None => {
            proof {
                let u = nearest_units(n@, d@);
                lemma_two_positive(1074);
                lemma_two_adds(1074, 1024);
                lemma_quotient_from(u, two(1074), two(1024));
                lemma_two_values();
                lemma_two_adds(52, 12);
                assert(two(12) == 4096) by {
                    reveal_with_fuel(two, 13);
                }
                lemma_two_monotone(64, 1024);
            }
            u64::MAX
        },
    }
}

/// The bit pattern of ten is that of ten.
pub proof fn lemma_ten()
    ensures
        (Binary64 { bits: 0x4024_0000_0000_0000 }).is_finite(),
        (Binary64 { bits: 0x4024_0000_0000_0000 }).value() == 10 * two(1074),
{
    let ten = Binary64 { bits: 0x4024_0000_0000_0000 };
    assert(ten.magnitude() == 0x4024_0000_0000_0000);
    assert(ten.magnitude() / 0x10_0000_0000_0000 == 1026);
    assert(ten.magnitude() % 0x10_0000_0000_0000 == 0x4_0000_0000_0000);
    lemma_two_values();
    lemma_two_adds(49, 1025);
    assert(two(3) == 8) by {
        reveal_with_fuel(two, 4);
    }
    lemma_two_adds(49, 3);
    assert(two(49) * 8 == 0x10_0000_0000_0000);
    assert(ten.units() == 0x14_0000_0000_0000 * two(1025));
    assert(0x14_0000_0000_0000 * two(1025) == 10 * (two(49) * two(1025))) by (nonlinear_arith)
        requires
            two(49) * 8 == 0x10_0000_0000_0000,
    ;
}

/// Rounding goes to the nearest whole number, and where two are equally near to the even one.
pub proof fn rounding_goes_to_the_nearest_and_even(n: nat, d: nat)
    requires
        d > 0,
    ensures
        ({
            let off = round_half_even(n, d) * d - n;
            &&& -(d as int) <= 2 * off <= d
            &&& 2 * off == d || 2 * off == -(d as int) ==> round_half_even(n, d) % 2 == 0
        }),
{
    let q = n / d;
    let r = n % d;
    lemma_fundamental_div_mod(n as int, d as int);
    lemma_mod_bound(n as int, d as int);
    assert(n == d * q + r);
    assert((q + 1) * d == d * q + d) by (nonlinear_arith);
    assert(q * d == d * q) by (nonlinear_arith);
    if 2 * r == d {
        assert((q + q % 2) % 2 == 0);
        if q % 2 == 0 {
            assert((q + q % 2) * d == d * q) by (nonlinear_arith)
                requires
                    q % 2 == 0,
            ;
        } else {
            assert(q % 2 == 1);
            assert((q + q % 2) * d == d * q + d) by (nonlinear_arith)
                requires
                    q % 2 == 1,
            ;
        }
    }
}

/// The double nearest to a fraction keeps 53 binary digits of it: the distance to the fraction is
/// at most half of the last digit kept, and all digits are kept where there are no more than 53.
pub proof fn nearest_doubles_keep_53_digits(n: nat, d: nat)
    requires
        d > 0,
    ensures
        ({
            let scaled = n * two(1074);
            let grid = two(excess_digits(scaled / d));
            let off = nearest_units(n, d) * d - scaled;
            &&& -(d * grid) <= 2 * off <= d * grid
            &&& nearest_units(n, d) % grid == 0
            &&& scaled / d < two(53) ==> grid == 1
            &&& scaled / d >= two(53) ==> two(52) * grid <= scaled / d < two(53) * grid
        }),
{
    let scaled = n * two(1074);
    let quotient = scaled / d;
    let excess = excess_digits(quotient);
    let grid = two(excess);
    lemma_two_positive(excess);
    assert(d * grid > 0) by (nonlinear_arith)
        requires
            d > 0,
            grid >= 1,
    ;
    rounding_goes_to_the_nearest_and_even(scaled, d * grid);
    let m = round_half_even(scaled, d * grid);
    assert(m * (d * grid) == (m * grid) * d) by (nonlinear_arith);
    lemma_mod_multiples_basic(m as int, grid as int);
    if quotient < two(53) {
        lemma_binary_digits_below(quotient, 53);
        assert(two(0) == 1);
    } else {
        lemma_binary_digits_from(quotient, 53);
        lemma_digits_bound(quotient);
        lemma_two_adds(52, excess);
        lemma_two_adds(53, excess);
    }
}

proof fn lemma_digits_bound(x: nat)
    ensures
        x < two(binary_digits(x)),
        x > 0 ==> two((binary_digits(x) - 1) as nat) <= x,
    decreases x,
{
    if x > 0 {
        lemma_digits_bound(x / 2);
    }
}

/// The whole part of a number is the largest whole number that is not larger, as far as it can be
/// counted.
pub proof fn whole_parts_are_cut_down(units: nat)
    ensures
        whole_part(units) < u64::MAX ==> whole_part(units) * two(1074) <= units < (whole_part(units)
            + 1) * two(1074),
        whole_part(units) == u64::MAX ==> u64::MAX * two(1074) <= units,
{
    let t = two(1074);
    lemma_two_positive(1074);
    lemma_fundamental_div_mod(units as int, t as int);
    lemma_mod_bound(units as int, t as int);
    let q = units / t;
    assert(units == t * q + units % t);
    assert(q * t == t * q) by (nonlinear_arith);
    assert((q + 1) * t == t * q + t) by (nonlinear_arith);
    if q > u64::MAX {
        assert(u64::MAX * t <= q * t) by (nonlinear_arith)
            requires
                q > u64::MAX,
                t >= 1,
        ;
    }
}

proof fn lemma_mark_place(front: Seq<char>, tail: Seq<char>, mark: char, other: char)
    requires
        forall|i: int| 0 <= i < front.len() ==> #[trigger] front[i] != mark && front[i] != other,
        tail.len() > 0 ==> tail[0] == mark || tail[0] == other,
    ensures
        mark_place(front + tail, mark, other) == front.len(),
    decreases front.len(),
{
    let whole = front + tail;
    if front.len() == 0 {
        assert(whole =~= tail);
    } else {
        let rest = front.drop_first();
        assert forall|i: int| 0 <= i < rest.len() implies #[trigger] rest[i] != mark && rest[i]
            != other by {
            assert(rest[i] == front[i + 1]);
        }
        lemma_mark_place(rest, tail, mark, other);
        assert(whole.drop_first() =~= rest + tail);
        assert(whole[0] == front[0]);
    }
}

/// Decimal notation: the digits before and behind the point, at least one of them, make a whole
/// number, to be multiplied by the power of ten that the exponent says less one for each digit
/// behind the point. Point and exponent may be left out; the letter before the exponent is `e`, in
/// capitals or not.
pub proof fn decimal_notation_counts_by_powers_of_ten(
    whole: Seq<char>,
    fraction: Seq<char>,
    point: bool,
    letter: char,
    exponent: Option<Seq<char>>,
)
    requires
        letter == 'e' || letter == 'E',
        whole.len() + fraction.len() > 0,
        forall|i: int| 0 <= i < whole.len() ==> 48 <= (#[trigger] whole[i]) as int <= 57,
        forall|i: int| 0 <= i < fraction.len() ==> 48 <= (#[trigger] fraction[i]) as int <= 57,
        !point ==> fraction.len() == 0,
        exponent is Some ==> integer_value(exponent->0) is Some,
    ensures
        ({
            let mantissa = if point {
                whole + seq!['.'] + fraction
            } else {
                whole
            };
            let text = match exponent {
                Some(exponent) => mantissa + seq![letter] + exponent,
                None => mantissa,
            };
            decimal_notation(text) == Some(
                (
                    number_value(whole + fraction),
                    (match exponent {
                        Some(exponent) => integer_value(exponent)->0,
                        None => 0,
                    }) - fraction.len(),
                ),
            )
        }),
{
    let point_and_fraction = if point {
        seq!['.'] + fraction
    } else {
        Seq::empty()
    };
    let mantissa = if point {
        whole + seq!['.'] + fraction
    } else {
        whole
    };
    assert(mantissa =~= whole + point_and_fraction);
    let tail = match exponent {
        Some(exponent) => seq![letter] + exponent,
        None => Seq::empty(),
    };
    let text = match exponent {
        Some(exponent) => mantissa + seq![letter] + exponent,
        None => mantissa,
    };
    assert(text =~= mantissa + tail);
    assert forall|i: int| 0 <= i < mantissa.len() implies #[trigger] mantissa[i] != 'e'
        && mantissa[i] != 'E' by {
        if i < whole.len() {
            assert(mantissa[i] == whole[i]);
        } else if i > whole.len() {
            assert(mantissa[i] == fraction[i - whole.len() - 1]);
        }
    }
    lemma_mark_place(mantissa, tail, 'e', 'E');
    assert(text.take(mantissa.len() as int) =~= mantissa);
    assert forall|i: int| 0 <= i < whole.len() implies #[trigger] whole[i] != '.' by {
        assert(48 <= whole[i] as int <= 57);
    }
    lemma_mark_place(whole, point_and_fraction, '.', '.');
    assert(mantissa.take(whole.len() as int) =~= whole);
    assert(behind(mantissa, whole.len()) =~= fraction);
    match exponent {
        Some(exponent) => {
            assert(behind(text, mantissa.len()) =~= exponent);
        },
        None => {},
    }
    let digits = whole + fraction;
    assert forall|i: int| 0 <= i < digits.len() implies is_digit(#[trigger] digits[i]) by {
        if i < whole.len() {
            assert(digits[i] == whole[i]);
        } else {
            assert(digits[i] == fraction[i - whole.len()]);
        }
    }
}

proof fn lemma_mark_within(s: Seq<char>, mark: char, other: char)
    ensures
        mark_place(s, mark, other) <= s.len(),
        mark_place(s, mark, other) < s.len() ==> s[mark_place(s, mark, other) as int] == mark || s[
        mark_place(s, mark, other) as int] == other,
    decreases s.len(),
{
    if s.len() > 0 && s[0] != mark && s[0] != other {
        lemma_mark_within(s.drop_first(), mark, other);
    }
}

/// Nothing else is decimal notation: digits, points, the letter `e` and signs are all that it
/// holds, and it begins with a digit or a point.
pub proof fn decimal_notation_holds_nothing_else(s: Seq<char>, i: int)
    requires
        decimal_notation(s) is Some,
        0 <= i < s.len(),
    ensures
        48 <= s[i] as int <= 57 || s[i] == '.' || s[i] == 'e' || s[i] == 'E' || s[i] == '+' || s[i]
            == '-',
        48 <= s[0] as int <= 57 || s[0] == '.',
        decimal_notation(Seq::<char>::empty()) is None,
{
    let mark = mark_place(s, 'e', 'E');
    lemma_mark_within(s, 'e', 'E');
    let mantissa = s.take(mark as int);
    let point = mark_place(mantissa, '.', '.');
    lemma_mark_within(mantissa, '.', '.');
    let fraction = behind(mantissa, point);
    let digits = mantissa.take(point as int) + fraction;
    assert(digits.len() > 0);
    assert(is_number(digits));
    lemma_of_mantissa(s, i);
    lemma_of_mantissa(s, 0);
    assert(mark > 0);
}

proof fn lemma_of_mantissa(s: Seq<char>, i: int)
    requires
        decimal_notation(s) is Some,
        0 <= i < s.len(),
    ensures
        i < mark_place(s, 'e', 'E') ==> is_digit(s[i]) || s[i] == '.',
        i >= mark_place(s, 'e', 'E') ==> is_digit(s[i]) || s[i] == 'e' || s[i] == 'E' || s[i] == '+'
            || s[i] == '-',
{
    let mark = mark_place(s, 'e', 'E');
    lemma_mark_within(s, 'e', 'E');
    let mantissa = s.take(mark as int);
    let point = mark_place(mantissa, '.', '.');
    lemma_mark_within(mantissa, '.', '.');
    let fraction = behind(mantissa, point);
    let digits = mantissa.take(point as int) + fraction;
    if i < mark {
        assert(mantissa[i] == s[i]);
        if i < point {
            assert(digits[i] == s[i]);
        } else if i > point {
            assert(fraction[i - point - 1] == s[i]);
            assert(digits[i - 1] == s[i]);
        }
    } else if i > mark {
        let tail = behind(s, mark);
        assert(tail[i - mark - 1] == s[i]);
        assert(integer_value(tail) is Some);
        if tail[0] == '+' || tail[0] == '-' {
            if i - mark - 1 > 0 {
                assert(tail.drop_first()[i - mark - 2] == s[i]);
            }
        }
    }
}

/// In decimal notation there is at most one point, before the exponent, and nothing but digits
/// around it; and where there is an exponent, it is a whole number.
pub proof fn decimal_notation_has_one_point_and_one_exponent(s: Seq<char>) -> (places: (int, int))
    requires
        decimal_notation(s) is Some,
    ensures
        0 <= places.0 <= places.1 <= s.len(),
        forall|i: int|
            0 <= i < places.1 && i != places.0 ==> 48 <= (#[trigger] s[i]) as int <= 57,
        places.0 < places.1 ==> s[places.0] == '.',
        places.1 < s.len() ==> (s[places.1] == 'e' || s[places.1] == 'E') && integer_value(
            s.skip(places.1 + 1),
        ) is Some,
{
    let mark = mark_place(s, 'e', 'E');
    lemma_mark_within(s, 'e', 'E');
    let mantissa = s.take(mark as int);
    let point = mark_place(mantissa, '.', '.');
    lemma_mark_within(mantissa, '.', '.');
    let fraction = behind(mantissa, point);
    let digits = mantissa.take(point as int) + fraction;
    assert forall|i: int| 0 <= i < mark && i != point implies 48 <= (#[trigger] s[i]) as int
        <= 57 by {
        assert(mantissa[i] == s[i]);
        if i < point {
            assert(digits[i] == s[i]);
            assert(is_digit(digits[i]));
        } else {
            assert(fraction[i - point - 1] == s[i]);
            assert(digits[i - 1] == s[i]);
            assert(is_digit(digits[i - 1]));
        }
    }
    (point as int, mark as int)
}

/// A number in decimal notation is multiplied by ten as often as the exponent says, or divided by
/// ten where that is negative; the double is the one nearest to it.
pub proof fn decimals_are_scaled_by_powers_of_ten(n: nat, k: nat)
    ensures
        decimal_units(n, k as int) == nearest_units(n * ten(k), 1),
        k > 0 ==> decimal_units(n, -(k as int)) == nearest_units(n, ten(k)),
        ten(0) == 1,
        ten(k + 1) == 10 * ten(k),
        two(0) == 1,
        two(k + 1) == 2 * two(k),
{
}

/// What is read from a text is the double nearest to what stands behind its sign, negative exactly
/// where that is a minus. Nothing is read exactly where no decimal notation stands there, or where
/// the number lies beyond the largest double.
pub proof fn texts_are_read_as_the_nearest_double(chars: &Vec<char>, found: Option<Binary64>)
    requires
        call_ensures(parse_finite, (chars,), found),
    ensures
        ({
            let s = chars@;
            let signed = s.len() > 0 && (s[0] == '+' || s[0] == '-');
            let notation = decimal_notation(
                if signed {
                    s.skip(1)
                } else {
                    s
                },
            );
            &&& found is Some <==> notation is Some && decimal_units(
                (notation->0).0,
                (notation->0).1,
            ) < two(2098)
            &&& found is Some ==> found->0.is_finite() && (found->0.negative() <==> s[0] == '-')
                && found->0.units() == decimal_units((notation->0).0, (notation->0).1)
        }),
{
    let s = chars@;
    if s.len() > 0 {
        assert(s.drop_first() =~= s.skip(1));
    }
    if found is Some {
        if s.len() == 0 {
            assert(without_sign(s) =~= Seq::empty());
            assert(decimal_notation(Seq::<char>::empty()) is None);
        }
    }
}

/// A multiple of a number is the double nearest to the product, cut down to a whole number.
pub proof fn multiples_are_rounded_and_cut_down(x: Binary64, factor: u64, whole: u64)
    requires
        call_ensures(multiply_whole, (x, factor), whole),
        !x.negative(),
        x.is_finite(),
    ensures
        whole == whole_part(nearest_units(x.units() * (factor as nat), two(1074))),
{
}

/// A bit pattern is that of a finite number, of an infinity or of no number, by its size without
/// the sign.
pub proof fn doubles_are_finite_infinite_or_no_numbers(x: Binary64)
    ensures
        x.is_finite() <==> x.bits % 0x8000_0000_0000_0000 < 0x7ff0_0000_0000_0000,
        x.is_nan() <==> x.bits % 0x8000_0000_0000_0000 > 0x7ff0_0000_0000_0000,
        x.negative() <==> x.bits >= 0x8000_0000_0000_0000,
        x.value() == if x.negative() {
            -(x.units() as int)
        } else {
            x.units() as int
        },
{
}

} // verus!
