//! Exact decimal amounts of any size.

use crate::chars::{first_index_of, lemma_first_index_of_is};
use crate::text::chars_of;
use vstd::prelude::*;

verus! {

/// Ten to the power `n`.
pub open spec fn pow10(n: nat) -> nat
    decreases n,
{
    if n == 0 {
        1
    } else {
        10 * pow10((n - 1) as nat)
    }
}

/// A decimal number: the value `unscaled / 10^scale`, written with `scale`
/// digits after the decimal point.
pub struct Decimal {
    pub unscaled: int,
    pub scale: nat,
}

impl Decimal {
    /// Zero, written without a fraction.
    pub open spec fn zero() -> Decimal {
        Decimal { unscaled: 0, scale: 0 }
    }

    /// The whole number `n`.
    pub open spec fn whole(n: int) -> Decimal {
        Decimal { unscaled: n, scale: 0 }
    }

    /// The number of units of `10^-scale` in the value, for a `scale` that is
    /// at least the number's own.
    pub open spec fn units_at(self, scale: nat) -> int
        recommends
            scale >= self.scale,
    {
        self.unscaled * pow10((scale - self.scale) as nat)
    }

    /// The larger of the two scales.
    pub open spec fn common_scale(self, other: Decimal) -> nat {
        if self.scale >= other.scale {
            self.scale
        } else {
            other.scale
        }
    }

    /// The exact sum, at the larger of the two scales.
    pub open spec fn plus(self, other: Decimal) -> Decimal {
        let scale = self.common_scale(other);
        Decimal { unscaled: self.units_at(scale) + other.units_at(scale), scale }
    }

    /// The exact difference, at the larger of the two scales.
    pub open spec fn minus(self, other: Decimal) -> Decimal {
        let scale = self.common_scale(other);
        Decimal { unscaled: self.units_at(scale) - other.units_at(scale), scale }
    }

    /// The number with its sign changed.
    pub open spec fn negated(self) -> Decimal {
        Decimal { unscaled: -self.unscaled, scale: self.scale }
    }

    /// The magnitude of the unscaled value.
    pub open spec fn magnitude(self) -> nat {
        if self.unscaled < 0 {
            (-self.unscaled) as nat
        } else {
            self.unscaled as nat
        }
    }

    /// The numeral of the number: a `-` if it is below zero, at least one
    /// digit before the decimal point, and, if the scale is not zero, the
    /// point and exactly `scale` digits after it.
    pub open spec fn text(self) -> Seq<char> {
        let digits = padded_digits(self.magnitude(), self.scale);
        let cut = digits.len() - self.scale;
        let body = if self.scale == 0 {
            digits
        } else {
            digits.take(cut) + seq!['.'] + digits.skip(cut)
        };
        if self.unscaled < 0 {
            seq!['-'] + body
        } else {
            body
        }
    }

    /// Whether the two numbers have the same value, whatever their scales.
    pub open spec fn same_value(self, other: Decimal) -> bool {
        let scale = self.common_scale(other);
        self.units_at(scale) == other.units_at(scale)
    }
}

/// Whether `c` is a decimal digit.
pub open spec fn is_digit(c: char) -> bool {
    '0' <= c <= '9'
}

/// The number that the digit `c` stands for.
pub open spec fn digit_value(c: char) -> nat
    recommends
        is_digit(c),
{
    (c as int - '0' as int) as nat
}

/// Whether `s` is made of decimal digits only.
pub open spec fn all_digits(s: Seq<char>) -> bool {
    forall|i: int| 0 <= i < s.len() ==> is_digit(#[trigger] s[i])
}

/// The number that a string of decimal digits stands for; the empty string
/// stands for zero.
pub open spec fn digits_value(s: Seq<char>) -> nat
    decreases s.len(),
{
    if s.len() == 0 {
        0
    } else {
        digits_value(s.drop_last()) * 10 + digit_value(s.last())
    }
}

/// The number that an unsigned decimal numeral stands for: digits, with at
/// most one decimal point among them, before or after which the digits may
/// be missing, but not both.
pub open spec fn parse_unsigned(body: Seq<char>) -> Option<Decimal> {
    let dot = first_index_of(body, '.') as int;
    let whole = body.take(dot);
    let fraction = if dot < body.len() {
        body.skip(dot + 1)
    } else {
        Seq::empty()
    };
    if all_digits(whole) && all_digits(fraction) && whole.len() + fraction.len() > 0 {
        Some(Decimal { unscaled: digits_value(whole + fraction) as int, scale: fraction.len() })
    } else {
        None
    }
}

/// The number that a decimal numeral stands for: an optional sign, `+` or
/// `-`, then an unsigned numeral. Anything else is no number.
pub open spec fn parse_decimal(text: Seq<char>) -> Option<Decimal> {
    if text.len() > 0 && (text[0] == '-' || text[0] == '+') {
        match parse_unsigned(text.skip(1)) {
            Some(d) => Some(
                if text[0] == '-' {
                    d.negated()
                } else {
                    d
                },
            ),
            None => None,
        }
    } else {
        parse_unsigned(text)
    }
}

/// The character that stands for the digit `d`.
pub open spec fn digit_char(d: nat) -> char
    recommends
        d < 10,
{
    ('0' as int + d) as char
}

/// The decimal digits of `m`, most significant first, without leading zeros;
/// zero is the single digit `0`.
pub open spec fn nat_digits(m: nat) -> Seq<char>
    decreases m,
{
    if m < 10 {
        seq![digit_char(m)]
    } else {
        nat_digits(m / 10).push(digit_char(m % 10))
    }
}

/// The decimal digits of `m`, most significant first, with zeros in front
/// where `m` has fewer than `scale + 1` digits.
pub open spec fn padded_digits(m: nat, scale: nat) -> Seq<char>
    decreases scale,
{
    if scale == 0 {
        nat_digits(m)
    } else {
        padded_digits(m / 10, (scale - 1) as nat).push(digit_char(m % 10))
    }
}

/// The number that a sequence of digits stands for, least significant digit
/// first.
pub open spec fn le_value(digits: Seq<u8>) -> nat
    decreases digits.len(),
{
    if digits.len() == 0 {
        0
    } else {
        digits[0] as nat + 10 * le_value(digits.skip(1))
    }
}

/// Whether every element of `digits` is a decimal digit.
pub open spec fn valid_digits(digits: Seq<u8>) -> bool {
    forall|i: int| 0 <= i < digits.len() ==> #[trigger] digits[i] < 10
}

/// Whether `digits` has no zero at its most significant end.
pub open spec fn trimmed(digits: Seq<u8>) -> bool {
    digits.len() > 0 ==> digits.last() != 0
}

proof fn lemma_le_value_push(digits: Seq<u8>, d: u8)
    ensures
        le_value(digits.push(d)) == le_value(digits) + d * pow10(digits.len()),
    decreases digits.len(),
{
    let pushed = digits.push(d);
    if digits.len() == 0 {
        assert(pushed.skip(1) == Seq::<u8>::empty());
        assert(le_value(pushed.skip(1)) == 0);
        assert(pushed[0] == d);
        assert(pow10(0) == 1);
        assert(d * pow10(digits.len()) == d) by (nonlinear_arith)
            requires
                pow10(digits.len()) == 1,
        ;
    } else {
        let rest = digits.skip(1);
        assert(pushed.skip(1) == rest.push(d));
        lemma_le_value_push(rest, d);
        assert(pow10(digits.len()) == 10 * pow10(rest.len()));
        assert(10 * (d * pow10(rest.len())) == d * pow10(digits.len())) by (nonlinear_arith)
            requires
                pow10(digits.len()) == 10 * pow10(rest.len()),
        ;
        assert(pushed[0] == digits[0]);
    }
}

/// A digit string read from its last character backwards has the value of
/// the string.
proof fn lemma_reversed_value(digits: Seq<u8>, s: Seq<char>)
    requires
        digits.len() == s.len(),
        forall|i: int| 0 <= i < digits.len() ==> digits[i] == digit_value(s[s.len() - 1 - i]),
    ensures
        le_value(digits) == digits_value(s),
    decreases s.len(),
{
    if s.len() > 0 {
        let rest = digits.skip(1);
        let init = s.drop_last();
        assert forall|i: int| 0 <= i < rest.len() implies rest[i] == digit_value(
            init[init.len() - 1 - i],
        ) by {
            assert(rest[i] == digits[i + 1]);
        }
        lemma_reversed_value(rest, init);
    }
}

/// The digit of `digits` at position `i`, zero beyond its end.
spec fn digit_at(digits: Seq<u8>, i: int) -> nat {
    if 0 <= i < digits.len() {
        digits[i] as nat
    } else {
        0
    }
}

/// The value of the `i` least significant digits of `digits`.
spec fn low_value(digits: Seq<u8>, i: nat) -> nat {
    if i <= digits.len() {
        le_value(digits.take(i as int))
    } else {
        le_value(digits)
    }
}

proof fn lemma_low_value_step(digits: Seq<u8>, i: nat)
    ensures
        low_value(digits, i + 1) == low_value(digits, i) + digit_at(digits, i as int) * pow10(i),
{
    if i < digits.len() {
        let shorter = digits.take(i as int);
        assert(digits.take(i as int + 1) == shorter.push(digits[i as int]));
        lemma_le_value_push(shorter, digits[i as int]);
        if i + 1 == digits.len() {
            assert(digits.take(i as int + 1) == digits);
        }
    } else {
        assert(digits.take(digits.len() as int) == digits);
        assert(0 * pow10(i) == 0);
    }
}

proof fn lemma_low_value_ends(digits: Seq<u8>, i: nat)
    ensures
        low_value(digits, 0) == 0,
        i >= digits.len() ==> low_value(digits, i) == le_value(digits),
{
    assert(digits.take(0).len() == 0);
    assert(digits.take(digits.len() as int) == digits);
}

proof fn lemma_le_value_bound(digits: Seq<u8>)
    requires
        valid_digits(digits),
    ensures
        le_value(digits) < pow10(digits.len()),
    decreases digits.len(),
{
    if digits.len() > 0 {
        let rest = digits.skip(1);
        assert forall|i: int| 0 <= i < rest.len() implies #[trigger] rest[i] < 10 by {
            assert(rest[i] == digits[i + 1]);
        }
        lemma_le_value_bound(rest);
        assert(digits[0] < 10);
    }
}

/// A number with digits and no zero at its most significant end is not
/// zero.
proof fn lemma_trimmed_is_positive(digits: Seq<u8>)
    requires
        trimmed(digits),
        digits.len() > 0,
    ensures
        le_value(digits) > 0,
    decreases digits.len(),
{
    if digits.len() > 1 {
        let rest = digits.skip(1);
        assert(rest.last() == digits.last());
        lemma_trimmed_is_positive(rest);
    } else {
        assert(digits[0] == digits.last());
    }
}

/// Putting `k` zeros below the digits of a number multiplies it by `10^k`.
proof fn lemma_le_value_shift(digits: Seq<u8>, k: nat)
    ensures
        le_value(Seq::new(k, |i: int| 0u8) + digits) == le_value(digits) * pow10(k),
    decreases k,
{
    let zeros = Seq::new(k, |i: int| 0u8);
    if k == 0 {
        assert(zeros + digits == digits);
        assert(le_value(digits) * pow10(0) == le_value(digits)) by (nonlinear_arith)
            requires
                pow10(0) == 1,
        ;
    } else {
        let fewer = Seq::new((k - 1) as nat, |i: int| 0u8);
        assert((zeros + digits).skip(1) == fewer + digits);
        assert((zeros + digits)[0] == 0);
        lemma_le_value_shift(digits, (k - 1) as nat);
        assert(10 * (le_value(digits) * pow10((k - 1) as nat)) == le_value(digits) * pow10(k))
            by (nonlinear_arith)
            requires
                pow10(k) == 10 * pow10((k - 1) as nat),
        ;
    }
}

/// One column of a sum: the digits `da` and `db` and the carry `c` give the
/// digit `d` and the carry `c2`.
proof fn lemma_sum_column(r: nat, a: nat, b: nat, p: nat, da: nat, db: nat, c: nat, d: nat, c2: nat)
    requires
        r + c * p == a + b,
        da + db + c == d + 10 * c2,
    ensures
        (r + d * p) + c2 * (10 * p) == (a + da * p) + (b + db * p),
{
    assert((da + db + c) * p == (d + 10 * c2) * p);
    assert((da + db + c) * p == da * p + db * p + c * p) by (nonlinear_arith);
    assert((d + 10 * c2) * p == d * p + c2 * (10 * p)) by (nonlinear_arith);
}

/// One column of a difference: the digits `da` and `db` and the borrow `c`
/// give the digit `d` and the borrow `c2`.
proof fn lemma_difference_column(
    r: nat,
    a: nat,
    b: nat,
    p: nat,
    da: nat,
    db: nat,
    c: nat,
    d: nat,
    c2: nat,
)
    requires
        r + b == a + c * p,
        d + db + c == da + 10 * c2,
    ensures
        (r + d * p) + (b + db * p) == (a + da * p) + c2 * (10 * p),
{
    assert((d + db + c) * p == (da + 10 * c2) * p);
    assert((d + db + c) * p == d * p + db * p + c * p) by (nonlinear_arith);
    assert((da + 10 * c2) * p == da * p + c2 * (10 * p)) by (nonlinear_arith);
}

/// The value of the digits of `digits` from position `p` upwards.
spec fn high_value(digits: Seq<u8>, p: int) -> nat {
    if 0 <= p <= digits.len() {
        le_value(digits.skip(p))
    } else {
        0
    }
}

proof fn lemma_high_value_step(digits: Seq<u8>, p: int)
    requires
        0 <= p,
    ensures
        high_value(digits, p) == digit_at(digits, p) + 10 * high_value(digits, p + 1),
{
    if p < digits.len() {
        assert(digits.skip(p).skip(1) == digits.skip(p + 1));
    } else if p == digits.len() {
        assert(digits.skip(p).len() == 0);
    }
}

proof fn lemma_high_value_positive(digits: Seq<u8>, p: int)
    requires
        trimmed(digits),
        0 <= p < digits.len(),
    ensures
        high_value(digits, p) > 0,
{
    assert(digits.skip(p).last() == digits.last());
    lemma_trimmed_is_positive(digits.skip(p));
}

proof fn lemma_digit_char(d: nat)
    requires
        d < 10,
    ensures
        is_digit(digit_char(d)),
        digit_value(digit_char(d)) == d,
        digit_char(d) != '.',
        digit_char(d) != '-',
        digit_char(d) != '+',
{
}

/// The digits of a number are digits, at least one of them, and stand for
/// the number.
pub proof fn lemma_nat_digits(m: nat)
    ensures
        nat_digits(m).len() >= 1,
        all_digits(nat_digits(m)),
        digits_value(nat_digits(m)) == m,
    decreases m,
{
    if m < 10 {
        lemma_digit_char(m);
        assert(nat_digits(m).drop_last() == Seq::<char>::empty());
        assert(digits_value(nat_digits(m).drop_last()) == 0);
    } else {
        lemma_nat_digits(m / 10);
        lemma_digit_char(m % 10);
        assert(nat_digits(m).drop_last() == nat_digits(m / 10));
    }
}

/// The padded digits of a number are digits, more of them than the scale,
/// and stand for the number.
pub proof fn lemma_padded_digits(m: nat, scale: nat)
    ensures
        padded_digits(m, scale).len() >= scale + 1,
        all_digits(padded_digits(m, scale)),
        digits_value(padded_digits(m, scale)) == m,
    decreases scale,
{
    if scale == 0 {
        lemma_nat_digits(m);
    } else {
        lemma_padded_digits(m / 10, (scale - 1) as nat);
        lemma_digit_char(m % 10);
        assert(padded_digits(m, scale).drop_last() == padded_digits(m / 10, (scale - 1) as nat));
    }
}

/// The numeral of a number reads back as the number.
pub proof fn lemma_text_reads_back(d: Decimal)
    ensures
        parse_decimal(d.text()) == Some(d),
{
    let m = d.magnitude();
    let digits = padded_digits(m, d.scale);
    let cut = digits.len() - d.scale;
    lemma_padded_digits(m, d.scale);
    let body = if d.scale == 0 {
        digits
    } else {
        digits.take(cut) + seq!['.'] + digits.skip(cut)
    };
    assert(digits[0] != '-' && digits[0] != '+' && digits[0] != '.') by {
        assert(is_digit(digits[0]));
    }
    assert(body[0] == digits[0]);
    assert(parse_unsigned(body) == Some(Decimal { unscaled: m as int, scale: d.scale })) by {
        if d.scale == 0 {
            assert forall|k: int| 0 <= k < body.len() implies body[k] != '.' by {
                assert(is_digit(digits[k]));
            }
            lemma_first_index_of_is(body, '.', body.len() as int);
            assert(body.take(body.len() as int) == body);
            assert(body + Seq::<char>::empty() == body);
        } else {
            assert forall|k: int| 0 <= k < cut implies body[k] != '.' by {
                assert(is_digit(digits[k]));
            }
            assert(body[cut] == '.');
            lemma_first_index_of_is(body, '.', cut);
            assert(body.take(cut) == digits.take(cut));
            assert(body.skip(cut + 1) == digits.skip(cut));
            assert(digits.take(cut) + digits.skip(cut) == digits);
            assert forall|k: int| 0 <= k < digits.take(cut).len() implies is_digit(
                #[trigger] digits.take(cut)[k],
            ) by {
                assert(is_digit(digits[k]));
            }
            assert forall|k: int| 0 <= k < digits.skip(cut).len() implies is_digit(
                #[trigger] digits.skip(cut)[k],
            ) by {
                assert(is_digit(digits[k + cut]));
            }
        }
    }
    if d.unscaled < 0 {
        assert(d.text() == seq!['-'] + body);
        assert(d.text().skip(1) == body);
        assert(d.text()[0] == '-');
    } else {
        assert(d.text() == body);
    }
}

/// An exact decimal amount.
#[derive(Debug)]
pub struct Amount {
    negative: bool,
    /// The digits of the magnitude, least significant first, with no zero at
    /// the most significant end.
    digits: Vec<u8>,
    /// How many of the digits stand after the decimal point.
    scale: usize,
}

impl View for Amount {
    type V = Decimal;

    closed spec fn view(&self) -> Decimal {
        Decimal {
            unscaled: if self.negative {
                -(le_value(self.digits@) as int)
            } else {
                le_value(self.digits@) as int
            },
            scale: self.scale as nat,
        }
    }
}

impl Amount {
    #[verifier::type_invariant]
    spec fn well_formed(&self) -> bool {
        &&& valid_digits(self.digits@)
        &&& trimmed(self.digits@)
        &&& self.digits@.len() == 0 ==> !self.negative
        &&& self.scale < usize::MAX
    }

    /// The number that the digit `c` stands for.
    fn digit_of(c: char) -> (d: u8)
        requires
            is_digit(c),
        ensures
            d == digit_value(c),
            d < 10,
    {
        (c as u32 - '0' as u32) as u8
    }

    /// Decides whether `chars[from..to]` holds decimal digits only.
    fn digits_only(chars: &Vec<char>, from: usize, to: usize) -> (r: bool)
        requires
            from <= to <= chars.len(),
        ensures
            r == all_digits(chars@.subrange(from as int, to as int)),
    {
        let ghost s = chars@.subrange(from as int, to as int);
        let mut i: usize = from;
        while i < to
            invariant
                from <= i <= to <= chars.len(),
                s == chars@.subrange(from as int, to as int),
                forall|k: int| 0 <= k < i - from ==> is_digit(#[trigger] s[k]),
            decreases to - i,
        {
            let c = chars[i];
            if !('0' <= c && c <= '9') {
                assert(!is_digit(s[i - from]));
                return false;
            }
            i += 1;
        }
        true
    }

    /// Takes the zeros off the most significant end of `digits`.
    fn trim(digits: &mut Vec<u8>)
        requires
            valid_digits(old(digits)@),
        ensures
            valid_digits(final(digits)@),
            trimmed(final(digits)@),
            le_value(final(digits)@) == le_value(old(digits)@),
    {
        while digits.len() > 0 && digits[digits.len() - 1] == 0
            invariant
                valid_digits(digits@),
                le_value(digits@) == le_value(old(digits)@),
            decreases digits.len(),
        {
            proof {
                let shorter = digits@.drop_last();
                assert(digits@ == shorter.push(0u8));
                lemma_le_value_push(shorter, 0u8);
            }
            digits.pop();
        }
    }

    /// The digits `chars[start..dot]` followed by `chars[frac_start..]`, least
    /// significant first.
    fn read_digits(chars: &Vec<char>, start: usize, dot: usize, frac_start: usize) -> (digits: Vec<
        u8,
    >)
        requires
            start <= dot <= frac_start <= chars.len(),
            all_digits(chars@.subrange(start as int, dot as int)),
            all_digits(chars@.subrange(frac_start as int, chars.len() as int)),
        ensures
            valid_digits(digits@),
            le_value(digits@) == digits_value(
                chars@.subrange(start as int, dot as int) + chars@.subrange(
                    frac_start as int,
                    chars.len() as int,
                ),
            ),
    {
        let n = chars.len();
        let ghost whole = chars@.subrange(start as int, dot as int);
        let ghost fraction = chars@.subrange(frac_start as int, n as int);
        let ghost numeral = whole + fraction;
        let mut digits: Vec<u8> = Vec::new();
        let mut i: usize = n;
        while i > frac_start
            invariant
                n == chars.len(),
                frac_start <= i <= n,
                fraction == chars@.subrange(frac_start as int, n as int),
                all_digits(fraction),
                digits.len() == n - i,
                valid_digits(digits@),
                forall|k: int|
                    0 <= k < digits.len() ==> digits[k] == digit_value(
                        fraction[fraction.len() - 1 - k],
                    ),
            decreases i,
        {
            i -= 1;
            assert(is_digit(fraction[i - frac_start]));
            digits.push(Self::digit_of(chars[i]));
        }
        let mut j: usize = dot;
        while j > start
            invariant
                n == chars.len(),
                start <= j <= dot <= n,
                whole == chars@.subrange(start as int, dot as int),
                all_digits(whole),
                digits.len() == fraction.len() + (dot - j),
                valid_digits(digits@),
                forall|k: int|
                    0 <= k < fraction.len() ==> digits[k] == digit_value(
                        fraction[fraction.len() - 1 - k],
                    ),
                forall|k: int|
                    fraction.len() <= k < digits.len() ==> digits[k] == digit_value(
                        whole[whole.len() - 1 - (k - fraction.len())],
                    ),
            decreases j,
        {
            j -= 1;
            assert(is_digit(whole[j - start]));
            digits.push(Self::digit_of(chars[j]));
        }
        proof {
            assert forall|k: int| 0 <= k < digits.len() implies digits[k] == digit_value(
                numeral[numeral.len() - 1 - k],
            ) by {
                if k < fraction.len() {
                    assert(numeral[numeral.len() - 1 - k] == fraction[fraction.len() - 1 - k]);
                } else {
                    assert(numeral[numeral.len() - 1 - k] == whole[whole.len() - 1 - (k
                        - fraction.len())]);
                }
            }
            lemma_reversed_value(digits@, numeral);
        }
        digits
    }

    /// Reads a decimal numeral. Returns `None` for a text that is none.
    pub fn parse(text: &str) -> (r: Option<Amount>)
        ensures
            match parse_decimal(text@) {
                Some(d) => r matches Some(amount) && amount@ == d,
                None => r is None,
            },
    {
        let chars = chars_of(text);
        let n = chars.len();
        let mut start: usize = 0;
        let mut negative = false;
        if n > 0 && (chars[0] == '-' || chars[0] == '+') {
            negative = chars[0] == '-';
            start = 1;
        }
        let ghost body = chars@.skip(start as int);
        let mut dot: usize = start;
        while dot < n && chars[dot] != '.'
            invariant
                n == chars.len(),
                start <= dot <= n,
                body == chars@.skip(start as int),
                forall|m: int| 0 <= m < dot - start ==> body[m] != '.',
            decreases n - dot,
        {
            dot += 1;
        }
        let frac_start: usize = if dot < n {
            dot + 1
        } else {
            n
        };
        let ghost whole = body.take(dot - start);
        let ghost fraction = if dot < n {
            body.skip(dot - start + 1)
        } else {
            Seq::empty()
        };
        proof {
            lemma_first_index_of_is(body, '.', dot - start);
            assert(whole == chars@.subrange(start as int, dot as int));
            assert(fraction == chars@.subrange(frac_start as int, n as int));
            if start == 0 {
                assert(body == text@);
            } else {
                assert(body == text@.skip(1));
            }
            assert(parse_decimal(text@) == match parse_unsigned(body) {
                Some(d) => Some(
                    if negative {
                        d.negated()
                    } else {
                        d
                    },
                ),
                None => None,
            });
        }
        if !Self::digits_only(&chars, start, dot) || !Self::digits_only(&chars, frac_start, n) {
            return None;
        }
        if (dot - start) + (n - frac_start) == 0 {
            return None;
        }
        let mut digits = Self::read_digits(&chars, start, dot, frac_start);
        Self::trim(&mut digits);
        let negative = negative && digits.len() > 0;
        Some(Amount { negative, digits, scale: n - frac_start })
    }

    /// `digits` with `k` zeros below them.
    fn shifted(digits: &Vec<u8>, k: usize) -> (r: Vec<u8>)
        requires
            valid_digits(digits@),
        ensures
            valid_digits(r@),
            le_value(r@) == le_value(digits@) * pow10(k as nat),
    {
        let mut r: Vec<u8> = Vec::new();
        let mut i: usize = 0;
        while i < k
            invariant
                i <= k,
                r@ == Seq::new(i as nat, |i: int| 0u8),
            decreases k - i,
        {
            r.push(0);
            i += 1;
            assert(r@ == Seq::new(i as nat, |i: int| 0u8));
        }
        let mut j: usize = 0;
        assert(digits@.take(0) == Seq::<u8>::empty());
        assert(r@ == Seq::new(k as nat, |i: int| 0u8) + digits@.take(0));
        while j < digits.len()
            invariant
                j <= digits.len(),
                valid_digits(digits@),
                r@ == Seq::new(k as nat, |i: int| 0u8) + digits@.take(j as int),
            decreases digits.len() - j,
        {
            r.push(digits[j]);
            j += 1;
            assert(r@ == Seq::new(k as nat, |i: int| 0u8) + digits@.take(j as int));
        }
        proof {
            assert(digits@.take(digits.len() as int) == digits@);
            lemma_le_value_shift(digits@, k as nat);
        }
        r
    }

    /// The sum of two magnitudes.
    fn add_magnitudes(a: &Vec<u8>, b: &Vec<u8>) -> (r: Vec<u8>)
        requires
            valid_digits(a@),
            valid_digits(b@),
        ensures
            valid_digits(r@),
            le_value(r@) == le_value(a@) + le_value(b@),
    {
        let n = if a.len() >= b.len() {
            a.len()
        } else {
            b.len()
        };
        let mut r: Vec<u8> = Vec::new();
        let mut carry: u8 = 0;
        let mut i: usize = 0;
        proof {
            lemma_low_value_ends(a@, 0);
            lemma_low_value_ends(b@, 0);
        }
        while i < n
            invariant
                i <= n,
                n >= a.len(),
                n >= b.len(),
                r.len() == i,
                valid_digits(a@),
                valid_digits(b@),
                valid_digits(r@),
                carry <= 1,
                le_value(r@) + carry * pow10(i as nat) == low_value(a@, i as nat) + low_value(
                    b@,
                    i as nat,
                ),
            decreases n - i,
        {
            let da: u8 = if i < a.len() {
                a[i]
            } else {
                0
            };
            let db: u8 = if i < b.len() {
                b[i]
            } else {
                0
            };
            let total: u8 = da + db + carry;
            let digit: u8 = if total >= 10 {
                total - 10
            } else {
                total
            };
            let next_carry: u8 = if total >= 10 {
                1
            } else {
                0
            };
            proof {
                lemma_le_value_push(r@, digit);
                lemma_low_value_step(a@, i as nat);
                lemma_low_value_step(b@, i as nat);
                lemma_sum_column(
                    le_value(r@),
                    low_value(a@, i as nat),
                    low_value(b@, i as nat),
                    pow10(i as nat),
                    da as nat,
                    db as nat,
                    carry as nat,
                    digit as nat,
                    next_carry as nat,
                );
            }
            r.push(digit);
            carry = next_carry;
            i += 1;
        }
        proof {
            lemma_low_value_ends(a@, n as nat);
            lemma_low_value_ends(b@, n as nat);
            lemma_le_value_push(r@, carry);
        }
        if carry > 0 {
            r.push(carry);
        }
        r
    }

    /// The difference of two magnitudes. The flag says that the second is
    /// the larger one; the digits then stand for the difference plus
    /// `10^n`, where `n` is the number of digits returned.
    fn sub_magnitudes(a: &Vec<u8>, b: &Vec<u8>) -> (r: (Vec<u8>, bool))
        requires
            valid_digits(a@),
            valid_digits(b@),
        ensures
            valid_digits(r.0@),
            le_value(r.0@) + le_value(b@) == le_value(a@) + if r.1 {
                pow10(r.0@.len())
            } else {
                0
            },
    {
        let n = if a.len() >= b.len() {
            a.len()
        } else {
            b.len()
        };
        let mut r: Vec<u8> = Vec::new();
        let mut borrow: u8 = 0;
        let mut i: usize = 0;
        proof {
            lemma_low_value_ends(a@, 0);
            lemma_low_value_ends(b@, 0);
        }
        while i < n
            invariant
                i <= n,
                n >= a.len(),
                n >= b.len(),
                r.len() == i,
                valid_digits(a@),
                valid_digits(b@),
                valid_digits(r@),
                borrow <= 1,
                le_value(r@) + low_value(b@, i as nat) == low_value(a@, i as nat) + borrow * pow10(
                    i as nat,
                ),
            decreases n - i,
        {
            let da: u8 = if i < a.len() {
                a[i]
            } else {
                0
            };
            let db: u8 = if i < b.len() {
                b[i]
            } else {
                0
            };
            let total: u8 = da + 10 - db - borrow;
            let digit: u8 = if total >= 10 {
                total - 10
            } else {
                total
            };
            let next_borrow: u8 = if total >= 10 {
                0
            } else {
                1
            };
            proof {
                lemma_le_value_push(r@, digit);
                lemma_low_value_step(a@, i as nat);
                lemma_low_value_step(b@, i as nat);
                lemma_difference_column(
                    le_value(r@),
                    low_value(a@, i as nat),
                    low_value(b@, i as nat),
                    pow10(i as nat),
                    da as nat,
                    db as nat,
                    borrow as nat,
                    digit as nat,
                    next_borrow as nat,
                );
            }
            r.push(digit);
            borrow = next_borrow;
            i += 1;
        }
        proof {
            lemma_low_value_ends(a@, n as nat);
            lemma_low_value_ends(b@, n as nat);
        }
        (r, borrow == 1)
    }

    /// The exact sum of two amounts.
    pub fn plus(&self, other: &Amount) -> (sum: Amount)
        ensures
            sum@ == self@.plus(other@),
    {
        proof {
            use_type_invariant(self);
            use_type_invariant(other);
        }
        let scale = if self.scale >= other.scale {
            self.scale
        } else {
            other.scale
        };
        let a = Self::shifted(&self.digits, scale - self.scale);
        let b = Self::shifted(&other.digits, scale - other.scale);
        let ghost va = le_value(a@) as int;
        let ghost vb = le_value(b@) as int;
        proof {
            let pa = pow10((scale - self.scale) as nat) as int;
            let pb = pow10((scale - other.scale) as nat) as int;
            let ma = le_value(self.digits@) as int;
            let mb = le_value(other.digits@) as int;
            assert((-ma) * pa == -(ma * pa)) by (nonlinear_arith);
            assert((-mb) * pb == -(mb * pb)) by (nonlinear_arith);
            assert(self@.units_at(scale as nat) == if self.negative {
                -va
            } else {
                va
            });
            assert(other@.units_at(scale as nat) == if other.negative {
                -vb
            } else {
                vb
            });
        }
        let mut digits: Vec<u8>;
        let negative: bool;
        if self.negative == other.negative {
            digits = Self::add_magnitudes(&a, &b);
            negative = self.negative;
        } else {
            let (difference, borrowed) = Self::sub_magnitudes(&a, &b);
            if !borrowed {
                digits = difference;
                negative = self.negative;
            } else {
                proof {
                    lemma_le_value_bound(difference@);
                }
                let (other_way, borrowed_again) = Self::sub_magnitudes(&b, &a);
                proof {
                    lemma_le_value_bound(other_way@);
                }
                digits = other_way;
                negative = other.negative;
            }
        }
        Self::trim(&mut digits);
        let negative = negative && digits.len() > 0;
        Amount { negative, digits, scale }
    }

    /// The amount with its sign changed.
    pub fn negated(&self) -> (r: Amount)
        ensures
            r@ == self@.negated(),
    {
        proof {
            use_type_invariant(self);
        }
        Amount {
            negative: !self.negative && self.digits.len() > 0,
            digits: self.digits.clone(),
            scale: self.scale,
        }
    }

    /// The exact difference of two amounts.
    pub fn minus(&self, other: &Amount) -> (difference: Amount)
        ensures
            difference@ == self@.minus(other@),
    {
        let negated = other.negated();
        proof {
            let scale = self@.common_scale(other@);
            let p = pow10((scale - other@.scale) as nat) as int;
            let u = other@.unscaled;
            assert((-u) * p == -(u * p)) by (nonlinear_arith);
        }
        self.plus(&negated)
    }

    /// Decides whether the amount is zero.
    pub fn is_zero(&self) -> (r: bool)
        ensures
            r == (self@.unscaled == 0),
    {
        proof {
            use_type_invariant(self);
            if self.digits@.len() > 0 {
                lemma_trimmed_is_positive(self.digits@);
            }
        }
        self.digits.len() == 0
    }

    /// Decides whether two amounts have the same value, whatever their
    /// scales.
    pub fn same_value(&self, other: &Amount) -> (r: bool)
        ensures
            r == self@.same_value(other@),
    {
        self.minus(other).is_zero()
    }

    /// The whole amount of the given magnitude, below zero if `negative`.
    fn whole(negative: bool, magnitude: u64) -> (amount: Amount)
        ensures
            amount@ == Decimal::whole(
                if negative {
                    -(magnitude as int)
                } else {
                    magnitude as int
                },
            ),
    {
        let mut rest: u64 = magnitude;
        let mut digits: Vec<u8> = Vec::new();
        assert(rest * pow10(0) == rest) by (nonlinear_arith)
            requires
                pow10(0) == 1,
        ;
        while rest > 0
            invariant
                valid_digits(digits@),
                le_value(digits@) + rest * pow10(digits@.len()) == magnitude,
                rest == 0 ==> trimmed(digits@),
            decreases rest,
        {
            let digit: u8 = (rest % 10) as u8;
            proof {
                lemma_le_value_push(digits@, digit);
                let p = pow10(digits@.len()) as int;
                let q = (rest / 10) as int;
                assert(rest * p == digit * p + q * (10 * p)) by (nonlinear_arith)
                    requires
                        rest == digit + 10 * q,
                ;
            }
            digits.push(digit);
            rest = rest / 10;
        }
        Amount { negative: negative && magnitude > 0, digits, scale: 0 }
    }

    /// The whole amount `n`.
    pub fn from_i64(n: i64) -> (amount: Amount)
        ensures
            amount@ == Decimal::whole(n as int),
    {
        if n < 0 {
            Self::whole(true, ((-(n + 1)) as u64) + 1)
        } else {
            Self::whole(false, n as u64)
        }
    }

    /// The whole amount `n`.
    pub fn from_u64(n: u64) -> (amount: Amount)
        ensures
            amount@ == Decimal::whole(n as int),
    {
        Self::whole(false, n)
    }

    /// The character that stands for the digit `d`.
    fn char_of_digit(d: u8) -> (c: char)
        requires
            d < 10,
        ensures
            c == digit_char(d as nat),
    {
        (48u8 + d) as char
    }

    /// The digit at position `p`, zero beyond the most significant one.
    fn digit(&self, p: usize) -> (d: u8)
        ensures
            d == digit_at(self.digits@, p as int),
            d < 10,
    {
        proof {
            use_type_invariant(self);
        }
        if p < self.digits.len() {
            self.digits[p]
        } else {
            0
        }
    }

    /// The numeral of the amount.
    pub fn to_string(&self) -> (text: String)
        ensures
            text@ == self@.text(),
    {
        proof {
            use_type_invariant(self);
        }
        let len = self.digits.len();
        let scale = self.scale;
        let ghost digits = self.digits@;
        let ghost sign = if self.negative {
            seq!['-']
        } else {
            Seq::<char>::empty()
        };
        let mut text = String::new();
        if self.negative {
            text.push('-');
        }
        assert(text@ == sign);
        // before the decimal point
        let mut p: usize = if len > scale {
            len - 1
        } else {
            scale
        };
        proof {
            lemma_high_value_step(digits, p as int);
            if len > scale {
                assert(digits.skip(len as int).len() == 0);
            }
        }
        text.push(Self::char_of_digit(self.digit(p)));
        while p > scale
            invariant
                scale <= p,
                p < len || p == scale,
                digits == self.digits@,
                trimmed(digits),
                len == digits.len(),
                text@ == sign + nat_digits(high_value(digits, p as int)),
            decreases p,
        {
            proof {
                lemma_high_value_step(digits, p - 1);
                lemma_high_value_positive(digits, p as int);
            }
            p -= 1;
            text.push(Self::char_of_digit(self.digit(p)));
        }
        let ghost whole = nat_digits(high_value(digits, scale as int));
        if scale > 0 {
            text.push('.');
            let ghost mut fraction = Seq::<char>::empty();
            assert(whole + fraction == whole);
            while p > 0
                invariant
                    p <= scale,
                    digits == self.digits@,
                    fraction.len() == scale - p,
                    padded_digits(high_value(digits, p as int), (scale - p) as nat) == whole
                        + fraction,
                    text@ == sign + whole + seq!['.'] + fraction,
                decreases p,
            {
                proof {
                    lemma_high_value_step(digits, p - 1);
                }
                p -= 1;
                let c = Self::char_of_digit(self.digit(p));
                text.push(c);
                proof {
                    assert((whole + fraction).push(c) == whole + fraction.push(c));
                    fraction = fraction.push(c);
                }
            }
            proof {
                assert(digits.skip(0) == digits);
                let all = padded_digits(le_value(digits), scale as nat);
                assert(all == whole + fraction);
                assert(all.take(all.len() - scale) == whole);
                assert(all.skip(all.len() - scale) == fraction);
                assert(text@ == sign + (whole + seq!['.'] + fraction));
                if self.negative {
                    lemma_trimmed_is_positive(digits);
                }
            }
        } else {
            proof {
                assert(digits.skip(0) == digits);
                if self.negative {
                    lemma_trimmed_is_positive(digits);
                }
            }
        }
        text
    }

    /// A zero amount.
    pub fn zero() -> (amount: Amount)
        ensures
            amount@ == Decimal::zero(),
    {
        Amount { negative: false, digits: Vec::new(), scale: 0 }
    }
}

impl Clone for Amount {
    fn clone(&self) -> (copy: Amount)
        ensures
            copy@ == self@,
    {
        proof {
            use_type_invariant(self);
        }
        Amount { negative: self.negative, digits: self.digits.clone(), scale: self.scale }
    }
}

} // verus!
