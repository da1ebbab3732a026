//! Decimal coordinates as they stand in path text, and their rounding to a
//! precision. All arithmetic is exact: a coordinate is an integer over a
//! power of ten, a precision is an integer number of tenths.
use crate::digits::{
    div_round_half_even, div_round_half_up, divide_round_even, is_digits, is_trimmed, lemma_pow10,
    lemma_pow10_grows, lemma_trimmed_is_large, lemma_value_small, pow10, push_number, same_number,
    scale_add, shift_round, trim, value_of,
};
use crate::pathtext::{decimal, digit_char, digit_of};
use vstd::prelude::*;

verus! {

/// Whether `c` is one of `0` to `9`.
pub open spec fn is_digit(c: char) -> bool {
    48 <= c as u32 <= 57
}

/// The value of a digit character.
pub open spec fn digit_value(c: char) -> nat {
    (c as u32 - 48) as nat
}

/// What reading an unsigned decimal from left to right has found.
pub struct Reading {
    /// The number of digits.
    pub digits: nat,
    /// The number of decimal points.
    pub dots: nat,
    /// The value of the digits, read as one integer.
    pub value: nat,
    /// The number of digits behind the first decimal point.
    pub scale: nat,
    /// Whether only digits and decimal points were met.
    pub clean: bool,
}

/// Reads the characters from left to right.
pub open spec fn read_unsigned(body: Seq<char>) -> Reading
    decreases body.len(),
{
    if body.len() == 0 {
        Reading { digits: 0, dots: 0, value: 0, scale: 0, clean: true }
    } else {
        let before = read_unsigned(body.drop_last());
        let c = body.last();
        if is_digit(c) {
            Reading {
                digits: before.digits + 1,
                dots: before.dots,
                value: before.value * 10 + digit_value(c),
                scale: if before.dots > 0 {
                    before.scale + 1
                } else {
                    0
                },
                clean: before.clean,
            }
        } else if c == '.' {
            Reading { dots: before.dots + 1, ..before }
        } else {
            Reading { clean: false, ..before }
        }
    }
}

/// A decimal number: `value` over ten to the power of `scale`, negated when
/// `negative`. Zero may be negative; the sign is then still written.
pub struct Decimal {
    pub negative: bool,
    pub value: nat,
    pub scale: nat,
}

/// The number that a coordinate token stands for: an optional minus sign,
/// then digits with at most one decimal point before, among or behind them,
/// and at least one digit. Any other token stands for no number.
pub open spec fn parse_decimal(token: Seq<char>) -> Option<Decimal> {
    let negative = token.len() > 0 && token[0] == '-';
    let body = if negative {
        token.skip(1)
    } else {
        token
    };
    let found = read_unsigned(body);
    if found.clean && found.dots <= 1 && found.digits >= 1 {
        Some(Decimal { negative, value: found.value, scale: found.scale })
    } else {
        None
    }
}

/// The absolute value of a precision.
pub open spec fn magnitude(precision_tenths: int) -> nat {
    if precision_tenths < 0 {
        (-precision_tenths) as nat
    } else {
        precision_tenths as nat
    }
}

/// The magnitude of the coordinate times the precision, rounded to the
/// nearest integer with halves away from zero. With the precision
/// `precision_tenths / 10` the product is
/// `value * precision_tenths / 10^(scale + 1)`.
pub open spec fn grid_steps(d: Decimal, precision_tenths: int) -> nat {
    div_round_half_up(d.value * magnitude(precision_tenths), pow10(d.scale + 1))
}

/// The signed number of steps of `1 / |precision|` that the rounded
/// coordinate lies from zero.
pub open spec fn grid_coordinate(d: Decimal, precision_tenths: int) -> int {
    if d.negative {
        -(grid_steps(d, precision_tenths) as int)
    } else {
        grid_steps(d, precision_tenths) as int
    }
}

/// The magnitude of the rounded coordinate, `steps / |precision|`, in tenths:
/// rounded to one decimal place, halves to the even neighbour.
pub open spec fn rounded_tenths(d: Decimal, precision_tenths: int) -> nat {
    div_round_half_even(100 * grid_steps(d, precision_tenths), magnitude(precision_tenths))
}

/// The rounded coordinate written with one decimal place. The sign of the
/// coordinate is kept, also where the rounded value is zero.
pub open spec fn rounded_text(d: Decimal, precision_tenths: int) -> Seq<char> {
    let tenths = rounded_tenths(d, precision_tenths);
    let sign = if d.negative {
        seq!['-']
    } else {
        Seq::empty()
    };
    sign + decimal(tenths / 10) + seq!['.', digit_char((tenths % 10) as int)]
}

/// A coordinate read from path text. Its digits are kept, the least
/// significant first, so it may be of any size.
pub(crate) struct Number {
    negative: bool,
    digits: Vec<u8>,
    scale: usize,
}

impl View for Number {
    type V = Decimal;

    closed spec fn view(&self) -> Decimal {
        Decimal { negative: self.negative, value: value_of(self.digits@), scale: self.scale as nat }
    }
}

/// A rounded coordinate as a signed number of grid steps of any size.
pub(crate) struct Steps {
    negative: bool,
    digits: Vec<u8>,
}

impl Steps {
    #[verifier::type_invariant]
    spec fn well_formed(self) -> bool {
        is_digits(self.digits@) && is_trimmed(self.digits@)
    }

    /// Whether the coordinate was written with a minus sign.
    pub closed spec fn negative(&self) -> bool {
        self.negative
    }

    /// The number of steps from zero.
    pub closed spec fn magnitude(&self) -> nat {
        value_of(self.digits@)
    }

    /// The signed number of steps.
    pub open spec fn signed(&self) -> int {
        if self.negative() {
            -(self.magnitude() as int)
        } else {
            self.magnitude() as int
        }
    }

    /// No steps.
    pub(crate) fn zero() -> (steps: Steps)
        ensures
            steps.signed() == 0,
            !steps.negative(),
            steps.magnitude() == 0,
    {
        proof {
            lemma_value_small(0);
        }
        Steps { negative: false, digits: Vec::new() }
    }

    /// Whether the two differ by more than one step.
    pub(crate) fn differs_by_more_than_one(&self, other: &Steps) -> (far: bool)
        ensures
            far == (self.signed() - other.signed() > 1 || other.signed() - self.signed() > 1),
    {
        proof {
            use_type_invariant(self);
            use_type_invariant(other);
            lemma_value_small(0);
            if self.digits.len() > 0 {
                lemma_trimmed_is_large(self.digits@);
            }
            if other.digits.len() > 0 {
                lemma_trimmed_is_large(other.digits@);
            }
        }
        if self.digits.len() == 0 {
            above_one(&other.digits)
        } else if other.digits.len() == 0 {
            above_one(&self.digits)
        } else if self.negative != other.negative {
            true
        } else {
            let mut self_next = scale_add(&self.digits, 1, 1);
            let mut other_next = scale_add(&other.digits, 1, 1);
            trim(&mut self_next);
            trim(&mut other_next);
            !(same_number(&self.digits, &other.digits) || same_number(&self_next, &other.digits)
                || same_number(&other_next, &self.digits))
        }
    }

    /// Appends the rounded coordinate with one decimal place: the steps over
    /// the magnitude of the precision, rounded to tenths.
    pub(crate) fn push_rounded(&self, out: &mut Vec<char>, precision_tenths: i32)
        requires
            precision_tenths != 0,
        ensures
            final(out)@ == old(out)@ + (if self.negative() {
                seq!['-']
            } else {
                Seq::empty()
            }) + decimal(
                div_round_half_even(
                    100 * self.magnitude(),
                    magnitude(precision_tenths as int),
                ) / 10,
            ) + seq![
                '.',
                digit_char(
                    (div_round_half_even(100 * self.magnitude(), magnitude(precision_tenths as int))
                        % 10) as int,
                ),
            ],
    {
        proof {
            use_type_invariant(self);
        }
        let m: u32 = magnitude_of(precision_tenths);
        let scaled = scale_add(&self.digits, 100, 0);
        let mut tenths = divide_round_even(&scaled, m);
        trim(&mut tenths);
        if self.negative {
            out.push('-');
        }
        let ghost t = value_of(tenths@);
        if tenths.len() == 0 {
            proof {
                lemma_value_small(0);
            }
            out.push('0');
            out.push('.');
            out.push('0');
            proof {
                assert(decimal(0) =~= seq!['0']);
            }
        } else {
            proof {
                assert(t == tenths[0] + 10 * value_of(tenths@.skip(1)));
                assert(t / 10 == value_of(tenths@.skip(1)));
                assert(t % 10 == tenths[0]);
            }
            push_number(out, &tenths, 1);
            out.push('.');
            out.push(digit_of(tenths[0]));
        }
        proof {
            assert(final(out)@ =~= old(out)@ + (if self.negative() {
                seq!['-']
            } else {
                Seq::empty()
            }) + decimal(t / 10) + seq!['.', digit_char((t % 10) as int)]);
        }
    }
}

/// Whether a trimmed number is at least two.
fn above_one(a: &Vec<u8>) -> (above: bool)
    requires
        is_digits(a@),
        is_trimmed(a@),
    ensures
        above == (value_of(a@) > 1),
{
    proof {
        lemma_value_small(0);
        if a.len() > 0 {
            lemma_trimmed_is_large(a@);
            lemma_value_small(a[0]);
            if a.len() == 1 {
                assert(a@ =~= seq![a[0]]);
            } else {
                lemma_pow10_grows(1, (a.len() - 1) as nat);
                lemma_pow10(0);
            }
        }
    }
    a.len() >= 2 || (a.len() == 1 && a[0] >= 2)
}

/// Reading on never takes back what a prefix has shown.
proof fn lemma_reading_grows(body: Seq<char>, n: int)
    requires
        0 <= n <= body.len(),
    ensures
        read_unsigned(body.take(n)).digits <= read_unsigned(body).digits,
        read_unsigned(body.take(n)).dots <= read_unsigned(body).dots,
        !read_unsigned(body.take(n)).clean ==> !read_unsigned(body).clean,
    decreases body.len() - n,
{
    if n < body.len() {
        lemma_reading_grows(body, n + 1);
        assert(body.take(n + 1).drop_last() =~= body.take(n));
    } else {
        assert(body.take(n) =~= body);
    }
}

/// The value of a digit character.
fn digit_of_char(c: char) -> (d: Option<u8>)
    ensures
        d is Some <==> is_digit(c),
        d is Some ==> d->0 == digit_value(c) && d->0 < 10,
{
    let code: u32 = c as u32;
    if 48 <= code && code <= 57 {
        Some((code - 48) as u8)
    } else {
        None
    }
}

/// The digits in the opposite order.
fn reversed(digits: &Vec<u8>) -> (out: Vec<u8>)
    ensures
        out@ == digits@.reverse(),
{
    let mut out: Vec<u8> = Vec::new();
    let mut i: usize = digits.len();
    while i > 0
        invariant
            i <= digits.len(),
            out.len() == digits.len() - i,
            forall|j: int| 0 <= j < out.len() ==> out[j] == digits[digits.len() - 1 - j],
        decreases i,
    {
        i -= 1;
        out.push(digits[i]);
    }
    proof {
        assert(out@ =~= digits@.reverse());
    }
    out
}

/// Reads the coordinate token `chars[from..to]`.
pub(crate) fn parse_number(chars: &Vec<char>, from: usize, to: usize) -> (number: Option<Number>)
    requires
        from <= to <= chars.len(),
    ensures
        number is Some <==> parse_decimal(chars@.subrange(from as int, to as int)) is Some,
        number is Some ==> parse_decimal(chars@.subrange(from as int, to as int)) == Some(
            number->0@,
        ),
{
    let ghost token = chars@.subrange(from as int, to as int);
    let negative = from < to && chars[from] == '-';
    let start: usize = if negative {
        from + 1
    } else {
        from
    };
    let ghost body = chars@.subrange(start as int, to as int);
    proof {
        if negative {
            assert(token.skip(1) =~= body);
        } else {
            assert(token =~= body);
        }
        assert(body.take(0) =~= Seq::<char>::empty());
        lemma_value_small(0);
        assert(Seq::<u8>::empty().reverse() =~= Seq::<u8>::empty());
    }
    let mut digits: Vec<u8> = Vec::new();
    let mut seen_dot: bool = false;
    let mut scale: usize = 0;
    let mut i: usize = start;
    while i < to
        invariant
            start <= i <= to <= chars.len(),
            from <= to,
            token == chars@.subrange(from as int, to as int),
            body == chars@.subrange(start as int, to as int),
            negative == (token.len() > 0 && token[0] == '-'),
            body == if negative {
                token.skip(1)
            } else {
                token
            },
            read_unsigned(body.take(i - start)).clean,
            read_unsigned(body.take(i - start)).digits == digits.len(),
            read_unsigned(body.take(i - start)).dots == if seen_dot {
                1nat
            } else {
                0nat
            },
            read_unsigned(body.take(i - start)).value == value_of(digits@.reverse()),
            read_unsigned(body.take(i - start)).scale == scale,
            is_digits(digits@),
            digits.len() <= i - start,
            seen_dot ==> digits.len() < i - start,
            scale <= digits.len(),
        decreases to - i,
    {
        let c = chars[i];
        proof {
            let next = body.take(i - start + 1);
            assert(next.drop_last() =~= body.take(i - start));
            assert(next.last() == c);
            lemma_reading_grows(body, i - start + 1);
        }
        match digit_of_char(c) {
            Some(d) => {
                proof {
                    let grown = digits@.push(d).reverse();
                    assert(grown[0] == d);
                    assert(grown.skip(1) =~= digits@.reverse());
                }
                digits.push(d);
                if seen_dot {
                    scale += 1;
                }
            },
            None => {
                if c == '.' && !seen_dot {
                    seen_dot = true;
                } else {
                    return None;
                }
            },
        }
        i += 1;
    }
    proof {
        assert(body.take(to - start) =~= body);
    }
    if digits.len() == 0 {
        None
    } else {
        let ordered = reversed(&digits);
        Some(Number { negative, digits: ordered, scale })
    }
}

/// The absolute value of a precision.
fn magnitude_of(precision_tenths: i32) -> (m: u32)
    ensures
        m == magnitude(precision_tenths as int),
        precision_tenths != 0 ==> m > 0,
{
    if precision_tenths < 0 {
        (-(precision_tenths as i64)) as u32
    } else {
        precision_tenths as u32
    }
}

impl Number {
    #[verifier::type_invariant]
    spec fn well_formed(self) -> bool {
        is_digits(self.digits@) && self.scale < usize::MAX
    }

    /// The grid coordinate of this number at the given precision.
    pub(crate) fn grid_coordinate(&self, precision_tenths: i32) -> (steps: Steps)
        requires
            precision_tenths != 0,
        ensures
            steps.signed() == grid_coordinate(self@, precision_tenths as int),
            steps.negative() == self@.negative,
            steps.magnitude() == grid_steps(self@, precision_tenths as int),
    {
        proof {
            use_type_invariant(self);
        }
        let m: u32 = magnitude_of(precision_tenths);
        let product = scale_add(&self.digits, m, 0);
        let mut steps = shift_round(&product, self.scale + 1);
        trim(&mut steps);
        Steps { negative: self.negative, digits: steps }
    }
}

} // verus!
