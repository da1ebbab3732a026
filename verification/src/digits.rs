//! Natural numbers of any size as decimal digits, least significant first.
use crate::pathtext::{decimal, digit_of};
use vstd::prelude::*;

verus! {

/// `10` to the power of `n`.
pub open spec fn pow10(n: nat) -> nat
    decreases n,
{
    if n == 0 {
        1
    } else {
        10 * pow10((n - 1) as nat)
    }
}

/// Whether every element is a decimal digit.
pub open spec fn is_digits(s: Seq<u8>) -> bool {
    forall|i: int| 0 <= i < s.len() ==> s[i] < 10
}

/// The number that the digits stand for, the least significant first.
pub open spec fn value_of(s: Seq<u8>) -> nat
    decreases s.len(),
{
    if s.len() == 0 {
        0
    } else {
        s[0] as nat + 10 * value_of(s.skip(1))
    }
}

/// Whether the most significant digit is not zero.
pub open spec fn is_trimmed(s: Seq<u8>) -> bool {
    s.len() == 0 || s.last() != 0
}

/// `a / d` rounded to the nearest integer, halves upwards.
pub open spec fn div_round_half_up(a: nat, d: nat) -> nat {
    (2 * a + d) / (2 * d)
}

/// `a / d` rounded to the nearest integer, halves to the even neighbour.
pub open spec fn div_round_half_even(a: nat, d: nat) -> nat {
    let floor = a / d;
    let rest = a % d;
    if 2 * rest > d || (2 * rest == d && floor % 2 == 1) {
        floor + 1
    } else {
        floor
    }
}

/// Powers of ten are positive and grow tenfold.
pub proof fn lemma_pow10(n: nat)
    ensures
        pow10(n) >= 1,
        pow10(n + 1) == 10 * pow10(n),
    decreases n,
{
    if n > 0 {
        lemma_pow10((n - 1) as nat);
    }
}

/// No digits stand for zero, and one digit stands for itself.
pub proof fn lemma_value_small(d: u8)
    ensures
        value_of(Seq::<u8>::empty()) == 0,
        value_of(seq![d]) == d,
        pow10(0) == 1,
{
    assert(seq![d].skip(1) =~= Seq::<u8>::empty());
    assert(value_of(seq![d].skip(1)) == 0);
}

/// A digit at the most significant end adds its multiple of the power of
/// ten.
pub proof fn lemma_value_push(s: Seq<u8>, d: u8)
    ensures
        value_of(s.push(d)) == value_of(s) + d * pow10(s.len()),
    decreases s.len(),
{
    if s.len() == 0 {
        lemma_value_small(d);
        assert(s.push(d) =~= seq![d]);
        assert(s =~= Seq::<u8>::empty());
        assert(d * pow10(0) == d) by (nonlinear_arith)
            requires
                pow10(0) == 1,
        ;
    } else {
        let rest = s.skip(1);
        let p = pow10(rest.len());
        lemma_value_push(rest, d);
        assert(s.push(d).skip(1) =~= rest.push(d));
        assert(s.push(d)[0] == s[0]);
        lemma_pow10(rest.len());
        assert(pow10(s.len()) == 10 * p);
        assert(value_of(s.push(d)) == s[0] + 10 * value_of(rest.push(d)));
        assert(value_of(s) == s[0] + 10 * value_of(rest));
        assert(10 * (value_of(rest) + d * p) == 10 * value_of(rest) + d * (10 * p))
            by (nonlinear_arith);
    }
}

/// A number of `n` digits is below ten to the power of `n`.
pub proof fn lemma_value_bound(s: Seq<u8>)
    requires
        is_digits(s),
    ensures
        value_of(s) < pow10(s.len()),
    decreases s.len(),
{
    if s.len() > 0 {
        lemma_value_bound(s.skip(1));
        lemma_pow10((s.len() - 1) as nat);
    }
}

/// A number is its low `n` digits plus ten to the `n` times the rest.
pub proof fn lemma_value_split(s: Seq<u8>, n: int)
    requires
        0 <= n <= s.len(),
    ensures
        value_of(s) == value_of(s.take(n)) + pow10(n as nat) * value_of(s.skip(n)),
    decreases n,
{
    if n == 0 {
        lemma_value_small(0);
        assert(s.take(0) =~= Seq::<u8>::empty());
        assert(s.skip(0) =~= s);
        assert(pow10(0) * value_of(s) == value_of(s)) by (nonlinear_arith)
            requires
                pow10(0) == 1,
        ;
    } else {
        let rest = s.skip(1);
        lemma_value_split(rest, n - 1);
        assert(s.take(n).skip(1) =~= rest.take(n - 1));
        assert(rest.skip(n - 1) =~= s.skip(n));
        assert(s.take(n)[0] == s[0]);
        lemma_pow10((n - 1) as nat);
        let p = pow10((n - 1) as nat);
        let hi = value_of(s.skip(n));
        let lo = value_of(rest.take(n - 1));
        assert(pow10(n as nat) == 10 * p);
        assert(value_of(s) == s[0] + 10 * value_of(rest));
        assert(value_of(s.take(n)) == s[0] + 10 * lo);
        assert(10 * (lo + p * hi) == 10 * lo + (10 * p) * hi) by (nonlinear_arith);
    }
}

/// A trimmed number of `n > 0` digits is at least ten to the power of
/// `n - 1`.
pub proof fn lemma_trimmed_is_large(s: Seq<u8>)
    requires
        is_trimmed(s),
        s.len() > 0,
    ensures
        value_of(s) >= pow10((s.len() - 1) as nat),
        value_of(s) >= 1,
{
    let init = s.drop_last();
    assert(init.push(s.last()) =~= s);
    lemma_value_push(init, s.last());
    lemma_pow10(init.len());
    let p = pow10(init.len());
    let d = s.last();
    assert(d * p >= p) by (nonlinear_arith)
        requires
            d >= 1,
            p >= 1,
    ;
}

/// Trimmed digits are determined by their number.
pub proof fn lemma_value_names_digits(a: Seq<u8>, b: Seq<u8>)
    requires
        is_digits(a),
        is_digits(b),
        is_trimmed(a),
        is_trimmed(b),
        value_of(a) == value_of(b),
    ensures
        a == b,
    decreases a.len(),
{
    if a.len() == 0 {
        if b.len() > 0 {
            lemma_trimmed_is_large(b);
        }
        assert(a =~= b);
    } else if b.len() == 0 {
        lemma_trimmed_is_large(a);
    } else {
        let ra = a.skip(1);
        let rb = b.skip(1);
        assert(is_digits(ra)) by {
            assert forall|i: int| 0 <= i < ra.len() implies ra[i] < 10 by {
                assert(ra[i] == a[i + 1]);
            }
        }
        assert(is_digits(rb)) by {
            assert forall|i: int| 0 <= i < rb.len() implies rb[i] < 10 by {
                assert(rb[i] == b[i + 1]);
            }
        }
        assert(is_trimmed(ra)) by {
            if ra.len() > 0 {
                assert(ra.last() == a.last());
            }
        }
        assert(is_trimmed(rb)) by {
            if rb.len() > 0 {
                assert(rb.last() == b.last());
            }
        }
        assert(a[0] < 10 && b[0] < 10);
        lemma_value_names_digits(ra, rb);
        assert(a =~= b) by {
            assert forall|i: int| 0 <= i < a.len() implies a[i] == b[i] by {
                if i > 0 {
                    assert(ra[i - 1] == a[i]);
                    assert(rb[i - 1] == b[i]);
                }
            }
        }
    }
}

/// `a * m + c`.
pub(crate) fn scale_add(a: &Vec<u8>, m: u32, c: u32) -> (out: Vec<u8>)
    requires
        is_digits(a@),
    ensures
        is_digits(out@),
        value_of(out@) == value_of(a@) * m + c,
{
    let mut out: Vec<u8> = Vec::new();
    let mut carry: u64 = c as u64;
    let mut j: usize = 0;
    proof {
        lemma_value_small(0);
        assert(a@.take(0) =~= Seq::<u8>::empty());
        assert(carry * pow10(0) == carry) by (nonlinear_arith)
            requires
                pow10(0) == 1,
        ;
        assert(value_of(a@.take(0)) * m == 0) by (nonlinear_arith)
            requires
                value_of(a@.take(0)) == 0,
        ;
    }
    while j < a.len()
        invariant
            j <= a.len(),
            out.len() == j,
            is_digits(a@),
            is_digits(out@),
            carry <= 0x1_0000_0000,
            value_of(out@) + carry * pow10(j as nat) == value_of(a@.take(j as int)) * m + c,
        decreases a.len() - j,
    {
        let d: u64 = a[j] as u64;
        assert(d * m <= 9 * 0xFFFF_FFFF) by (nonlinear_arith)
            requires
                0 <= d <= 9,
                0 <= m <= 0xFFFF_FFFF,
        ;
        let t: u64 = d * (m as u64) + carry;
        let low: u8 = (t % 10) as u8;
        proof {
            let p = pow10(j as nat);
            assert(a@.take(j + 1) =~= a@.take(j as int).push(a[j as int]));
            lemma_value_push(a@.take(j as int), a[j as int]);
            lemma_value_push(out@, low);
            lemma_pow10(j as nat);
            let v = value_of(a@.take(j as int));
            let o = value_of(out@);
            assert(t == low + 10 * (t / 10));
            assert(o + low * p + (t / 10) * (10 * p) == (v + d * p) * m + c) by (nonlinear_arith)
                requires
                    o + carry * p == v * m + c,
                    t == d * m + carry,
                    t == low + 10 * (t / 10),
            ;
        }
        out.push(low);
        carry = t / 10;
        j += 1;
    }
    proof {
        assert(a@.take(a.len() as int) =~= a@);
    }
    while carry > 0
        invariant
            is_digits(out@),
            value_of(out@) + carry * pow10(out.len() as nat) == value_of(a@) * m + c,
        decreases carry,
    {
        let low: u8 = (carry % 10) as u8;
        proof {
            let p = pow10(out.len() as nat);
            lemma_value_push(out@, low);
            lemma_pow10(out.len() as nat);
            let o = value_of(out@);
            assert(o + low * p + (carry / 10) * (10 * p) == o + carry * p) by (nonlinear_arith)
                requires
                    carry == low + 10 * (carry / 10),
            ;
        }
        out.push(low);
        carry = carry / 10;
    }
    out
}

/// `a / m` and the remainder. The quotient has as many digits as `a`.
pub(crate) fn divide(a: &Vec<u8>, m: u32) -> (out: (Vec<u8>, u32))
    requires
        is_digits(a@),
        m > 0,
    ensures
        is_digits(out.0@),
        out.0.len() == a.len(),
        out.1 < m,
        value_of(out.0@) == value_of(a@) / (m as nat),
        out.1 == value_of(a@) % (m as nat),
{
    let mut quot: Vec<u8> = Vec::new();
    let mut k: usize = 0;
    while k < a.len()
        invariant
            k <= a.len(),
            quot.len() == k,
            forall|i: int| 0 <= i < k ==> quot[i] == 0,
        decreases a.len() - k,
    {
        quot.push(0);
        k += 1;
    }
    let mut rest: u64 = 0;
    let mut i: usize = a.len();
    proof {
        lemma_value_small(0);
        assert(a@.skip(i as int) =~= Seq::<u8>::empty());
        assert(quot@.skip(i as int) =~= Seq::<u8>::empty());
        assert(value_of(quot@.skip(i as int)) * m == 0) by (nonlinear_arith)
            requires
                value_of(quot@.skip(i as int)) == 0,
        ;
    }
    while i > 0
        invariant
            i <= a.len(),
            quot.len() == a.len(),
            is_digits(a@),
            is_digits(quot@),
            m > 0,
            rest < m,
            value_of(a@.skip(i as int)) == value_of(quot@.skip(i as int)) * m + rest,
        decreases i,
    {
        let at: usize = i - 1;
        let whole: u64 = rest * 10 + a[at] as u64;
        let ghost before = quot@;
        proof {
            assert(whole / (m as u64) < 10) by (nonlinear_arith)
                requires
                    whole < 10 * m,
                    m > 0,
            ;
        }
        let digit: u8 = (whole / (m as u64)) as u8;
        quot.set(at, digit);
        proof {
            let high = value_of(before.skip(i as int));
            assert(a@.skip(at as int).skip(1) =~= a@.skip(i as int));
            assert(quot@.skip(at as int).skip(1) =~= before.skip(i as int));
            assert(quot@.skip(at as int)[0] == digit);
            assert(a@.skip(at as int)[0] == a[at as int]);
            assert(whole == digit * m + whole % (m as u64)) by {
                vstd::arithmetic::div_mod::lemma_fundamental_div_mod(whole as int, m as int);
                assert(m * (whole as int / m as int) == (whole as int / m as int) * m)
                    by (nonlinear_arith);
            }
            assert((digit + 10 * high) * m + whole % (m as u64) == a[at as int] + 10 * (high * m
                + rest)) by (nonlinear_arith)
                requires
                    whole == rest * 10 + a[at as int],
                    whole == digit * m + whole % (m as u64),
            ;
        }
        rest = whole % (m as u64);
        i = at;
    }
    proof {
        assert(a@.skip(0) =~= a@);
        assert(quot@.skip(0) =~= quot@);
        vstd::arithmetic::div_mod::lemma_fundamental_div_mod_converse(
            value_of(a@) as int,
            m as int,
            value_of(quot@) as int,
            rest as int,
        );
    }
    (quot, rest as u32)
}

/// Removes zeros from the most significant end.
pub(crate) fn trim(a: &mut Vec<u8>)
    requires
        is_digits(old(a)@),
    ensures
        is_digits(final(a)@),
        is_trimmed(final(a)@),
        value_of(final(a)@) == value_of(old(a)@),
{
    while a.len() > 0 && a[a.len() - 1] == 0
        invariant
            is_digits(a@),
            value_of(a@) == value_of(old(a)@),
        decreases a.len(),
    {
        proof {
            let init = a@.drop_last();
            assert(init.push(0u8) =~= a@);
            lemma_value_push(init, 0u8);
            assert(0 * pow10(init.len()) == 0) by (nonlinear_arith);
        }
        a.pop();
    }
}

/// `a / 10^n`, rounded to the nearest integer, halves upwards.
pub(crate) fn shift_round(a: &Vec<u8>, n: usize) -> (out: Vec<u8>)
    requires
        is_digits(a@),
        n >= 1,
    ensures
        is_digits(out@),
        value_of(out@) == div_round_half_up(value_of(a@), pow10(n as nat)),
{
    let ghost unit = pow10(n as nat);
    let ghost whole = value_of(a@);
    proof {
        lemma_pow10((n - 1) as nat);
        lemma_value_bound(a@);
    }
    if n > a.len() {
        proof {
            // The number has fewer than `n` digits: it is below a tenth of
            // the unit.
            lemma_pow10_grows(a@.len(), (n - 1) as nat);
            vstd::arithmetic::div_mod::lemma_basic_div((2 * whole + unit) as int, (2 * unit) as int);
        }
        return Vec::new();
    }
    let mut high: Vec<u8> = Vec::new();
    let mut i: usize = n;
    proof {
        assert(a@.subrange(n as int, n as int) =~= Seq::<u8>::empty());
    }
    while i < a.len()
        invariant
            n <= i <= a.len(),
            high@ == a@.subrange(n as int, i as int),
        decreases a.len() - i,
    {
        high.push(a[i]);
        proof {
            assert(a@.subrange(n as int, i + 1) =~= a@.subrange(n as int, i as int).push(
                a[i as int],
            ));
        }
        i += 1;
    }
    let up = a[n - 1] >= 5;
    proof {
        assert(a@.subrange(n as int, a.len() as int) =~= a@.skip(n as int));
        assert(is_digits(high@));
        let low = a@.take(n as int);
        let hi = value_of(high@);
        let lo = value_of(low);
        lemma_value_split(a@, n as int);
        // The low part splits into its top digit and the digits below it.
        let below = low.take(n - 1);
        let half = pow10((n - 1) as nat);
        lemma_value_split(low, n - 1);
        assert(low.skip(n - 1) =~= seq![a[n - 1]]);
        lemma_value_small(a[n - 1]);
        assert(value_of(low.skip(n - 1)) == a[n - 1]);
        assert(is_digits(below));
        lemma_value_bound(below);
        let top = a[n - 1];
        assert(lo == value_of(below) + half * top);
        assert(unit == 10 * half);
        if up {
            assert(half * top >= half * 5) by (nonlinear_arith)
                requires
                    top >= 5,
                    half >= 1,
            ;
            assert(half * top <= half * 9) by (nonlinear_arith)
                requires
                    top <= 9,
                    half >= 1,
            ;
            assert(2 * whole + unit == (2 * unit) * (hi + 1) + (2 * lo - unit)) by (nonlinear_arith)
                requires
                    whole == lo + unit * hi,
            ;
            vstd::arithmetic::div_mod::lemma_fundamental_div_mod_converse(
                (2 * whole + unit) as int,
                (2 * unit) as int,
                (hi + 1) as int,
                2 * lo - unit,
            );
        } else {
            assert(half * top <= half * 4) by (nonlinear_arith)
                requires
                    top <= 4,
                    half >= 1,
            ;
            assert(2 * whole + unit == (2 * unit) * hi + (2 * lo + unit)) by (nonlinear_arith)
                requires
                    whole == lo + unit * hi,
            ;
            vstd::arithmetic::div_mod::lemma_fundamental_div_mod_converse(
                (2 * whole + unit) as int,
                (2 * unit) as int,
                hi as int,
                (2 * lo + unit) as int,
            );
        }
    }
    if up {
        scale_add(&high, 1, 1)
    } else {
        high
    }
}

/// Powers of ten grow with the exponent.
pub proof fn lemma_pow10_grows(a: nat, b: nat)
    requires
        a <= b,
    ensures
        1 <= pow10(a) <= pow10(b),
    decreases b,
{
    if a < b {
        lemma_pow10_grows(a, (b - 1) as nat);
    } else if a > 0 {
        lemma_pow10_grows((a - 1) as nat, (a - 1) as nat);
    }
}

/// `a / m`, rounded to the nearest integer, halves to the even neighbour.
pub(crate) fn divide_round_even(a: &Vec<u8>, m: u32) -> (out: Vec<u8>)
    requires
        is_digits(a@),
        m > 0,
    ensures
        is_digits(out@),
        value_of(out@) == div_round_half_even(value_of(a@), m as nat),
{
    let (floor, rest) = divide(a, m);
    let odd = floor.len() > 0 && floor[0] % 2 == 1;
    proof {
        if floor.len() > 0 {
            assert(value_of(floor@) == floor[0] + 10 * value_of(floor@.skip(1)));
        }
        assert(odd == (value_of(floor@) % 2 == 1));
    }
    let twice: u64 = 2 * (rest as u64);
    if twice > m as u64 || (twice == m as u64 && odd) {
        scale_add(&floor, 1, 1)
    } else {
        floor
    }
}

/// Whether two trimmed numbers are equal.
pub(crate) fn same_number(a: &Vec<u8>, b: &Vec<u8>) -> (same: bool)
    requires
        is_digits(a@),
        is_digits(b@),
        is_trimmed(a@),
        is_trimmed(b@),
    ensures
        same == (value_of(a@) == value_of(b@)),
{
    if a.len() != b.len() {
        proof {
            if value_of(a@) == value_of(b@) {
                lemma_value_names_digits(a@, b@);
            }
        }
        return false;
    }
    let mut i: usize = 0;
    while i < a.len()
        invariant
            i <= a.len(),
            a.len() == b.len(),
            is_digits(a@),
            is_digits(b@),
            is_trimmed(a@),
            is_trimmed(b@),
            forall|j: int| 0 <= j < i ==> a[j] == b[j],
        decreases a.len() - i,
    {
        if a[i] != b[i] {
            proof {
                if value_of(a@) == value_of(b@) {
                    lemma_value_names_digits(a@, b@);
                }
            }
            return false;
        }
        i += 1;
    }
    proof {
        assert(a@ =~= b@);
    }
    true
}

/// Appends the decimal digits of the trimmed number `a[from..]`, the most
/// significant first; zero is written as `0`.
pub(crate) fn push_number(out: &mut Vec<char>, a: &Vec<u8>, from: usize)
    requires
        is_digits(a@),
        is_trimmed(a@),
        from <= a.len(),
    ensures
        final(out)@ == old(out)@ + decimal(value_of(a@.skip(from as int))),
{
    if from == a.len() {
        proof {
            lemma_value_small(0);
            assert(a@.skip(from as int) =~= Seq::<u8>::empty());
        }
        out.push('0');
        proof {
            assert(final(out)@ =~= old(out)@ + decimal(0));
        }
        return;
    }
    let mut i: usize = a.len() - 1;
    out.push(digit_of(a[i]));
    proof {
        lemma_value_small(a[i as int]);
        assert(a@.skip(i as int) =~= seq![a[i as int]]);
        assert(value_of(a@.skip(i as int)) == a[i as int]);
        assert(out@ =~= old(out)@ + decimal(value_of(a@.skip(i as int))));
    }
    while i > from
        invariant
            from <= i < a.len(),
            is_digits(a@),
            is_trimmed(a@),
            out@ == old(out)@ + decimal(value_of(a@.skip(i as int))),
        decreases i,
    {
        let ghost before = out@;
        i = i - 1;
        out.push(digit_of(a[i]));
        proof {
            let tail = a@.skip(i + 1);
            assert(a@.skip(i as int).skip(1) =~= tail);
            assert(tail.last() == a@.last());
            lemma_trimmed_is_large(tail);
            let v = value_of(a@.skip(i as int));
            assert(v == a[i as int] + 10 * value_of(tail));
            assert(v >= 10);
            assert(v / 10 == value_of(tail));
            assert(v % 10 == a[i as int]);
            assert(out@ =~= old(out)@ + decimal(v));
        }
    }
}

} // verus!
