//! Exact numbers for JSON values and template arithmetic.
//!
//! A number is the rational `num / den` (`den > 0`), kept in lowest terms by
//! every constructor, together with a flag telling whether it is a
//! floating-point quantity (a literal with a fraction part or the result of
//! arithmetic) or an integer literal. All arithmetic is checked: a result that
//! does not fit the representation is reported as `None`, which the engine
//! turns into an overflow error.
use vstd::prelude::*;
use crate::text::{Ord3, digit_char, digit_to_char, nat_text, push_char, push_nat, push_str};

verus! {

/// A JSON / expression number: the rational `num / den`.
#[derive(Debug, Clone, Copy, PartialEq, Eq, Structural)]
pub struct Number {
    pub num: i64,
    pub den: u64,
    pub float: bool,
}

/// Greatest common divisor (Euclid).
pub open spec fn gcd(a: nat, b: nat) -> nat
    decreases b,
{
    if b == 0 {
        a
    } else {
        gcd(b, a % b)
    }
}

pub proof fn lemma_gcd_pos(a: nat, b: nat)
    requires
        b > 0,
    ensures
        gcd(a, b) > 0,
        gcd(a, b) <= b,
    decreases b,
{
    if a % b == 0 {
        assert(gcd(b, 0) == b);
    } else {
        lemma_gcd_pos(b, a % b);
    }
}

pub open spec fn abs(i: int) -> nat {
    if i < 0 {
        (-i) as nat
    } else {
        i as nat
    }
}

pub open spec fn sgn(i: int) -> int {
    if i < 0 {
        -1
    } else {
        1
    }
}

/// The reduced form of `n / d` (`d > 0`), if it fits the representation.
pub open spec fn spec_make(n: int, d: int, float: bool) -> Option<Number> {
    if d <= 0 {
        None
    } else {
        let g = gcd(abs(n), d as nat);
        let rn = sgn(n) * (abs(n) / g) as int;
        let rd = d / (g as int);
        if i64::MIN <= rn <= i64::MAX && rd <= u64::MAX {
            Some(Number { num: rn as i64, den: rd as u64, float })
        } else {
            None
        }
    }
}

impl Number {
    /// Well-formed: positive denominator.
    pub open spec fn wf(self) -> bool {
        self.den > 0
    }

    /// An integer number.
    pub open spec fn spec_from_i64(n: i64) -> Number {
        Number { num: n, den: 1, float: false }
    }

    /// Integer number `n`.
    pub fn from_i64(n: i64) -> (r: Number)
        ensures
            r == Number::spec_from_i64(n),
            r.wf(),
    {
        Number { num: n, den: 1, float: false }
    }

    /// The number `n / d` in lowest terms, if it fits.
    pub fn from_ratio(n: i64, d: u64, float: bool) -> (r: Option<Number>)
        ensures
            r == spec_make(n as int, d as int, float),
            r matches Some(x) ==> x.wf(),
    {
        make(n as i128, d as u128, float)
    }

    /// `self` is zero.
    pub fn is_zero(&self) -> (r: bool)
        ensures
            r == (self.num == 0),
    {
        self.num == 0
    }
}

fn gcd_exec(a: u128, b: u128) -> (r: u128)
    ensures
        r == gcd(a as nat, b as nat),
    decreases b,
{
    if b == 0 {
        a
    } else {
        gcd_exec(b, a % b)
    }
}

/// Reduces `n / d` and checks that it fits.
pub fn make(n: i128, d: u128, float: bool) -> (r: Option<Number>)
    ensures
        r == spec_make(n as int, d as int, float),
        r matches Some(x) ==> x.wf(),
{
    if d == 0 {
        return None;
    }
    let a: u128 = if n < 0 {
        ((-(n + 1)) as u128) + 1
    } else {
        n as u128
    };
    assert(a == abs(n as int));
    let g = gcd_exec(a, d);
    proof {
        lemma_gcd_pos(a as nat, d as nat);
    }
    let q = a / g;
    let rd = d / g;
    assert(rd > 0) by (nonlinear_arith)
        requires
            0 < g <= d,
            rd == d / g,
    ;
    if rd > u64::MAX as u128 {
        return None;
    }
    if n < 0 {
        if q > 9223372036854775808u128 {
            return None;
        }
        let v: i128 = -(q as i128);
        Some(Number { num: v as i64, den: rd as u64, float })
    } else {
        if q > 9223372036854775807u128 {
            return None;
        }
        Some(Number { num: q as i64, den: rd as u64, float })
    }
}

proof fn lemma_mul_i64_u64(x: int, y: int)
    requires
        i64::MIN <= x <= i64::MAX,
        0 <= y <= u64::MAX,
    ensures
        -0x8000_0000_0000_0000_0000_0000_0000_0000 < x * y < 0x8000_0000_0000_0000_0000_0000_0000_0000,
{
    assert(-0x8000_0000_0000_0000 * 0xffff_ffff_ffff_ffff <= x * y <= 0x8000_0000_0000_0000
        * 0xffff_ffff_ffff_ffff) by (nonlinear_arith)
        requires
            -0x8000_0000_0000_0000 <= x <= 0x8000_0000_0000_0000,
            0 <= y <= 0xffff_ffff_ffff_ffff,
    ;
}

proof fn lemma_mul_u64_u64(x: int, y: int)
    requires
        0 <= x <= u64::MAX,
        0 <= y <= u64::MAX,
    ensures
        0 <= x * y <= u128::MAX,
{
    assert(0 <= x * y <= 0xffff_ffff_ffff_ffff * 0xffff_ffff_ffff_ffff) by (nonlinear_arith)
        requires
            0 <= x <= 0xffff_ffff_ffff_ffff,
            0 <= y <= 0xffff_ffff_ffff_ffff,
    ;
}

proof fn lemma_mul_i64_i64(x: int, y: int)
    requires
        i64::MIN <= x <= i64::MAX,
        i64::MIN <= y <= i64::MAX,
    ensures
        i128::MIN < x * y <= i128::MAX,
{
    assert(-0x8000_0000_0000_0000 * 0x8000_0000_0000_0000 <= x * y <= 0x8000_0000_0000_0000
        * 0x8000_0000_0000_0000) by (nonlinear_arith)
        requires
            -0x8000_0000_0000_0000 <= x <= 0x8000_0000_0000_0000,
            -0x8000_0000_0000_0000 <= y <= 0x8000_0000_0000_0000,
    ;
}

/// The greatest common divisor of `a` and a positive `b` divides both.
pub proof fn lemma_gcd_divides(a: nat, b: nat)
    requires
        b > 0,
    ensures
        gcd(a, b) > 0,
        a == gcd(a, b) * (a / gcd(a, b)),
        b == gcd(a, b) * (b / gcd(a, b)),
    decreases b,
{
    lemma_gcd_pos(a, b);
    let g = gcd(a, b);
    if a % b == 0 {
        assert(gcd(b, 0) == b);
        assert(g == b);
        vstd::arithmetic::div_mod::lemma_fundamental_div_mod(a as int, b as int);
        vstd::arithmetic::div_mod::lemma_div_multiples_vanish(1, b as int);
        assert(b * 1 == b);
    } else {
        let r = a % b;
        lemma_gcd_divides(b, r);
        assert(g == gcd(b, r));
        let kb = b / g;
        let kr = r / g;
        vstd::arithmetic::div_mod::lemma_fundamental_div_mod(a as int, b as int);
        let q = (a as int) / (b as int);
        assert(a as int == (b as int) * q + (r as int));
        assert(a as int == (g as int) * ((kb as int) * q + (kr as int))) by (nonlinear_arith)
            requires
                a as int == (b as int) * q + (r as int),
                b as int == (g as int) * (kb as int),
                r as int == (g as int) * (kr as int),
        ;
        vstd::arithmetic::div_mod::lemma_div_multiples_vanish((kb as int) * q + (kr as int), g as int);
    }
}

/// Reducing a fraction keeps its value: a made number `r` stands for `n / d`
/// (`r.num * d == n * r.den`), with a positive denominator.
pub proof fn law_make_keeps_value(n: int, d: int, float: bool)
    ensures
        spec_make(n, d, float) matches Some(r) ==> r.den > 0 && r.num * d == n * r.den && r.float == float,
{
    if d > 0 {
        lemma_gcd_divides(abs(n), d as nat);
        let g = gcd(abs(n), d as nat) as int;
        let an = abs(n) as int;
        let qn = an / g;
        let qd = d / g;
        assert(qd > 0) by (nonlinear_arith)
            requires
                d == g * qd,
                d > 0,
                g > 0,
        ;
        let rn = sgn(n) * qn;
        assert(n == sgn(n) * an);
        assert(rn * d == n * qd) by (nonlinear_arith)
            requires
                rn == sgn(n) * qn,
                d == g * qd,
                an == g * qn,
                n == sgn(n) * an,
        ;
    }
}

/// Exact sum (floating-point result), if it fits.
pub open spec fn spec_add(a: Number, b: Number) -> Option<Number> {
    let n = a.num * b.den + b.num * a.den;
    if i128::MIN <= n <= i128::MAX {
        spec_make(n, a.den * b.den, true)
    } else {
        None
    }
}

/// Exact difference (floating-point result), if it fits.
pub open spec fn spec_sub(a: Number, b: Number) -> Option<Number> {
    let n = a.num * b.den - b.num * a.den;
    if i128::MIN <= n <= i128::MAX {
        spec_make(n, a.den * b.den, true)
    } else {
        None
    }
}

/// Exact product (floating-point result), if it fits.
pub open spec fn spec_mul(a: Number, b: Number) -> Option<Number> {
    spec_make(a.num * b.num, a.den * b.den, true)
}

/// Exact quotient (floating-point result) for `b != 0`, if it fits.
pub open spec fn spec_div(a: Number, b: Number) -> Option<Number> {
    spec_make(sgn(b.num as int) * (a.num * b.den), a.den * abs(b.num as int), true)
}

/// Remainder of truncated division (`f64 %`: the sign of the dividend), for
/// `b != 0`, if it fits.
pub open spec fn spec_rem(a: Number, b: Number) -> Option<Number> {
    spec_make(
        sgn(a.num as int) * (abs(a.num * b.den) % ((a.den as nat) * abs(b.num as int))) as int,
        a.den * b.den,
        true,
    )
}

/// Negation (floating-point result), if it fits.
pub open spec fn spec_neg(a: Number) -> Option<Number> {
    spec_make(-a.num, a.den as int, true)
}

/// Numeric order of two numbers.
pub open spec fn num_order(a: Number, b: Number) -> Ord3 {
    let x = a.num * b.den;
    let y = b.num * a.den;
    if x < y {
        Ord3::Less
    } else if x == y {
        Ord3::Equal
    } else {
        Ord3::Greater
    }
}

/// Checked sum.
pub fn num_add(a: &Number, b: &Number) -> (r: Option<Number>)
    ensures
        r == spec_add(*a, *b),
        r matches Some(x) ==> x.wf(),
{
    proof {
        lemma_mul_i64_u64(a.num as int, b.den as int);
        lemma_mul_i64_u64(b.num as int, a.den as int);
        lemma_mul_u64_u64(a.den as int, b.den as int);
    }
    let x = (a.num as i128) * (b.den as i128);
    let y = (b.num as i128) * (a.den as i128);
    let d = (a.den as u128) * (b.den as u128);
    match x.checked_add(y) {
        Some(n) => make(n, d, true),
        None => None,
    }
}

/// Checked difference.
pub fn num_sub(a: &Number, b: &Number) -> (r: Option<Number>)
    ensures
        r == spec_sub(*a, *b),
        r matches Some(x) ==> x.wf(),
{
    proof {
        lemma_mul_i64_u64(a.num as int, b.den as int);
        lemma_mul_i64_u64(b.num as int, a.den as int);
        lemma_mul_u64_u64(a.den as int, b.den as int);
    }
    let x = (a.num as i128) * (b.den as i128);
    let y = (b.num as i128) * (a.den as i128);
    let d = (a.den as u128) * (b.den as u128);
    match x.checked_sub(y) {
        Some(n) => make(n, d, true),
        None => None,
    }
}

/// Checked product.
pub fn num_mul(a: &Number, b: &Number) -> (r: Option<Number>)
    ensures
        r == spec_mul(*a, *b),
        r matches Some(x) ==> x.wf(),
{
    proof {
        lemma_mul_i64_i64(a.num as int, b.num as int);
        lemma_mul_u64_u64(a.den as int, b.den as int);
    }
    let n = (a.num as i128) * (b.num as i128);
    let d = (a.den as u128) * (b.den as u128);
    make(n, d, true)
}

fn abs_i64(x: i64) -> (r: u64)
    ensures
        r == abs(x as int),
{
    if x < 0 {
        ((-(x + 1)) as u64) + 1
    } else {
        x as u64
    }
}

/// Checked quotient; `b` must be non-zero.
pub fn num_div(a: &Number, b: &Number) -> (r: Option<Number>)
    requires
        b.num != 0,
    ensures
        r == spec_div(*a, *b),
        r matches Some(x) ==> x.wf(),
{
    proof {
        lemma_mul_i64_u64(a.num as int, b.den as int);
        lemma_mul_u64_u64(a.den as int, abs(b.num as int) as int);
    }
    let x = (a.num as i128) * (b.den as i128);
    let bn = abs_i64(b.num);
    let d = (a.den as u128) * (bn as u128);
    if b.num < 0 {
        make(-x, d, true)
    } else {
        make(x, d, true)
    }
}

/// Checked remainder with the sign of the dividend; `b` must be non-zero.
pub fn num_rem(a: &Number, b: &Number) -> (r: Option<Number>)
    requires
        b.num != 0,
    ensures
        r == spec_rem(*a, *b),
        r matches Some(x) ==> x.wf(),
{
    let an = abs_i64(a.num);
    let bn = abs_i64(b.num);
    proof {
        lemma_mul_u64_u64(an as int, b.den as int);
        lemma_mul_u64_u64(a.den as int, bn as int);
        lemma_mul_u64_u64(a.den as int, b.den as int);
        assert(abs(a.num * b.den) == an * b.den) by (nonlinear_arith)
            requires
                an == abs(a.num as int),
                b.den >= 0,
        ;
    }
    let x = (an as u128) * (b.den as u128);
    let y = (a.den as u128) * (bn as u128);
    if y == 0 {
        assert(a.den == 0) by (nonlinear_arith)
            requires
                bn > 0,
                y == 0,
                y == a.den * bn,
        ;
        assert(a.den * b.den == 0) by (nonlinear_arith)
            requires
                a.den == 0,
        ;
        return None;
    }
    let m = x % y;
    assert(y <= 0xffff_ffff_ffff_ffff * 0x8000_0000_0000_0000) by (nonlinear_arith)
        requires
            a.den <= 0xffff_ffff_ffff_ffff,
            bn <= 0x8000_0000_0000_0000,
            y == a.den * bn,
    ;
    let d = (a.den as u128) * (b.den as u128);
    let mi = m as i128;
    if a.num < 0 {
        make(-mi, d, true)
    } else {
        make(mi, d, true)
    }
}

/// Checked negation.
pub fn num_neg(a: &Number) -> (r: Option<Number>)
    ensures
        r == spec_neg(*a),
        r matches Some(x) ==> x.wf(),
{
    make(-(a.num as i128), a.den as u128, true)
}

/// Numeric comparison.
pub fn compare_numbers(a: &Number, b: &Number) -> (r: Ord3)
    ensures
        r == num_order(*a, *b),
{
    proof {
        lemma_mul_i64_u64(a.num as int, b.den as int);
        lemma_mul_i64_u64(b.num as int, a.den as int);
    }
    let x = (a.num as i128) * (b.den as i128);
    let y = (b.num as i128) * (a.den as i128);
    if x < y {
        Ord3::Less
    } else if x == y {
        Ord3::Equal
    } else {
        Ord3::Greater
    }
}

/// Compares the integer `n` with the number `b`.
pub fn compare_int_number(n: u64, b: &Number) -> (r: Ord3)
    ensures
        r == (if n * b.den < b.num as int {
            Ord3::Less
        } else if n * b.den == b.num as int {
            Ord3::Equal
        } else {
            Ord3::Greater
        }),
{
    proof {
        lemma_mul_u64_u64(n as int, b.den as int);
    }
    let x = (n as u128) * (b.den as u128);
    if b.num < 0 {
        Ord3::Greater
    } else {
        let y = b.num as u128;
        if x < y {
            Ord3::Less
        } else if x == y {
            Ord3::Equal
        } else {
            Ord3::Greater
        }
    }
}

/// Fraction digits of `rem / den` by long division, at most `k` of them,
/// stopping once the division is exact.
pub open spec fn frac_digits(rem: nat, den: nat, k: nat) -> Seq<char>
    decreases k,
{
    if k == 0 || rem == 0 || den == 0 {
        Seq::empty()
    } else {
        seq![digit_char(((rem * 10) / den) as int)] + frac_digits((rem * 10) % den, den, (k - 1) as nat)
    }
}

/// Text of a number: integer part, then up to sixteen fraction digits; a
/// floating-point number with no fraction digits is written with `.0`.
pub open spec fn number_text(n: Number) -> Seq<char> {
    if n.den == 0 {
        seq!['n', 'u', 'l', 'l']
    } else {
        number_text_finite(n)
    }
}

/// Text of a number with a positive denominator.
pub open spec fn number_text_finite(n: Number) -> Seq<char> {
    let a = abs(n.num as int);
    let ip = a / (n.den as nat);
    let fr = frac_digits(a % (n.den as nat), n.den as nat, 16);
    let sign = if n.num < 0 {
        seq!['-']
    } else {
        Seq::<char>::empty()
    };
    let tail = if fr.len() > 0 {
        seq!['.'] + fr
    } else if n.float {
        seq!['.', '0']
    } else {
        Seq::<char>::empty()
    };
    sign + nat_text(ip) + tail
}

fn push_frac_digits(out: &mut String, rem: u64, den: u64, k: u8)
    requires
        rem < den,
    ensures
        final(out)@ == old(out)@ + frac_digits(rem as nat, den as nat, k as nat),
    decreases k,
{
    if k == 0 || rem == 0 {
        return;
    }
    let r10 = (rem as u128) * 10;
    let d = (r10 / (den as u128)) as u8;
    assert(r10 / (den as u128) < 10) by (nonlinear_arith)
        requires
            rem < den,
            r10 == rem * 10,
    ;
    let next = (r10 % (den as u128)) as u64;
    push_char(out, digit_to_char(d));
    push_frac_digits(out, next, den, k - 1);
    assert(old(out)@.push(digit_char(d as int)) + frac_digits(next as nat, den as nat, (k - 1) as nat)
        =~= old(out)@ + (seq![digit_char(d as int)] + frac_digits(
        next as nat,
        den as nat,
        (k - 1) as nat,
    )));
}

/// Appends the text of a number.
pub fn push_number(out: &mut String, n: &Number)
    ensures
        final(out)@ == old(out)@ + number_text(*n),
{
    if n.den == 0 {
        push_str(out, "null");
        proof {
            reveal_strlit("null");
        }
        assert(out@ =~= old(out)@ + number_text(*n));
        return;
    }
    let a = abs_i64(n.num);
    let ip = a / n.den;
    let fr = a % n.den;
    let mut digits = String::new();
    push_frac_digits(&mut digits, fr, n.den, 16);
    let ghost start = out@;
    if n.num < 0 {
        push_char(out, '-');
    }
    push_nat(out, ip as u128);
    let ghost mid = out@;
    if !digits.as_str().is_empty() {
        push_char(out, '.');
        push_str(out, digits.as_str());
    } else if n.float {
        push_char(out, '.');
        push_char(out, '0');
    }
    proof {
        let sign = if n.num < 0 {
            seq!['-']
        } else {
            Seq::<char>::empty()
        };
        assert(mid =~= start + sign + nat_text(ip as nat));
        assert(out@ =~= start + number_text(*n));
    }
}

} // verus!
