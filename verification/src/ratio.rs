//! Exact rational numbers.
//!
//! A [`Ratio`] is a fraction of two 64-bit integers in lowest terms. Every
//! operation is exact: it either returns the true result or reports that the
//! true result does not fit, and it never rounds. The mathematical meaning of
//! a `Ratio` is the real number [`Ratio::value`].

use vstd::arithmetic::div_mod::*;
use vstd::prelude::*;

verus! {

/// Greatest common divisor, by Euclid's rule.
pub open spec fn gcd(a: nat, b: nat) -> nat
    decreases b,
{
    if b == 0 {
        a
    } else {
        gcd(b, a % b)
    }
}

/// Absolute value of an integer.
pub open spec fn magnitude(n: int) -> nat {
    if n < 0 {
        (-n) as nat
    } else {
        n as nat
    }
}

/// Whether the fraction `n / d`, brought to lowest terms, fits a [`Ratio`]:
/// a positive denominator of at most `i64::MAX` and a numerator within `i64`.
pub open spec fn representable(n: int, d: int) -> bool {
    let g = gcd(magnitude(n), magnitude(d));
    &&& d > 0
    &&& magnitude(d) / g <= 0x7fff_ffff_ffff_ffffint
    &&& magnitude(n) / g <= (if n < 0 {
        0x8000_0000_0000_0000int
    } else {
        0x7fff_ffff_ffff_ffffint
    })
}

/// The numerator of `n / d` once the sign of `d` has been moved into it.
pub open spec fn oriented_numerator(n: int, d: int) -> int {
    if d < 0 {
        -n
    } else {
        n
    }
}

/// The sign of the divisor carried over to the dividend's numerator.
pub open spec fn quotient_numerator(an: int, bd: int, bn: int) -> int {
    if bn < 0 {
        -(an * bd)
    } else {
        an * bd
    }
}

/// The real number `n / d`.
#[verifier::opaque]
pub open spec fn fraction(n: int, d: int) -> real {
    (n as real) / (d as real)
}

/// A whole number over one is that number.
pub proof fn lemma_fraction_integer(n: int)
    ensures
        fraction(n, 1) == n as real,
{
    reveal(fraction);
    assert((n as real) / (1 as real) == n as real) by (nonlinear_arith);
}

/// A fraction is zero exactly when its numerator is.
pub proof fn lemma_fraction_zero(n: int, d: int)
    requires
        d != 0,
    ensures
        fraction(n, d) == 0 as real <==> n == 0,
{
    reveal(fraction);
    assert(((n as real) / (d as real) == 0 as real) <==> n == 0) by (nonlinear_arith)
        requires
            d != 0,
    ;
}

/// Cancelling a common factor leaves the fraction unchanged.
pub proof fn lemma_fraction_cancel(n: int, d: int, g: int)
    requires
        d != 0,
        g != 0,
    ensures
        fraction(n * g, d * g) == fraction(n, d),
{
    reveal(fraction);
    assert(((n * g) as real) / ((d * g) as real) == (n as real) / (d as real))
        by (nonlinear_arith)
        requires
            d != 0,
            g != 0,
    ;
}

/// Moving the sign of the denominator into the numerator leaves the fraction
/// unchanged.
pub proof fn lemma_fraction_oriented(n: int, d: int)
    requires
        d != 0,
    ensures
        fraction(oriented_numerator(n, d), magnitude(d) as int) == fraction(n, d),
{
    reveal(fraction);
    assert(((-n) as real) / ((-d) as real) == (n as real) / (d as real)) by (nonlinear_arith)
        requires
            d != 0,
    ;
}

/// Fractions add by cross-multiplication.
pub proof fn lemma_fraction_add(an: int, ad: int, bn: int, bd: int)
    requires
        ad != 0,
        bd != 0,
    ensures
        fraction(an * bd + bn * ad, ad * bd) == fraction(an, ad) + fraction(bn, bd),
{
    reveal(fraction);
    assert(((an * bd + bn * ad) as real) / ((ad * bd) as real) == (an as real) / (ad as real) + (
    bn as real) / (bd as real)) by (nonlinear_arith)
        requires
            ad != 0,
            bd != 0,
    ;
}

/// Fractions subtract by cross-multiplication.
pub proof fn lemma_fraction_sub(an: int, ad: int, bn: int, bd: int)
    requires
        ad != 0,
        bd != 0,
    ensures
        fraction(an * bd - bn * ad, ad * bd) == fraction(an, ad) - fraction(bn, bd),
{
    reveal(fraction);
    assert(((an * bd - bn * ad) as real) / ((ad * bd) as real) == (an as real) / (ad as real) - (
    bn as real) / (bd as real)) by (nonlinear_arith)
        requires
            ad != 0,
            bd != 0,
    ;
}

/// Fractions multiply numerator by numerator and denominator by denominator.
pub proof fn lemma_fraction_mul(an: int, ad: int, bn: int, bd: int)
    requires
        ad != 0,
        bd != 0,
    ensures
        fraction(an * bn, ad * bd) == fraction(an, ad) * fraction(bn, bd),
{
    reveal(fraction);
    assert(((an * bn) as real) / ((ad * bd) as real) == ((an as real) / (ad as real)) * ((
    bn as real) / (bd as real))) by (nonlinear_arith)
        requires
            ad != 0,
            bd != 0,
    ;
}

/// Dividing by a fraction multiplies by its reciprocal, the sign of the
/// divisor going to the numerator.
pub proof fn lemma_fraction_div(an: int, ad: int, bn: int, bd: int)
    requires
        ad != 0,
        bd != 0,
        bn != 0,
    ensures
        fraction(quotient_numerator(an, bd, bn), ad * magnitude(bn)) == fraction(an, ad)
            / fraction(bn, bd),
{
    reveal(fraction);
    let n = quotient_numerator(an, bd, bn);
    let m = magnitude(bn) as int;
    assert((n as real) / ((ad * m) as real) == ((an as real) / (ad as real)) / ((bn as real) / (
    bd as real))) by (nonlinear_arith)
        requires
            bn < 0 ==> n == -(an * bd) && m == -bn,
            bn > 0 ==> n == an * bd && m == bn,
            bn != 0,
            ad != 0,
            bd != 0,
    ;
}

/// The greatest common divisor of two numbers, not both zero, is positive and
/// divides each of them.
pub proof fn lemma_gcd_divides(a: nat, b: nat)
    requires
        a > 0 || b > 0,
    ensures
        gcd(a, b) > 0,
        a % gcd(a, b) == 0,
        b % gcd(a, b) == 0,
    decreases b,
{
    if b == 0 {
        lemma_mod_self_0(a as int);
    } else {
        let r = a % b;
        lemma_gcd_divides(b, r);
        let g = gcd(b, r);
        let q = a / b;
        let qb = b / g;
        let qr = r / g;
        lemma_fundamental_div_mod(a as int, b as int);
        lemma_fundamental_div_mod(b as int, g as int);
        lemma_fundamental_div_mod(r as int, g as int);
        assert(a == (qb * q + qr) * g) by (nonlinear_arith)
            requires
                a == b * q + r,
                b == g * qb,
                r == g * qr,
        ;
        lemma_mod_multiples_basic((qb * q + qr) as int, g as int);
    }
}

/// The greatest common divisor of `a` and `b`.
fn gcd_of(a: u128, b: u128) -> (g: u128)
    ensures
        g == gcd(a as nat, b as nat),
{
    let mut x: u128 = a;
    let mut y: u128 = b;
    while y != 0
        invariant
            gcd(x as nat, y as nat) == gcd(a as nat, b as nat),
        decreases y,
    {
        let r: u128 = x % y;
        x = y;
        y = r;
    }
    x
}

/// A numerator times a denominator stays clear of the limits of `i128`, even
/// when two such products are added.
proof fn lemma_cross_bound(a: int, b: int)
    requires
        -0x8000_0000_0000_0000 <= a <= 0x8000_0000_0000_0000,
        0 <= b <= 0x7fff_ffff_ffff_ffff,
    ensures
        -0x3fff_ffff_ffff_ffff_8000_0000_0000_0000 <= a * b
            <= 0x3fff_ffff_ffff_ffff_8000_0000_0000_0000,
{
    let l: int = 0x8000_0000_0000_0000;
    let k: int = 0x7fff_ffff_ffff_ffff;
    assert(-(l * k) <= a * b <= l * k) by (nonlinear_arith)
        requires
            -l <= a <= l,
            0 <= b <= k,
            l >= 0,
    ;
    assert(l * k == 0x3fff_ffff_ffff_ffff_8000_0000_0000_0000) by (nonlinear_arith)
        requires
            l == 0x8000_0000_0000_0000,
            k == 0x7fff_ffff_ffff_ffff,
    ;
}

/// The product of two 64-bit numbers fits `i128`.
proof fn lemma_product_bound(a: int, b: int)
    requires
        -0x8000_0000_0000_0000 <= a <= 0x8000_0000_0000_0000,
        -0x8000_0000_0000_0000 <= b <= 0x8000_0000_0000_0000,
    ensures
        -0x4000_0000_0000_0000_0000_0000_0000_0000 <= a * b
            <= 0x4000_0000_0000_0000_0000_0000_0000_0000,
{
    let l: int = 0x8000_0000_0000_0000;
    assert(-(l * l) <= a * b <= l * l) by (nonlinear_arith)
        requires
            -l <= a <= l,
            -l <= b <= l,
            l >= 0,
    ;
    assert(l * l == 0x4000_0000_0000_0000_0000_0000_0000_0000) by (nonlinear_arith)
        requires
            l == 0x8000_0000_0000_0000,
    ;
}

/// An exact fraction with a positive denominator.
#[derive(Clone, Copy, Debug, PartialEq, Eq)]
pub struct Ratio {
    num: i64,
    den: i64,
}

impl Ratio {
    /// Every stored fraction has a positive denominator.
    #[verifier::type_invariant]
    spec fn positive_denominator(self) -> bool {
        self.den > 0
    }

    /// The stored numerator.
    pub closed spec fn numer(self) -> int {
        self.num as int
    }

    /// The stored denominator.
    pub closed spec fn denom(self) -> int {
        self.den as int
    }

    /// The real number that this fraction stands for.
    pub open spec fn value(self) -> real {
        fraction(self.numer(), self.denom())
    }

    /// The whole number `n` as it is stored.
    pub closed spec fn integer(n: int) -> Ratio {
        Ratio { num: n as i64, den: 1 }
    }

    /// The fraction `n / d` in lowest terms, as it is stored.
    pub closed spec fn lowest_terms(n: int, d: int) -> Ratio {
        let g = gcd(magnitude(n), magnitude(d));
        Ratio {
            num: (if n < 0 {
                -(magnitude(n) / g)
            } else {
                (magnitude(n) / g) as int
            }) as i64,
            den: (magnitude(d) / g) as i64,
        }
    }

    /// The fraction `n / d` as it is stored, if it fits.
    pub open spec fn stored(n: int, d: int) -> Option<Ratio> {
        if representable(n, d) {
            Some(Self::lowest_terms(n, d))
        } else {
            None
        }
    }

    /// What [`Ratio::checked_add`] gives.
    pub open spec fn plus(self, rhs: Ratio) -> Option<Ratio> {
        Self::stored(
            self.numer() * rhs.denom() + rhs.numer() * self.denom(),
            self.denom() * rhs.denom(),
        )
    }

    /// What [`Ratio::checked_sub`] gives.
    pub open spec fn minus(self, rhs: Ratio) -> Option<Ratio> {
        Self::stored(
            self.numer() * rhs.denom() - rhs.numer() * self.denom(),
            self.denom() * rhs.denom(),
        )
    }

    /// What [`Ratio::checked_mul`] gives.
    pub open spec fn times(self, rhs: Ratio) -> Option<Ratio> {
        Self::stored(self.numer() * rhs.numer(), self.denom() * rhs.denom())
    }

    /// What [`Ratio::checked_div`] gives.
    pub open spec fn over(self, rhs: Ratio) -> Option<Ratio> {
        if rhs.numer() == 0 {
            None
        } else {
            Self::stored(
                quotient_numerator(self.numer(), rhs.denom(), rhs.numer()),
                self.denom() * magnitude(rhs.numer()),
            )
        }
    }

    /// Brings `n / d` to lowest terms and stores it, if it fits.
    fn reduce(n: i128, d: i128) -> (r: Option<Ratio>)
        requires
            d > 0,
            n > i128::MIN,
        ensures
            r == Ratio::stored(n as int, d as int),
            r matches Some(v) ==> v.value() == fraction(n as int, d as int),
    {
        let negative = n < 0;
        let mag: u128 = if negative {
            (-n) as u128
        } else {
            n as u128
        };
        let du: u128 = d as u128;
        let g: u128 = gcd_of(mag, du);
        proof {
            lemma_gcd_divides(mag as nat, du as nat);
            lemma_fundamental_div_mod(mag as int, g as int);
            lemma_fundamental_div_mod(du as int, g as int);
        }
        let qn: u128 = mag / g;
        let qd: u128 = du / g;
        assert(qd > 0) by (nonlinear_arith)
            requires
                du == g * qd,
                du > 0,
                g > 0,
        ;
        if qd > 0x7fff_ffff_ffff_ffff {
            return None;
        }
        let den: i64 = qd as i64;
        let num: i64 = if negative {
            if qn > 0x8000_0000_0000_0000 {
                return None;
            }
            if qn == 0x8000_0000_0000_0000 {
                i64::MIN
            } else {
                -(qn as i64)
            }
        } else {
            if qn > 0x7fff_ffff_ffff_ffff {
                return None;
            }
            qn as i64
        };
        proof {
            assert(n == num * g) by (nonlinear_arith)
                requires
                    mag == g * qn,
                    negative ==> num == -qn && n == -mag,
                    !negative ==> num == qn && n == mag,
            ;
            assert(d == den * g) by (nonlinear_arith)
                requires
                    d == g * qd,
                    den == qd,
            ;
            lemma_fraction_cancel(num as int, den as int, g as int);
        }
        Some(Ratio { num, den })
    }

    /// The fraction `numerator / denominator`.
    ///
    /// There is none when the denominator is zero, or when the fraction in
    /// lowest terms does not fit.
    pub fn new(numerator: i64, denominator: i64) -> (r: Option<Ratio>)
        ensures
            r == if denominator == 0 {
                None
            } else {
                Ratio::stored(
                    oriented_numerator(numerator as int, denominator as int),
                    magnitude(denominator as int) as int,
                )
            },
            r matches Some(v) ==> v.value() == fraction(numerator as int, denominator as int),
    {
        if denominator == 0 {
            return None;
        }
        let n: i128 = if denominator < 0 {
            -(numerator as i128)
        } else {
            numerator as i128
        };
        let d: i128 = if denominator < 0 {
            -(denominator as i128)
        } else {
            denominator as i128
        };
        proof {
            lemma_fraction_oriented(numerator as int, denominator as int);
        }
        Ratio::reduce(n, d)
    }

    /// The whole number `n`.
    pub fn from_integer(n: i64) -> (r: Ratio)
        ensures
            r == Ratio::integer(n as int),
            r.value() == n as real,
            r.numer() == n,
            r.denom() == 1,
    {
        proof {
            lemma_fraction_integer(n as int);
        }
        Ratio { num: n, den: 1 }
    }

    /// The numerator of the stored fraction.
    pub fn numerator(&self) -> (n: i64)
        ensures
            n == self.numer(),
    {
        self.num
    }

    /// The denominator of the stored fraction, which is positive.
    pub fn denominator(&self) -> (d: i64)
        ensures
            d == self.denom(),
            d > 0,
    {
        proof {
            use_type_invariant(self);
        }
        self.den
    }

    /// Whether this fraction is zero.
    pub fn is_zero(&self) -> (b: bool)
        ensures
            b <==> self.value() == 0 as real,
    {
        proof {
            use_type_invariant(self);
            lemma_fraction_zero(self.num as int, self.den as int);
        }
        self.num == 0
    }

    /// The sum, if it fits.
    pub fn checked_add(self, rhs: Ratio) -> (r: Option<Ratio>)
        ensures
            r == self.plus(rhs),
            r matches Some(v) ==> v.value() == self.value() + rhs.value(),
    {
        proof {
            use_type_invariant(&self);
            use_type_invariant(&rhs);
            lemma_cross_bound(self.num as int, rhs.den as int);
            lemma_cross_bound(rhs.num as int, self.den as int);
            lemma_cross_bound(self.den as int, rhs.den as int);
        }
        let an: i128 = self.num as i128;
        let ad: i128 = self.den as i128;
        let bn: i128 = rhs.num as i128;
        let bd: i128 = rhs.den as i128;
        let n: i128 = an * bd + bn * ad;
        let d: i128 = ad * bd;
        proof {
            assert(d > 0) by (nonlinear_arith)
                requires
                    d == ad * bd,
                    ad > 0,
                    bd > 0,
            ;
            lemma_fraction_add(an as int, ad as int, bn as int, bd as int);
        }
        Ratio::reduce(n, d)
    }

    /// The difference, if it fits.
    pub fn checked_sub(self, rhs: Ratio) -> (r: Option<Ratio>)
        ensures
            r == self.minus(rhs),
            r matches Some(v) ==> v.value() == self.value() - rhs.value(),
    {
        proof {
            use_type_invariant(&self);
            use_type_invariant(&rhs);
            lemma_cross_bound(self.num as int, rhs.den as int);
            lemma_cross_bound(rhs.num as int, self.den as int);
            lemma_cross_bound(self.den as int, rhs.den as int);
        }
        let an: i128 = self.num as i128;
        let ad: i128 = self.den as i128;
        let bn: i128 = rhs.num as i128;
        let bd: i128 = rhs.den as i128;
        let n: i128 = an * bd - bn * ad;
        let d: i128 = ad * bd;
        proof {
            assert(d > 0) by (nonlinear_arith)
                requires
                    d == ad * bd,
                    ad > 0,
                    bd > 0,
            ;
            lemma_fraction_sub(an as int, ad as int, bn as int, bd as int);
        }
        Ratio::reduce(n, d)
    }

    /// The product, if it fits.
    pub fn checked_mul(self, rhs: Ratio) -> (r: Option<Ratio>)
        ensures
            r == self.times(rhs),
            r matches Some(v) ==> v.value() == self.value() * rhs.value(),
    {
        proof {
            use_type_invariant(&self);
            use_type_invariant(&rhs);
            lemma_product_bound(self.num as int, rhs.num as int);
            lemma_product_bound(self.den as int, rhs.den as int);
        }
        let an: i128 = self.num as i128;
        let ad: i128 = self.den as i128;
        let bn: i128 = rhs.num as i128;
        let bd: i128 = rhs.den as i128;
        let n: i128 = an * bn;
        let d: i128 = ad * bd;
        proof {
            assert(d > 0) by (nonlinear_arith)
                requires
                    d == ad * bd,
                    ad > 0,
                    bd > 0,
            ;
            lemma_fraction_mul(an as int, ad as int, bn as int, bd as int);
        }
        Ratio::reduce(n, d)
    }

    /// The quotient, if the divisor is not zero and the quotient fits.
    pub fn checked_div(self, rhs: Ratio) -> (r: Option<Ratio>)
        ensures
            r == self.over(rhs),
            rhs.value() == 0 as real ==> r is None,
            r matches Some(v) ==> v.value() == self.value() / rhs.value(),
    {
        proof {
            use_type_invariant(&self);
            use_type_invariant(&rhs);
            lemma_product_bound(self.num as int, rhs.den as int);
            lemma_product_bound(self.den as int, magnitude(rhs.num as int) as int);
            lemma_fraction_zero(rhs.num as int, rhs.den as int);
        }
        if rhs.num == 0 {
            return None;
        }
        let an: i128 = self.num as i128;
        let ad: i128 = self.den as i128;
        let bn: i128 = rhs.num as i128;
        let bd: i128 = rhs.den as i128;
        let x: i128 = an * bd;
        let n: i128 = if bn < 0 {
            -x
        } else {
            x
        };
        let m: i128 = if bn < 0 {
            -bn
        } else {
            bn
        };
        let d: i128 = ad * m;
        proof {
            assert(d > 0) by (nonlinear_arith)
                requires
                    d == ad * m,
                    ad > 0,
                    m > 0,
            ;
            lemma_fraction_div(an as int, ad as int, bn as int, bd as int);
        }
        Ratio::reduce(n, d)
    }
}

} // verus!
