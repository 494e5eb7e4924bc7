use vstd::arithmetic::div_mod::{
    lemma_fundamental_div_mod, lemma_mod_multiples_basic, lemma_mod_self_0, lemma_small_mod,
};
use vstd::math::abs;
use vstd::prelude::*;

use crate::SolveError;

verus! {

/// Greatest common divisor by Euclid's rule; `gcd_spec(a, 0) == a`.
pub open spec fn gcd_spec(a: nat, b: nat) -> nat
    decreases b,
{
    if b == 0 {
        a
    } else {
        gcd_spec(b, a % b)
    }
}

/// The gcd of `a` and a positive `b` is positive and divides both.
pub proof fn lemma_gcd_divides(a: nat, b: nat)
    requires
        b > 0,
    ensures
        gcd_spec(a, b) > 0,
        a % gcd_spec(a, b) == 0,
        b % gcd_spec(a, b) == 0,
    decreases b,
{
    let r = a % b;
    if r == 0 {
        assert(gcd_spec(a, b) == gcd_spec(b, 0nat));
        assert(gcd_spec(b, 0nat) == b);
        lemma_mod_self_0(b as int);
    } else {
        lemma_gcd_divides(b, r);
        let g = gcd_spec(b, r);
        assert(gcd_spec(a, b) == g);
        lemma_fundamental_div_mod(a as int, b as int);
        lemma_fundamental_div_mod(b as int, g as int);
        lemma_fundamental_div_mod(r as int, g as int);
        let q = a as int / b as int;
        let kb = b as int / g as int;
        let kr = r as int / g as int;
        assert(a as int == (q * kb + kr) * g) by (nonlinear_arith)
            requires
                a as int == b as int * q + r as int,
                b as int == g as int * kb,
                r as int == g as int * kr,
        ;
        lemma_mod_multiples_basic(q * kb + kr, g as int);
    }
}

/// A positive divisor of a positive number is no larger than it, and the
/// quotient multiplies back exactly.
pub proof fn lemma_divisor_le(x: nat, d: nat)
    requires
        x > 0,
        d > 0,
        x % d == 0,
    ensures
        d <= x,
        1 <= x / d,
        x / d <= x,
        d * (x / d) == x,
{
    lemma_fundamental_div_mod(x as int, d as int);
    let q = x as int / d as int;
    assert(x as int == d as int * q);
    assert(q >= 1) by (nonlinear_arith)
        requires
            x as int == d as int * q,
            x > 0,
            d > 0,
    ;
    assert(d as int <= x as int && q <= x as int) by (nonlinear_arith)
        requires
            x as int == d as int * q,
            q >= 1,
            d > 0,
    ;
}

/// Every common divisor of `a` and `b` divides their gcd.
pub proof fn lemma_gcd_greatest(a: nat, b: nat, c: nat)
    requires
        b > 0,
        c > 0,
        a % c == 0,
        b % c == 0,
    ensures
        gcd_spec(a, b) % c == 0,
    decreases b,
{
    let r = a % b;
    lemma_fundamental_div_mod(a as int, b as int);
    lemma_fundamental_div_mod(a as int, c as int);
    lemma_fundamental_div_mod(b as int, c as int);
    let q = a as int / b as int;
    let ka = a as int / c as int;
    let kb = b as int / c as int;
    assert(r as int == (ka - kb * q) * c) by (nonlinear_arith)
        requires
            a as int == b as int * q + r as int,
            a as int == c as int * ka,
            b as int == c as int * kb,
    ;
    lemma_mod_multiples_basic(ka - kb * q, c as int);
    assert(r % c == 0);
    if r == 0 {
        assert(gcd_spec(a, b) == gcd_spec(b, 0nat));
        assert(gcd_spec(b, 0nat) == b);
    } else {
        lemma_gcd_greatest(b, r, c);
    }
}

/// Dividing two numbers by their gcd leaves coprime quotients.
pub proof fn lemma_gcd_quotients_coprime(a: nat, b: nat)
    requires
        a > 0,
        b > 0,
    ensures
        gcd_spec(a / gcd_spec(a, b), b / gcd_spec(a, b)) == 1,
{
    let g = gcd_spec(a, b);
    lemma_gcd_divides(a, b);
    lemma_divisor_le(a, g);
    lemma_divisor_le(b, g);
    let aa = a / g;
    let bb = b / g;
    let c = gcd_spec(aa, bb);
    lemma_gcd_divides(aa, bb);
    if c != 1 {
        lemma_divisor_le(aa, c);
        lemma_divisor_le(bb, c);
        let qa = aa / c;
        let qb = bb / c;
        assert(a == qa * (c * g)) by (nonlinear_arith)
            requires
                g * aa == a,
                c * qa == aa,
        ;
        assert(b == qb * (c * g)) by (nonlinear_arith)
            requires
                g * bb == b,
                c * qb == bb,
        ;
        lemma_mod_multiples_basic(qa as int, (c * g) as int);
        lemma_mod_multiples_basic(qb as int, (c * g) as int);
        assert(qa as int * (c * g) as int == a as int);
        assert(qb as int * (c * g) as int == b as int);
        assert(a % (c * g) == 0);
        assert(b % (c * g) == 0);
        lemma_gcd_greatest(a, b, c * g);
        assert(g % (c * g) == 0);
        assert(g < c * g) by (nonlinear_arith)
            requires
                c >= 2,
                g >= 1,
        ;
        lemma_small_mod(g, c * g);
        assert(false);
    }
}

/// The gcd does not depend on argument order (for positive arguments).
pub proof fn lemma_gcd_comm(a: nat, b: nat)
    requires
        a > 0,
        b > 0,
    ensures
        gcd_spec(a, b) == gcd_spec(b, a),
{
    let g1 = gcd_spec(a, b);
    let g2 = gcd_spec(b, a);
    lemma_gcd_divides(a, b);
    lemma_gcd_divides(b, a);
    lemma_gcd_greatest(a, b, g2);
    lemma_gcd_greatest(b, a, g1);
    lemma_divisor_le(g1, g2);
    lemma_divisor_le(g2, g1);
}

/// Anything paired with 1 has gcd 1.
pub proof fn lemma_gcd_with_one(a: nat)
    ensures
        gcd_spec(a, 1) == 1,
{
    assert(a % 1 == 0) by {
        lemma_fundamental_div_mod(a as int, 1int);
    };
    assert(gcd_spec(a, 1) == gcd_spec(1, 0nat));
    assert(gcd_spec(1, 0nat) == 1);
}

/// An exact rational number: sign, unsigned numerator, unsigned denominator.
/// Every value produced by this library is in lowest terms with a canonical
/// zero (numerator 0 forces denominator 1 and a non-negative sign).
#[derive(Clone, Copy, Debug)]
pub struct Fraction {
    pub negative: bool,
    pub numerator: u64,
    pub denominator: u64,
}

impl Fraction {
    /// Well-formed: denominator positive, in lowest terms, zero canonical.
    pub open spec fn wf(self) -> bool {
        &&& self.denominator >= 1
        &&& gcd_spec(self.numerator as nat, self.denominator as nat) == 1
        &&& (self.numerator == 0 ==> self.denominator == 1 && !self.negative)
    }

    /// The signed numerator, as a mathematical integer.
    pub open spec fn num(self) -> int {
        if self.negative {
            -(self.numerator as int)
        } else {
            self.numerator as int
        }
    }

    /// The denominator, as a mathematical integer.
    pub open spec fn den(self) -> int {
        self.denominator as int
    }
}

/// Two fractions denote the same rational number (cross-multiplication test).
pub open spec fn frac_eq(a: Fraction, b: Fraction) -> bool {
    a.num() * b.den() == b.num() * a.den()
}

/// Numerator of the canonical (lowest-terms) form of the rational `n / d`.
pub open spec fn norm_num(n: int, d: int) -> int {
    if n == 0 {
        0
    } else {
        abs(n) as int / gcd_spec(abs(n), d as nat) as int
    }
}

/// Denominator of the canonical form of the rational `n / d`.
pub open spec fn norm_den(n: int, d: int) -> int {
    if n == 0 {
        1
    } else {
        d / gcd_spec(abs(n), d as nat) as int
    }
}

/// Whether the canonical form of `n / d` fits the fixed-width fields.
pub open spec fn fits(n: int, d: int) -> bool {
    norm_num(n, d) <= u64::MAX && norm_den(n, d) <= u64::MAX
}

/// The canonical fraction denoting the rational `n / d` (for `d >= 1`).
pub open spec fn norm_frac(n: int, d: int) -> Fraction {
    Fraction {
        negative: n < 0,
        numerator: norm_num(n, d) as u64,
        denominator: norm_den(n, d) as u64,
    }
}

/// Facts about the canonical form: bounds of its parts, well-formedness, and
/// that it denotes exactly the rational `n / d`.
pub proof fn lemma_norm_frac(n: int, d: int)
    requires
        d >= 1,
    ensures
        0 <= norm_num(n, d) <= abs(n),
        1 <= norm_den(n, d) <= d,
        abs(n) <= u64::MAX && d <= u64::MAX ==> fits(n, d),
        fits(n, d) ==> norm_frac(n, d).wf(),
        fits(n, d) ==> norm_frac(n, d).num() * d == n * norm_frac(n, d).den(),
        fits(n, d) ==> (norm_frac(n, d).num() == 0 <==> n == 0),
        fits(n, d) ==> (norm_frac(n, d).num() < 0 <==> n < 0),
{
    if n == 0 {
        let f = norm_frac(0, d);
        assert(f.numerator == 0 && f.denominator == 1 && !f.negative);
        lemma_gcd_with_one(0);
    } else {
        let m = abs(n);
        let g = gcd_spec(m, d as nat);
        lemma_gcd_divides(m, d as nat);
        lemma_divisor_le(m, g);
        lemma_divisor_le(d as nat, g);
        assert(norm_num(n, d) == m as int / g as int);
        assert(norm_den(n, d) == d / g as int);
        lemma_gcd_quotients_coprime(m, d as nat);
        if fits(n, d) {
            let f = norm_frac(n, d);
            assert(f.numerator as nat == m / g && f.denominator as nat == (d as nat) / g);
            assert(f.wf());
            // value: f.num() * d == n * f.den()
            let mm = (m / g) as int;
            let dd = ((d as nat) / g) as int;
            assert(g as int * mm == m as int && g as int * dd == d);
            if n > 0 {
                assert(mm * d == n * dd) by (nonlinear_arith)
                    requires
                        g as int * mm == n,
                        g as int * dd == d,
                ;
            } else {
                assert((-mm) * d == n * dd) by (nonlinear_arith)
                    requires
                        g as int * mm == -n,
                        g as int * dd == d,
                ;
            }
            assert(f.num() == if n > 0 { mm } else { -mm });
        }
    }
}

/// A well-formed fraction is its own canonical form.
pub proof fn lemma_norm_fixed(f: Fraction)
    requires
        f.wf(),
    ensures
        norm_frac(f.num(), f.den()) == f,
{
    if f.numerator == 0 {
        assert(norm_frac(0, 1) == f);
    } else {
        let m = abs(f.num());
        assert(m == f.numerator as nat);
        let g = gcd_spec(m, f.denominator as nat);
        assert(g == 1);
        lemma_divisor_le(m, 1);
        lemma_divisor_le(f.denominator as nat, 1);
        assert(norm_num(f.num(), f.den()) == f.numerator as int);
        assert(norm_den(f.num(), f.den()) == f.denominator as int);
        assert(norm_frac(f.num(), f.den()).negative == (f.num() < 0));
        assert((f.num() < 0) == f.negative);
    }
}

/// Euclid's algorithm on the wide unsigned type used for intermediates.
fn gcd_u128(a: u128, b: u128) -> (g: u128)
    ensures
        g as nat == gcd_spec(a as nat, b as nat),
{
    let mut x = a;
    let mut y = b;
    while y != 0
        invariant
            gcd_spec(x as nat, y as nat) == gcd_spec(a as nat, b as nat),
        decreases y,
    {
        let t = y;
        y = x % t;
        x = t;
    }
    x
}

/// Reduce the signed magnitude pair `(negative, n) / d` to a canonical
/// fraction, reporting overflow when the reduced parts do not fit.
fn normalize_parts(negative: bool, n: u128, d: u128) -> (r: Result<Fraction, SolveError>)
    requires
        d >= 1,
    ensures
        ({
            let sn = if negative {
                -(n as int)
            } else {
                n as int
            };
            &&& (r is Ok <==> fits(sn, d as int))
            &&& (r matches Ok(f) ==> f == norm_frac(sn, d as int) && f.wf())
            &&& (r matches Err(e) ==> e == SolveError::ArithmeticOverflow)
        }),
{
    let ghost sn: int = if negative { -(n as int) } else { n as int };
    proof {
        lemma_norm_frac(sn, d as int);
        assert(abs(sn) == n as nat);
    }
    if n == 0 {
        proof {
            lemma_gcd_with_one(0);
        }
        return Ok(Fraction { negative: false, numerator: 0, denominator: 1 });
    }
    let g = gcd_u128(n, d);
    proof {
        lemma_gcd_divides(n as nat, d as nat);
        lemma_divisor_le(n as nat, g as nat);
        lemma_divisor_le(d as nat, g as nat);
    }
    let nn = n / g;
    let dd = d / g;
    if nn <= u64::MAX as u128 && dd <= u64::MAX as u128 {
        Ok(Fraction { negative, numerator: nn as u64, denominator: dd as u64 })
    } else {
        Err(SolveError::ArithmeticOverflow)
    }
}

impl Fraction {
    /// The canonical zero.
    pub fn zero() -> (r: Fraction)
        ensures
            r == (Fraction { negative: false, numerator: 0, denominator: 1 }),
            r.wf(),
            r.num() == 0,
            r.den() == 1,
    {
        proof {
            lemma_gcd_with_one(0);
        }
        Fraction { negative: false, numerator: 0, denominator: 1 }
    }

    /// The canonical one.
    pub fn one() -> (r: Fraction)
        ensures
            r == (Fraction { negative: false, numerator: 1, denominator: 1 }),
            r.wf(),
            r.num() == 1,
            r.den() == 1,
    {
        proof {
            lemma_gcd_with_one(1);
        }
        Fraction { negative: false, numerator: 1, denominator: 1 }
    }

    /// Build a fraction from a sign and a numerator/denominator pair, reduced
    /// to lowest terms.  A zero denominator is a reported error, not a panic.
    pub fn new(negative: bool, numerator: u64, denominator: u64) -> (r: Result<
        Fraction,
        SolveError,
    >)
        ensures
            (r is Err <==> denominator == 0),
            r matches Err(e) ==> e == SolveError::DivisionByZero,
            r matches Ok(f) ==> ({
                let sn = if negative {
                    -(numerator as int)
                } else {
                    numerator as int
                };
                f == norm_frac(sn, denominator as int) && f.wf()
            }),
    {
        if denominator == 0 {
            return Err(SolveError::DivisionByZero);
        }
        let ghost sn: int = if negative { -(numerator as int) } else { numerator as int };
        proof {
            lemma_norm_frac(sn, denominator as int);
        }
        match normalize_parts(negative, numerator as u128, denominator as u128) {
            Ok(f) => Ok(f),
            Err(_) => {
                proof {
                    assert(false);
                }
                Err(SolveError::DivisionByZero)
            },
        }
    }

    /// A non-negative fraction from a numerator/denominator pair.
    pub fn positive(numerator: u64, denominator: u64) -> (r: Result<Fraction, SolveError>)
        ensures
            (r is Err <==> denominator == 0),
            r matches Err(e) ==> e == SolveError::DivisionByZero,
            r matches Ok(f) ==> f == norm_frac(numerator as int, denominator as int) && f.wf(),
    {
        Self::new(false, numerator, denominator)
    }

    /// A non-positive fraction from a numerator/denominator pair.
    pub fn negative(numerator: u64, denominator: u64) -> (r: Result<Fraction, SolveError>)
        ensures
            (r is Err <==> denominator == 0),
            r matches Err(e) ==> e == SolveError::DivisionByZero,
            r matches Ok(f) ==> f == norm_frac(-(numerator as int), denominator as int) && f.wf(),
    {
        Self::new(true, numerator, denominator)
    }

    /// The whole number `n`.
    pub fn positive_n(n: u64) -> (r: Fraction)
        ensures
            r.wf(),
            r.num() == n as int,
            r.den() == 1,
            r == norm_frac(n as int, 1),
    {
        proof {
            lemma_gcd_with_one(n as nat);
            lemma_norm_frac(n as int, 1);
            lemma_norm_fixed(Fraction { negative: false, numerator: n, denominator: 1 });
        }
        Fraction { negative: false, numerator: n, denominator: 1 }
    }

    /// The whole number `-n`.
    pub fn negative_n(n: u64) -> (r: Fraction)
        ensures
            r.wf(),
            r.num() == -(n as int),
            r.den() == 1,
            r == norm_frac(-(n as int), 1),
    {
        proof {
            lemma_gcd_with_one(n as nat);
            lemma_norm_frac(-(n as int), 1);
            lemma_norm_fixed(
                Fraction { negative: n > 0, numerator: n, denominator: 1 },
            );
        }
        Fraction { negative: n > 0, numerator: n, denominator: 1 }
    }
}

/// Signed numerator of the exact sum of `a` and `b`, by cross-multiplication.
pub open spec fn add_n(a: Fraction, b: Fraction) -> int {
    a.num() * b.den() + b.num() * a.den()
}

/// Signed numerator of the exact difference of `a` and `b`.
pub open spec fn sub_n(a: Fraction, b: Fraction) -> int {
    a.num() * b.den() - b.num() * a.den()
}

/// Signed numerator of the exact product of `a` and `b`.
pub open spec fn mul_n(a: Fraction, b: Fraction) -> int {
    a.num() * b.num()
}

/// Denominator of the exact sum, difference, or product of `a` and `b`.
pub open spec fn mul_d(a: Fraction, b: Fraction) -> int {
    a.den() * b.den()
}

/// The canonical sum of two fractions.
pub open spec fn frac_add(a: Fraction, b: Fraction) -> Fraction {
    norm_frac(add_n(a, b), mul_d(a, b))
}

/// Whether the sum can be computed: the cross-multiplied numerator must fit
/// the wide intermediate type and the reduced result the fixed-width fields.
pub open spec fn add_fits(a: Fraction, b: Fraction) -> bool {
    abs(add_n(a, b)) <= u128::MAX && fits(add_n(a, b), mul_d(a, b))
}

/// The canonical difference of two fractions.
pub open spec fn frac_sub(a: Fraction, b: Fraction) -> Fraction {
    norm_frac(sub_n(a, b), mul_d(a, b))
}

/// Whether the difference can be computed, as for the sum.
pub open spec fn sub_fits(a: Fraction, b: Fraction) -> bool {
    abs(sub_n(a, b)) <= u128::MAX && fits(sub_n(a, b), mul_d(a, b))
}

/// The canonical product of two fractions.
pub open spec fn frac_mul(a: Fraction, b: Fraction) -> Fraction {
    norm_frac(mul_n(a, b), mul_d(a, b))
}

/// Whether the canonical product fits the fixed-width fields.
pub open spec fn mul_fits(a: Fraction, b: Fraction) -> bool {
    fits(mul_n(a, b), mul_d(a, b))
}

/// The sign-preserving reciprocal of `b` (meaningful when `b` is non-zero).
pub open spec fn recip(b: Fraction) -> Fraction {
    Fraction { negative: b.negative, numerator: b.denominator, denominator: b.numerator }
}

/// The canonical quotient of two fractions (for a non-zero `b`).
pub open spec fn frac_div(a: Fraction, b: Fraction) -> Fraction {
    frac_mul(a, recip(b))
}

/// Whether the canonical quotient fits the fixed-width fields.
pub open spec fn div_fits(a: Fraction, b: Fraction) -> bool {
    mul_fits(a, recip(b))
}

/// The exact meaning of the executable `==` on fractions: equal signs and
/// equal cross-products, with every zero equal to every other zero.
pub open spec fn frac_eq_exec(a: Fraction, b: Fraction) -> bool {
    if a.numerator == 0 && b.numerator == 0 {
        true
    } else if a.negative != b.negative {
        false
    } else {
        a.numerator as int * b.denominator as int == b.numerator as int * a.denominator as int
    }
}

/// On well-formed fractions the executable `==` decides exact rational
/// equality.
pub proof fn lemma_frac_eq_exec_is_value_eq(a: Fraction, b: Fraction)
    requires
        a.wf(),
        b.wf(),
    ensures
        frac_eq_exec(a, b) <==> frac_eq(a, b),
{
    if a.numerator == 0 && b.numerator == 0 {
        assert(a.num() == 0 && b.num() == 0);
    } else if a.numerator == 0 || b.numerator == 0 {
        if a.numerator == 0 {
            assert(b.num() * a.den() != 0) by (nonlinear_arith)
                requires
                    b.num() != 0,
                    a.den() >= 1,
            ;
        } else {
            assert(a.num() * b.den() != 0) by (nonlinear_arith)
                requires
                    a.num() != 0,
                    b.den() >= 1,
            ;
        }
        assert(!frac_eq(a, b));
        if frac_eq_exec(a, b) {
            assert(a.numerator as int * b.denominator as int == b.numerator as int
                * a.denominator as int);
            assert(false) by (nonlinear_arith)
                requires
                    a.numerator as int * b.denominator as int == b.numerator as int
                        * a.denominator as int,
                    a.numerator == 0 || b.numerator == 0,
                    !(a.numerator == 0 && b.numerator == 0),
                    a.denominator >= 1,
                    b.denominator >= 1,
            ;
        }
    } else {
        if a.negative == b.negative {
            if a.negative {
                assert(frac_eq(a, b) <==> a.numerator as int * b.denominator as int
                    == b.numerator as int * a.denominator as int) by (nonlinear_arith)
                    requires
                        a.num() == -(a.numerator as int),
                        b.num() == -(b.numerator as int),
                        a.den() == a.denominator as int,
                        b.den() == b.denominator as int,
                ;
            }
        } else {
            assert(!frac_eq(a, b)) by (nonlinear_arith)
                requires
                    a.negative != b.negative,
                    a.num() == if a.negative {
                        -(a.numerator as int)
                    } else {
                        a.numerator as int
                    },
                    b.num() == if b.negative {
                        -(b.numerator as int)
                    } else {
                        b.numerator as int
                    },
                    a.numerator >= 1,
                    b.numerator >= 1,
                    a.den() >= 1,
                    b.den() >= 1,
                    a.den() == a.denominator as int,
                    b.den() == b.denominator as int,
            ;
        }
    }
}

/// The full product of two unsigned words, computed exactly in the wide type.
fn mul_u64_wide(a: u64, b: u64) -> (r: u128)
    ensures
        r as int == a as int * b as int,
{
    proof {
        assert(a as int * b as int <= u64::MAX as int * u64::MAX as int) by (nonlinear_arith)
            requires
                a <= u64::MAX,
                b <= u64::MAX,
        ;
    }
    a as u128 * b as u128
}

impl Fraction {
    /// The sign of the fraction: -1, 0 or 1.
    pub fn sign(&self) -> (r: isize)
        ensures
            (r == 0isize <==> self.num() == 0),
            (r == -1isize <==> self.num() < 0),
            (r == 1isize <==> self.num() > 0),
    {
        if self.numerator == 0 {
            0
        } else if self.negative {
            -1
        } else {
            1
        }
    }

    /// Whether the fraction is exactly zero.
    pub fn is_zero(&self) -> (r: bool)
        ensures
            r == (self.num() == 0),
    {
        self.numerator == 0
    }

    /// Whether the fraction is exactly one.
    pub fn is_one(&self) -> (r: bool)
        requires
            self.wf(),
        ensures
            r == (self.num() == self.den()),
    {
        !self.negative && self.numerator == self.denominator
    }

    /// Whether the sign flag is set (true only for strictly negative values
    /// of well-formed fractions).
    pub fn is_negative(&self) -> (r: bool)
        ensures
            r == self.negative,
    {
        self.negative
    }

    /// Swap numerator and denominator in place, keeping the sign; the zero
    /// fraction is left unchanged.
    pub fn swap(&mut self)
        requires
            old(self).wf(),
        ensures
            final (self).wf(),
            old(self).numerator == 0 ==> *final (self) == *old(self),
            old(self).numerator != 0 ==> *final (self) == recip(*old(self)),
    {
        if self.numerator != 0 {
            proof {
                lemma_gcd_comm(self.numerator as nat, self.denominator as nat);
            }
            let t = self.numerator;
            self.numerator = self.denominator;
            self.denominator = t;
        }
    }

    /// The sign-preserving reciprocal; the zero fraction is returned
    /// unchanged.
    pub fn swapped(&self) -> (r: Fraction)
        requires
            self.wf(),
        ensures
            r.wf(),
            self.numerator == 0 ==> r == *self,
            self.numerator != 0 ==> r == recip(*self),
    {
        let mut new = *self;
        new.swap();
        new
    }

    /// Reduce in place to the canonical lowest-terms form.
    pub fn reduce(&mut self)
        requires
            old(self).denominator >= 1,
        ensures
            *final (self) == norm_frac(old(self).num(), old(self).den()),
            final (self).wf(),
    {
        proof {
            lemma_norm_frac(old(self).num(), old(self).den());
            assert(abs(old(self).num()) == old(self).numerator as nat);
        }
        let r = normalize_parts(self.negative, self.numerator as u128, self.denominator as u128);
        if let Ok(f) = r {
            *self = f;
        } else {
            proof {
                assert(false);
            }
        }
    }

    /// The canonical lowest-terms form of this fraction.
    pub fn reduced(&self) -> (r: Fraction)
        requires
            self.denominator >= 1,
        ensures
            r == norm_frac(self.num(), self.den()),
            r.wf(),
    {
        let mut new = *self;
        new.reduce();
        new
    }

    /// The absolute value.
    pub fn abs(&self) -> (r: Fraction)
        requires
            self.wf(),
        ensures
            r.wf(),
            r.num() == abs(self.num()),
            r.den() == self.den(),
    {
        Fraction { negative: false, numerator: self.numerator, denominator: self.denominator }
    }

    /// The negation; exact, never fails.
    pub fn neg(&self) -> (r: Fraction)
        requires
            self.wf(),
        ensures
            r.wf(),
            r.num() == -self.num(),
            r.den() == self.den(),
    {
        if self.numerator == 0 {
            *self
        } else {
            Fraction {
                negative: !self.negative,
                numerator: self.numerator,
                denominator: self.denominator,
            }
        }
    }

    /// Exact addition by cross-multiplication, then reduction; reports
    /// overflow when the reduced result does not fit the fixed-width fields.
    pub fn plus(self, rhs: Fraction) -> (r: Result<Fraction, SolveError>)
        requires
            self.wf(),
            rhs.wf(),
        ensures
            (r is Ok <==> add_fits(self, rhs)),
            r matches Ok(f) ==> f == frac_add(self, rhs) && f.wf(),
            r matches Err(e) ==> e == SolveError::ArithmeticOverflow,
    {
        let t1 = mul_u64_wide(self.numerator, rhs.denominator);
        let t2 = mul_u64_wide(rhs.numerator, self.denominator);
        let d = mul_u64_wide(self.denominator, rhs.denominator);
        proof {
            assert(d >= 1) by (nonlinear_arith)
                requires
                    d as int == self.denominator as int * rhs.denominator as int,
                    self.denominator >= 1,
                    rhs.denominator >= 1,
            ;
            assert(self.num() * rhs.den() == if self.negative {
                -(t1 as int)
            } else {
                t1 as int
            }) by (nonlinear_arith)
                requires
                    t1 as int == self.numerator as int * rhs.denominator as int,
                    self.num() == if self.negative {
                        -(self.numerator as int)
                    } else {
                        self.numerator as int
                    },
                    rhs.den() == rhs.denominator as int,
            ;
            assert(rhs.num() * self.den() == if rhs.negative {
                -(t2 as int)
            } else {
                t2 as int
            }) by (nonlinear_arith)
                requires
                    t2 as int == rhs.numerator as int * self.denominator as int,
                    rhs.num() == if rhs.negative {
                        -(rhs.numerator as int)
                    } else {
                        rhs.numerator as int
                    },
                    self.den() == self.denominator as int,
            ;
        }
        if self.negative == rhs.negative {
            proof {
                assert(abs(add_n(self, rhs)) == t1 as int + t2 as int);
            }
            if t1 > u128::MAX - t2 {
                return Err(SolveError::ArithmeticOverflow);
            }
            let n = t1 + t2;
            normalize_parts(self.negative, n, d)
        } else if t1 >= t2 {
            proof {
                assert(abs(add_n(self, rhs)) == t1 - t2);
            }
            normalize_parts(self.negative, t1 - t2, d)
        } else {
            proof {
                assert(abs(add_n(self, rhs)) == t2 - t1);
            }
            normalize_parts(rhs.negative, t2 - t1, d)
        }
    }

    /// Exact subtraction: addition of the negation.
    pub fn minus(self, rhs: Fraction) -> (r: Result<Fraction, SolveError>)
        requires
            self.wf(),
            rhs.wf(),
        ensures
            (r is Ok <==> sub_fits(self, rhs)),
            r matches Ok(f) ==> f == frac_sub(self, rhs) && f.wf(),
            r matches Err(e) ==> e == SolveError::ArithmeticOverflow,
    {
        let n = rhs.neg();
        proof {
            assert(add_n(self, n) == sub_n(self, rhs) && mul_d(self, n) == mul_d(self, rhs))
                by (nonlinear_arith)
                requires
                    n.num() == -rhs.num(),
                    n.den() == rhs.den(),
            ;
        }
        self.plus(n)
    }

    /// Exact multiplication, then reduction.
    pub fn times(self, rhs: Fraction) -> (r: Result<Fraction, SolveError>)
        requires
            self.wf(),
            rhs.wf(),
        ensures
            (r is Ok <==> mul_fits(self, rhs)),
            r matches Ok(f) ==> f == frac_mul(self, rhs) && f.wf(),
            r matches Err(e) ==> e == SolveError::ArithmeticOverflow,
    {
        let n = mul_u64_wide(self.numerator, rhs.numerator);
        let d = mul_u64_wide(self.denominator, rhs.denominator);
        let neg = self.negative != rhs.negative;
        proof {
            assert(d >= 1) by (nonlinear_arith)
                requires
                    d as int == self.denominator as int * rhs.denominator as int,
                    self.denominator >= 1,
                    rhs.denominator >= 1,
            ;
            assert(mul_n(self, rhs) == if neg {
                -(n as int)
            } else {
                n as int
            } || n == 0 && mul_n(self, rhs) == 0) by (nonlinear_arith)
                requires
                    n as int == self.numerator as int * rhs.numerator as int,
                    neg == (self.negative != rhs.negative),
                    self.num() == if self.negative {
                        -(self.numerator as int)
                    } else {
                        self.numerator as int
                    },
                    rhs.num() == if rhs.negative {
                        -(rhs.numerator as int)
                    } else {
                        rhs.numerator as int
                    },
            ;
        }
        normalize_parts(neg, n, d)
    }

    /// Exact division: multiplication by the sign-preserving reciprocal.
    /// Dividing by the zero fraction is a reported error.
    pub fn div_by(self, rhs: Fraction) -> (r: Result<Fraction, SolveError>)
        requires
            self.wf(),
            rhs.wf(),
        ensures
            rhs.num() == 0 ==> (r matches Err(e) && e == SolveError::DivisionByZero),
            rhs.num() != 0 ==> {
                &&& (r is Ok <==> div_fits(self, rhs))
                &&& (r matches Ok(f) ==> f == frac_div(self, rhs) && f.wf())
                &&& (r matches Err(e) ==> e == SolveError::ArithmeticOverflow)
            },
    {
        if rhs.numerator == 0 {
            Err(SolveError::DivisionByZero)
        } else {
            self.times(rhs.swapped())
        }
    }
}

impl PartialEq for Fraction {
    fn eq(&self, other: &Fraction) -> (r: bool) {
        if self.numerator == 0 && other.numerator == 0 {
            true
        } else if self.negative != other.negative {
            false
        } else {
            mul_u64_wide(self.numerator, other.denominator) == mul_u64_wide(
                other.numerator,
                self.denominator,
            )
        }
    }
}

impl vstd::std_specs::cmp::PartialEqSpecImpl for Fraction {
    open spec fn obeys_eq_spec() -> bool {
        true
    }

    open spec fn eq_spec(&self, other: &Fraction) -> bool {
        frac_eq_exec(*self, *other)
    }
}

/// Law: a fraction plus its negation is exactly zero.
pub proof fn lemma_add_neg_is_zero(a: Fraction, n: Fraction)
    requires
        a.wf(),
        n.wf(),
        n.num() == -a.num(),
        n.den() == a.den(),
    ensures
        add_fits(a, n),
        frac_add(a, n).num() == 0,
{
    assert(add_n(a, n) == 0) by (nonlinear_arith)
        requires
            n.num() == -a.num(),
            n.den() == a.den(),
    ;
    assert(mul_d(a, n) >= 1) by (nonlinear_arith)
        requires
            a.den() >= 1,
            n.den() >= 1,
    ;
    lemma_norm_frac(0, mul_d(a, n));
    assert(norm_num(0, mul_d(a, n)) == 0 && norm_den(0, mul_d(a, n)) == 1);
}

/// Law: reduction is idempotent — the canonical form is its own canonical
/// form.
pub proof fn lemma_reduce_idempotent(n: int, d: int)
    requires
        d >= 1,
        fits(n, d),
    ensures
        norm_frac(norm_frac(n, d).num(), norm_frac(n, d).den()) == norm_frac(n, d),
{
    lemma_norm_frac(n, d);
    lemma_norm_fixed(norm_frac(n, d));
}

/// Multiplying by `u` and then by `v`, where `u * v` is exactly one, yields a
/// value equal to the starting one.  The equalities over `w` and `z` are the
/// value statements of the two canonical products.
proof fn lemma_mul_mul_cancel(x: Fraction, u: Fraction, w: Fraction, v: Fraction, z: Fraction)
    requires
        x.den() >= 1,
        u.den() >= 1,
        v.den() >= 1,
        w.den() >= 1,
        z.den() >= 1,
        u.num() * v.num() == u.den() * v.den(),
        w.num() * (x.den() * u.den()) == (x.num() * u.num()) * w.den(),
        z.num() * (w.den() * v.den()) == (w.num() * v.num()) * z.den(),
    ensures
        frac_eq(z, x),
{
    let k = w.den() * v.den() * u.den();
    assert(z.num() * (w.den() * v.den()) * (x.den() * u.den()) == ((w.num() * v.num()) * z.den())
        * (x.den() * u.den())) by (nonlinear_arith)
        requires
            z.num() * (w.den() * v.den()) == (w.num() * v.num()) * z.den(),
    ;
    assert(((w.num() * v.num()) * z.den()) * (x.den() * u.den()) == ((x.num() * u.num()) * w.den())
        * (v.num() * z.den())) by (nonlinear_arith)
        requires
            w.num() * (x.den() * u.den()) == (x.num() * u.num()) * w.den(),
    ;
    assert(((x.num() * u.num()) * w.den()) * (v.num() * z.den()) == (x.num() * z.den()) * ((u.den()
        * v.den()) * w.den())) by (nonlinear_arith)
        requires
            u.num() * v.num() == u.den() * v.den(),
    ;
    assert(z.num() * (w.den() * v.den()) * (x.den() * u.den()) == z.num() * x.den() * k
        && (x.num() * z.den()) * ((u.den() * v.den()) * w.den()) == x.num() * z.den() * k)
        by (nonlinear_arith)
        requires
            k == w.den() * v.den() * u.den(),
    ;
    assert(k >= 1) by (nonlinear_arith)
        requires
            u.den() >= 1,
            v.den() >= 1,
            w.den() >= 1,
            k == w.den() * v.den() * u.den(),
    ;
    assert(z.num() * x.den() == x.num() * z.den()) by (nonlinear_arith)
        requires
            z.num() * x.den() * k == x.num() * z.den() * k,
            k >= 1,
    ;
}

/// Law: dividing by a non-zero fraction and multiplying by it again yields a
/// value exactly equal to the original (whenever both reduced intermediates
/// fit the fixed-width fields).
pub proof fn lemma_div_then_mul(a: Fraction, b: Fraction)
    requires
        a.wf(),
        b.wf(),
        b.num() != 0,
        div_fits(a, b),
        mul_fits(frac_div(a, b), b),
    ensures
        frac_eq(frac_mul(frac_div(a, b), b), a),
{
    let u = recip(b);
    let q = frac_div(a, b);
    let p = frac_mul(q, b);
    assert(u.den() == b.numerator as int && u.den() >= 1);
    assert(u.num() * b.num() == u.den() * b.den()) by (nonlinear_arith)
        requires
            u.num() == if b.negative {
                -(b.denominator as int)
            } else {
                b.denominator as int
            },
            u.den() == b.numerator as int,
            b.num() == if b.negative {
                -(b.numerator as int)
            } else {
                b.numerator as int
            },
            b.den() == b.denominator as int,
    ;
    assert(mul_d(a, u) >= 1) by (nonlinear_arith)
        requires
            a.den() >= 1,
            u.den() >= 1,
    ;
    lemma_norm_frac(mul_n(a, u), mul_d(a, u));
    assert(q.den() >= 1);
    assert(mul_d(q, b) >= 1) by (nonlinear_arith)
        requires
            q.den() >= 1,
            b.den() >= 1,
    ;
    lemma_norm_frac(mul_n(q, b), mul_d(q, b));
    lemma_mul_mul_cancel(a, u, q, b, p);
}

/// Law: multiplying by a non-zero fraction and dividing by it again yields a
/// value exactly equal to the original (whenever both reduced intermediates
/// fit the fixed-width fields).
pub proof fn lemma_mul_then_div(a: Fraction, f: Fraction)
    requires
        a.wf(),
        f.wf(),
        f.num() != 0,
        mul_fits(a, f),
        div_fits(frac_mul(a, f), f),
    ensures
        frac_eq(frac_div(frac_mul(a, f), f), a),
{
    let v = recip(f);
    let w = frac_mul(a, f);
    let z = frac_div(w, f);
    assert(v.den() == f.numerator as int && v.den() >= 1);
    assert(f.num() * v.num() == f.den() * v.den()) by (nonlinear_arith)
        requires
            v.num() == if f.negative {
                -(f.denominator as int)
            } else {
                f.denominator as int
            },
            v.den() == f.numerator as int,
            f.num() == if f.negative {
                -(f.numerator as int)
            } else {
                f.numerator as int
            },
            f.den() == f.denominator as int,
    ;
    assert(mul_d(a, f) >= 1) by (nonlinear_arith)
        requires
            a.den() >= 1,
            f.den() >= 1,
    ;
    lemma_norm_frac(mul_n(a, f), mul_d(a, f));
    assert(w.den() >= 1);
    assert(mul_d(w, v) >= 1) by (nonlinear_arith)
        requires
            w.den() >= 1,
            v.den() >= 1,
    ;
    lemma_norm_frac(mul_n(w, v), mul_d(w, v));
    lemma_mul_mul_cancel(a, f, w, v, z);
}

} // verus!
