//! Complex numbers over exact rationals.
//!
//! The value type mirrors the arithmetic the spectral engine needs:
//! componentwise sum, the standard complex product, scaling by a rational,
//! and the modulus.  The modulus of a number with an irrational magnitude is
//! returned as the floor of the true value at a fixed denominator
//! [`MAG_DEN`]; on the real or imaginary axis it is exact, which is what the
//! spectrum's DC bin relies on.

use crate::rational::{
    rat_abs, rat_add, rat_eq, rat_fits, rat_mul, rat_sub, rat_wf, rat_zero, Rat, Rational,
};
use vstd::prelude::*;

verus! {

/// Specification-level complex number.
pub ghost struct Cplx {
    pub re: Rat,
    pub im: Rat,
}

pub open spec fn cplx_zero() -> Cplx {
    Cplx { re: rat_zero(), im: rat_zero() }
}

/// Componentwise sum.
pub open spec fn cplx_add(a: Cplx, b: Cplx) -> Cplx {
    Cplx { re: rat_add(a.re, b.re), im: rat_add(a.im, b.im) }
}

pub open spec fn cplx_add_fits(a: Cplx, b: Cplx) -> bool {
    rat_fits(rat_add(a.re, b.re)) && rat_fits(rat_add(a.im, b.im))
}

/// A scalar added to the real part only.
pub open spec fn cplx_add_real(a: Cplx, s: Rat) -> Cplx {
    Cplx { re: rat_add(a.re, s), im: a.im }
}

/// The standard complex product `(ac - bd, ad + bc)`.
pub open spec fn cplx_mul(a: Cplx, b: Cplx) -> Cplx {
    Cplx {
        re: rat_sub(rat_mul(a.re, b.re), rat_mul(a.im, b.im)),
        im: rat_add(rat_mul(a.re, b.im), rat_mul(a.im, b.re)),
    }
}

/// Every intermediate of the product representation stays in 64 bits.
pub open spec fn cplx_mul_fits(a: Cplx, b: Cplx) -> bool {
    &&& rat_fits(rat_mul(a.re, b.re))
    &&& rat_fits(rat_mul(a.im, b.im))
    &&& rat_fits(rat_sub(rat_mul(a.re, b.re), rat_mul(a.im, b.im)))
    &&& rat_fits(rat_mul(a.re, b.im))
    &&& rat_fits(rat_mul(a.im, b.re))
    &&& rat_fits(rat_add(rat_mul(a.re, b.im), rat_mul(a.im, b.re)))
}

/// Both components scaled by a rational.
pub open spec fn cplx_scale(a: Cplx, s: Rat) -> Cplx {
    Cplx { re: rat_mul(a.re, s), im: rat_mul(a.im, s) }
}

pub open spec fn cplx_scale_fits(a: Cplx, s: Rat) -> bool {
    rat_fits(rat_mul(a.re, s)) && rat_fits(rat_mul(a.im, s))
}

/// Denominator at which an irrational modulus is floored.
pub const MAG_DEN: i64 = 1048576;

/// Numerator of `q` scaled to denominator [`MAG_DEN`] and truncated toward
/// zero.
pub open spec fn mag_scaled_num(q: Rat) -> int {
    if q.n >= 0 {
        (q.n * 1048576) / q.d
    } else {
        -(((-q.n) * 1048576) / q.d)
    }
}

/// The scaled numerator is within one grid unit of the exact value:
/// `mag_scaled_num(q) / MAG_DEN` differs from `q` by less than `1 / MAG_DEN`
/// toward zero.
pub proof fn lemma_mag_scaled_num_bounds(q: Rat)
    requires
        rat_wf(q),
    ensures
        q.n >= 0 ==> q.d * mag_scaled_num(q) <= q.n * 1048576 < q.d * (mag_scaled_num(q) + 1),
        q.n < 0 ==> q.d * mag_scaled_num(q) >= q.n * 1048576 > q.d * (mag_scaled_num(q) - 1),
{
    if q.n >= 0 {
        let x = q.n * 1048576;
        vstd::arithmetic::div_mod::lemma_fundamental_div_mod(x, q.d);
        vstd::arithmetic::div_mod::lemma_mod_bound(x, q.d);
        assert(q.d * (mag_scaled_num(q) + 1) == q.d * (x / q.d) + q.d) by (nonlinear_arith)
            requires
                mag_scaled_num(q) == x / q.d,
        ;
    } else {
        let x = (-q.n) * 1048576;
        vstd::arithmetic::div_mod::lemma_fundamental_div_mod(x, q.d);
        vstd::arithmetic::div_mod::lemma_mod_bound(x, q.d);
        assert(q.d * (x / q.d) <= x < q.d * ((x / q.d) + 1)) by (nonlinear_arith)
            requires
                x == q.d * (x / q.d) + (x % q.d),
                0 <= x % q.d < q.d,
        ;
        assert(q.d * mag_scaled_num(q) == -(q.d * (x / q.d))) by (nonlinear_arith)
            requires
                mag_scaled_num(q) == -(x / q.d),
        ;
        assert(q.d * (mag_scaled_num(q) - 1) == -(q.d * ((x / q.d) + 1))) by (nonlinear_arith)
            requires
                mag_scaled_num(q) == -(x / q.d),
        ;
        assert(q.n * 1048576 == -x);
    }
}

/// What `module` returns.  On either axis the result is the exact absolute
/// value; elsewhere it is the floor, at denominator [`MAG_DEN`], of the
/// magnitude of the complex number rounded toward zero onto the
/// `1 / MAG_DEN` grid.  The two inequalities pin the numerator uniquely.
pub open spec fn module_spec(c: Cplx, m: Rat) -> bool {
    if rat_eq(c.im, rat_zero()) {
        m == rat_abs(c.re)
    } else if rat_eq(c.re, rat_zero()) {
        m == rat_abs(c.im)
    } else {
        let a = mag_scaled_num(c.re);
        let b = mag_scaled_num(c.im);
        &&& m.d == 1048576
        &&& m.n >= 0
        &&& m.n * m.n <= a * a + b * b
        &&& (m.n + 1) * (m.n + 1) > a * a + b * b
    }
}

/// When `module` succeeds.
pub open spec fn module_fits(c: Cplx) -> bool {
    if rat_eq(c.im, rat_zero()) {
        rat_fits(rat_abs(c.re))
    } else if rat_eq(c.re, rat_zero()) {
        rat_fits(rat_abs(c.im))
    } else {
        let a = mag_scaled_num(c.re);
        let b = mag_scaled_num(c.im);
        &&& -0x7FFF_FFFF_FFFF_FFFF <= a <= 0x7FFF_FFFF_FFFF_FFFF
        &&& -0x7FFF_FFFF_FFFF_FFFF <= b <= 0x7FFF_FFFF_FFFF_FFFF
        &&& a * a + b * b < 0x8000_0000_0000_0000 * 0x8000_0000_0000_0000
    }
}

/// The modulus as a specification-level value: the unique rational that
/// [`module_spec`] admits.
pub open spec fn module_val(c: Cplx) -> Rat {
    choose|m: Rat| module_spec(c, m)
}

/// [`module_spec`] pins its result down uniquely.
pub proof fn lemma_module_unique(c: Cplx, m1: Rat, m2: Rat)
    requires
        module_spec(c, m1),
        module_spec(c, m2),
    ensures
        m1 == m2,
{
    if !rat_eq(c.im, rat_zero()) && !rat_eq(c.re, rat_zero()) {
        let a = mag_scaled_num(c.re);
        let b = mag_scaled_num(c.im);
        let s = a * a + b * b;
        assert(m1.n == m2.n) by (nonlinear_arith)
            requires
                m1.n >= 0,
                m2.n >= 0,
                m1.n * m1.n <= s,
                (m1.n + 1) * (m1.n + 1) > s,
                m2.n * m2.n <= s,
                (m2.n + 1) * (m2.n + 1) > s,
        ;
    }
}

/// A witness for [`module_spec`] equals [`module_val`].
pub proof fn lemma_module_val(c: Cplx, m: Rat)
    requires
        module_spec(c, m),
    ensures
        module_val(c) == m,
{
    assert(module_spec(c, module_val(c))) by {
        assert(exists|x: Rat| module_spec(c, x));
    }
    lemma_module_unique(c, module_val(c), m);
}

/// Floor of the square root: `r * r <= s < (r + 1) * (r + 1)`.
fn isqrt_u128(s: u128) -> (r: u128)
    requires
        s < 0x8000_0000_0000_0000_0000_0000_0000_0000,
    ensures
        (r as int) * (r as int) <= s as int,
        ((r as int) + 1) * ((r as int) + 1) > s as int,
{
    let mut lo: u128 = 0;
    let mut hi: u128 = 0x1_0000_0000_0000_0000;
    proof {
        assert((0x1_0000_0000_0000_0000 as int) * (0x1_0000_0000_0000_0000 as int)
            > s as int);
    }
    while lo + 1 < hi
        invariant
            lo < hi <= 0x1_0000_0000_0000_0000,
            (lo * lo) as int <= s as int,
            (hi as int) * (hi as int) > s as int,
        decreases hi - lo,
    {
        let mid: u128 = lo + (hi - lo) / 2;
        proof {
            assert((mid * mid) as int <= 0xFFFF_FFFF_FFFF_FFFF * 0xFFFF_FFFF_FFFF_FFFF)
                by (nonlinear_arith)
                requires
                    mid <= 0xFFFF_FFFF_FFFF_FFFF,
            ;
        }
        if mid * mid <= s {
            lo = mid;
        } else {
            hi = mid;
        }
    }
    lo
}

/// Complex number with exact rational components.
#[derive(Clone, Copy, Debug)]
pub struct ComplexNumber {
    re: Rational,
    im: Rational,
}

impl View for ComplexNumber {
    type V = Cplx;

    closed spec fn view(&self) -> Cplx {
        Cplx { re: self.re@, im: self.im@ }
    }
}

impl PartialEq for ComplexNumber {
    /// Componentwise value equality.
    fn eq(&self, other: &ComplexNumber) -> (r: bool) {
        self.re == other.re && self.im == other.im
    }
}

impl vstd::std_specs::cmp::PartialEqSpecImpl for ComplexNumber {
    open spec fn obeys_eq_spec() -> bool {
        true
    }

    open spec fn eq_spec(&self, other: &ComplexNumber) -> bool {
        rat_eq(self@.re, other@.re) && rat_eq(self@.im, other@.im)
    }
}

impl Default for ComplexNumber {
    /// The origin, `0 + i0`.
    fn default() -> (r: ComplexNumber)
        ensures
            r@ == cplx_zero(),
    {
        ComplexNumber { re: Rational::zero(), im: Rational::zero() }
    }
}

impl ComplexNumber {
    pub fn new(re: Rational, im: Rational) -> (r: ComplexNumber)
        ensures
            r@ == (Cplx { re: re@, im: im@ }),
    {
        ComplexNumber { re, im }
    }

    pub fn re(&self) -> (r: Rational)
        ensures
            r@ == self@.re,
    {
        self.re
    }

    pub fn im(&self) -> (r: Rational)
        ensures
            r@ == self@.im,
    {
        self.im
    }

    /// Componentwise sum, or `None` when a component leaves 64 bits.
    pub fn checked_add(&self, other: &ComplexNumber) -> (r: Option<ComplexNumber>)
        ensures
            r is Some <==> cplx_add_fits(self@, other@),
            r is Some ==> r.unwrap()@ == cplx_add(self@, other@),
    {
        let re = match self.re.checked_add(&other.re) {
            Some(v) => v,
            None => {
                return None;
            },
        };
        let im = match self.im.checked_add(&other.im) {
            Some(v) => v,
            None => {
                return None;
            },
        };
        Some(ComplexNumber { re, im })
    }

    /// A scalar added to the real part only.
    pub fn checked_add_real(&self, s: &Rational) -> (r: Option<ComplexNumber>)
        ensures
            r is Some <==> rat_fits(rat_add(self@.re, s@)),
            r is Some ==> r.unwrap()@ == cplx_add_real(self@, s@),
    {
        let re = match self.re.checked_add(s) {
            Some(v) => v,
            None => {
                return None;
            },
        };
        Some(ComplexNumber { re, im: self.im })
    }

    /// The standard complex product.
    pub fn checked_mul(&self, other: &ComplexNumber) -> (r: Option<ComplexNumber>)
        ensures
            r is Some <==> cplx_mul_fits(self@, other@),
            r is Some ==> r.unwrap()@ == cplx_mul(self@, other@),
    {
        let acbd = match self.re.checked_mul(&other.re) {
            Some(v) => v,
            None => {
                return None;
            },
        };
        let bd = match self.im.checked_mul(&other.im) {
            Some(v) => v,
            None => {
                return None;
            },
        };
        let re = match acbd.checked_sub(&bd) {
            Some(v) => v,
            None => {
                return None;
            },
        };
        let ad = match self.re.checked_mul(&other.im) {
            Some(v) => v,
            None => {
                return None;
            },
        };
        let bc = match self.im.checked_mul(&other.re) {
            Some(v) => v,
            None => {
                return None;
            },
        };
        let im = match ad.checked_add(&bc) {
            Some(v) => v,
            None => {
                return None;
            },
        };
        Some(ComplexNumber { re, im })
    }

    /// Both components scaled by a rational.
    pub fn checked_scale(&self, s: &Rational) -> (r: Option<ComplexNumber>)
        ensures
            r is Some <==> cplx_scale_fits(self@, s@),
            r is Some ==> r.unwrap()@ == cplx_scale(self@, s@),
    {
        let re = match self.re.checked_mul(s) {
            Some(v) => v,
            None => {
                return None;
            },
        };
        let im = match self.im.checked_mul(s) {
            Some(v) => v,
            None => {
                return None;
            },
        };
        Some(ComplexNumber { re, im })
    }

    /// The modulus `sqrt(re^2 + im^2)`: exact on either axis, floored at
    /// denominator [`MAG_DEN`] elsewhere.
    pub fn module(&self) -> (r: Option<Rational>)
        ensures
            r is Some <==> module_fits(self@),
            r is Some ==> module_spec(self@, r.unwrap()@),
    {
        if self.im.is_zero() {
            return self.re.checked_abs();
        }
        if self.re.is_zero() {
            return self.im.checked_abs();
        }
        let (a_abs, a_ok) = Self::scaled_abs_num(&self.re);
        let (b_abs, b_ok) = Self::scaled_abs_num(&self.im);
        if !a_ok || !b_ok {
            return None;
        }
        proof {
            assert(a_abs * a_abs <= (0x7FFF_FFFF_FFFF_FFFF * 0x7FFF_FFFF_FFFF_FFFF))
                by (nonlinear_arith)
                requires
                    a_abs <= 0x7FFF_FFFF_FFFF_FFFF,
            ;
            assert(b_abs * b_abs <= (0x7FFF_FFFF_FFFF_FFFF * 0x7FFF_FFFF_FFFF_FFFF))
                by (nonlinear_arith)
                requires
                    b_abs <= 0x7FFF_FFFF_FFFF_FFFF,
            ;
            assert((-(mag_scaled_num(self@.re))) * (-(mag_scaled_num(self@.re)))
                == mag_scaled_num(self@.re) * mag_scaled_num(self@.re)) by (nonlinear_arith);
            assert((-(mag_scaled_num(self@.im))) * (-(mag_scaled_num(self@.im)))
                == mag_scaled_num(self@.im) * mag_scaled_num(self@.im)) by (nonlinear_arith);
        }
        let s: u128 = a_abs * a_abs + b_abs * b_abs;
        let q: u128 = isqrt_u128(s);
        if q <= 0x7FFF_FFFF_FFFF_FFFF {
            proof {
                assert((s as int) < (0x8000_0000_0000_0000 * 0x8000_0000_0000_0000))
                    by (nonlinear_arith)
                    requires
                        q as int <= 0x7FFF_FFFF_FFFF_FFFF,
                        ((q as int) + 1) * ((q as int) + 1) > s as int,
                ;
            }
            Some(Rational::new(q as i64, MAG_DEN))
        } else {
            proof {
                assert((s as int) >= (0x8000_0000_0000_0000 * 0x8000_0000_0000_0000))
                    by (nonlinear_arith)
                    requires
                        q as int > 0x7FFF_FFFF_FFFF_FFFF,
                        (q as int) * (q as int) <= s as int,
                ;
            }
            None
        }
    }

    /// Helper for `module`: `|q|` scaled to denominator [`MAG_DEN`] and
    /// truncated; the flag says whether it stayed within `i64::MAX`.
    fn scaled_abs_num(q: &Rational) -> (r: (u128, bool))
        ensures
            r.1 <==> -0x7FFF_FFFF_FFFF_FFFF <= mag_scaled_num(q@) <= 0x7FFF_FFFF_FFFF_FFFF,
            r.1 ==> r.0 as int == if mag_scaled_num(q@) >= 0 {
                mag_scaled_num(q@)
            } else {
                -mag_scaled_num(q@)
            },
    {
        let n: i64 = q.num();
        let d: i64 = q.den();
        let n_abs: u128 = if n < 0 {
            (-(n as i128)) as u128
        } else {
            n as u128
        };
        let scaled: u128 = n_abs * 1048576;
        let quot: u128 = scaled / (d as u128);
        if quot <= 0x7FFF_FFFF_FFFF_FFFF {
            (quot, true)
        } else {
            (quot, false)
        }
    }
}

} // verus!
