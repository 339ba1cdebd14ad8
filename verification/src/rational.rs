//! Exact rational arithmetic.
//!
//! Every sample value and timestamp in this library is an exact rational
//! number: a 64-bit numerator over a positive 64-bit denominator.  The
//! specification-level mirror of that representation is [`Rat`], a pair of
//! unbounded integers, over which all contracts in this crate are stated.
//! Representations are not reduced; two values are the same rational number
//! exactly when [`rat_eq`] holds.
//!
//! Executable operations compute the exact result in 128 bits and report
//! `None` when a component does not fit back into 64 bits, so they are total
//! and never panic.

use vstd::prelude::*;

verus! {

/// Unbounded rational representation used by specifications: a numerator and
/// a (positive, see [`rat_wf`]) denominator.
pub ghost struct Rat {
    pub n: int,
    pub d: int,
}

/// A well-formed representation keeps its denominator positive.
pub open spec fn rat_wf(a: Rat) -> bool {
    a.d > 0
}

/// `a` and `b` represent the same rational number (cross multiplication).
pub open spec fn rat_eq(a: Rat, b: Rat) -> bool {
    a.n * b.d == b.n * a.d
}

/// `a < b` as rational numbers (meaningful for well-formed operands).
pub open spec fn rat_lt(a: Rat, b: Rat) -> bool {
    a.n * b.d < b.n * a.d
}

/// `a <= b` as rational numbers (meaningful for well-formed operands).
pub open spec fn rat_le(a: Rat, b: Rat) -> bool {
    a.n * b.d <= b.n * a.d
}

/// Exact sum.  A common denominator is kept as it is, so that long
/// summations (the spectral accumulations) do not blow the denominator up.
pub open spec fn rat_add(a: Rat, b: Rat) -> Rat {
    if a.d == b.d {
        Rat { n: a.n + b.n, d: a.d }
    } else {
        Rat { n: a.n * b.d + b.n * a.d, d: a.d * b.d }
    }
}

/// Exact difference, with the same common-denominator rule as [`rat_add`].
pub open spec fn rat_sub(a: Rat, b: Rat) -> Rat {
    if a.d == b.d {
        Rat { n: a.n - b.n, d: a.d }
    } else {
        Rat { n: a.n * b.d - b.n * a.d, d: a.d * b.d }
    }
}

/// Exact product.
pub open spec fn rat_mul(a: Rat, b: Rat) -> Rat {
    Rat { n: a.n * b.n, d: a.d * b.d }
}

/// Exact quotient; the divisor's sign moves into the numerator so that a
/// well-formed dividend and a nonzero divisor give a well-formed result.
pub open spec fn rat_div(a: Rat, b: Rat) -> Rat {
    if b.n < 0 {
        Rat { n: -(a.n * b.d), d: a.d * -b.n }
    } else {
        Rat { n: a.n * b.d, d: a.d * b.n }
    }
}

pub open spec fn rat_neg(a: Rat) -> Rat {
    Rat { n: -a.n, d: a.d }
}

pub open spec fn rat_abs(a: Rat) -> Rat {
    if a.n < 0 {
        rat_neg(a)
    } else {
        a
    }
}

pub open spec fn rat_zero() -> Rat {
    Rat { n: 0, d: 1 }
}

pub open spec fn rat_one() -> Rat {
    Rat { n: 1, d: 1 }
}

pub open spec fn i64_fits(x: int) -> bool {
    i64::MIN <= x <= i64::MAX
}

/// Both components of an exact result fit the 64-bit representation.
pub open spec fn rat_fits(a: Rat) -> bool {
    i64_fits(a.n) && i64_fits(a.d)
}

/// What the constructor builds: the denominator's sign is normalised away.
pub open spec fn mk_rat(n: int, d: int) -> Rat {
    if d < 0 {
        Rat { n: -n, d: -d }
    } else {
        Rat { n: n, d: d }
    }
}

/// A product of two 64-bit factors stays within 128 bits.
pub proof fn lemma_i64_prod_in_i128(a: int, b: int)
    by (nonlinear_arith)
    requires
        -0x8000_0000_0000_0000 <= a <= 0x7FFF_FFFF_FFFF_FFFF,
        -0x8000_0000_0000_0000 <= b <= 0x7FFF_FFFF_FFFF_FFFF,
    ensures
        -0x3FFF_FFFF_FFFF_FFFF_8000_0000_0000_0000 <= a * b,
        a * b <= 0x4000_0000_0000_0000_0000_0000_0000_0000,
{
}

/// A product of a 64-bit factor and a positive 64-bit factor stays far enough
/// inside 128 bits that two such products can still be added.
pub proof fn lemma_i64_prod_pos_in_i128(a: int, b: int)
    by (nonlinear_arith)
    requires
        -0x8000_0000_0000_0000 <= a <= 0x7FFF_FFFF_FFFF_FFFF,
        0 < b <= 0x7FFF_FFFF_FFFF_FFFF,
    ensures
        -0x3FFF_FFFF_FFFF_FFFF_8000_0000_0000_0000 <= a * b,
        a * b <= 0x3FFF_FFFF_FFFF_FFFF_0000_0000_0000_0001,
{
}

/// A product of two positive factors is positive.
pub proof fn lemma_pos_prod(a: int, b: int)
    by (nonlinear_arith)
    requires
        a > 0,
        b > 0,
    ensures
        a * b > 0,
{
}

/// Strict order composes across representations of the same number.
pub proof fn lemma_rat_lt_trans(a: Rat, b: Rat, c: Rat)
    by (nonlinear_arith)
    requires
        rat_wf(a),
        rat_wf(b),
        rat_wf(c),
        rat_lt(a, b),
        rat_lt(b, c),
    ensures
        rat_lt(a, c),
{
}

/// Replacing the left operand of `<` by an equal rational keeps it.
pub proof fn lemma_rat_eq_lt_trans(a: Rat, b: Rat, c: Rat)
    by (nonlinear_arith)
    requires
        rat_wf(a),
        rat_wf(b),
        rat_wf(c),
        rat_eq(a, b),
        rat_lt(b, c),
    ensures
        rat_lt(a, c),
{
}

/// A strictly smaller rational leaves a positive difference.
pub proof fn lemma_rat_lt_sub_pos(a: Rat, b: Rat)
    by (nonlinear_arith)
    requires
        rat_wf(a),
        rat_wf(b),
        rat_lt(a, b),
    ensures
        rat_sub(b, a).n > 0,
        rat_sub(b, a).d > 0,
{
}

/// Adding a positive rational strictly increases a value.
pub proof fn lemma_rat_add_pos_increases(a: Rat, b: Rat)
    by (nonlinear_arith)
    requires
        rat_wf(a),
        rat_wf(b),
        b.n > 0,
    ensures
        rat_lt(a, rat_add(a, b)),
{
}

/// Value equality is transitive across well-formed representations.
pub proof fn lemma_rat_eq_trans(a: Rat, b: Rat, c: Rat)
    by (nonlinear_arith)
    requires
        rat_wf(a),
        rat_wf(b),
        rat_wf(c),
        rat_eq(a, b),
        rat_eq(b, c),
    ensures
        rat_eq(a, c),
{
}

/// The sum equals the cross-multiplied form, whichever representation the
/// common-denominator rule picked.
pub proof fn lemma_rat_add_char(a: Rat, b: Rat)
    requires
        rat_wf(a),
        rat_wf(b),
    ensures
        rat_eq(rat_add(a, b), Rat { n: a.n * b.d + b.n * a.d, d: a.d * b.d }),
        rat_wf(rat_add(a, b)),
        rat_wf(Rat { n: a.n * b.d + b.n * a.d, d: a.d * b.d }),
{
    lemma_pos_prod(a.d, b.d);
    if a.d == b.d {
        assert((a.n + b.n) * (a.d * b.d) == (a.n * b.d + b.n * a.d) * a.d) by (nonlinear_arith)
            requires
                a.d == b.d,
        ;
    }
}

/// The difference equals the cross-multiplied form, whichever representation
/// the common-denominator rule picked.
pub proof fn lemma_rat_sub_char(a: Rat, b: Rat)
    requires
        rat_wf(a),
        rat_wf(b),
    ensures
        rat_eq(rat_sub(a, b), Rat { n: a.n * b.d - b.n * a.d, d: a.d * b.d }),
        rat_wf(rat_sub(a, b)),
        rat_wf(Rat { n: a.n * b.d - b.n * a.d, d: a.d * b.d }),
{
    lemma_pos_prod(a.d, b.d);
    if a.d == b.d {
        assert((a.n - b.n) * (a.d * b.d) == (a.n * b.d - b.n * a.d) * a.d) by (nonlinear_arith)
            requires
                a.d == b.d,
        ;
    }
}

/// Core ring identity behind [`lemma_rat_add_congruence`].
#[verifier::rlimit(100)]
proof fn lemma_rat_cross_mul_congruence(mn: int, md: int, xn: int, xd: int, yn: int, yd: int)
    by (nonlinear_arith)
    requires
        xn * yd == yn * xd,
    ensures
        (mn * xd + xn * md) * (md * yd) == (mn * yd + yn * md) * (md * xd),
{
}

/// Addition respects value equality in its right operand.
pub proof fn lemma_rat_add_congruence(m: Rat, x: Rat, y: Rat)
    requires
        rat_wf(m),
        rat_wf(x),
        rat_wf(y),
        rat_eq(x, y),
    ensures
        rat_eq(rat_add(m, x), rat_add(m, y)),
{
    lemma_rat_add_char(m, x);
    lemma_rat_add_char(m, y);
    let gx = Rat { n: m.n * x.d + x.n * m.d, d: m.d * x.d };
    let gy = Rat { n: m.n * y.d + y.n * m.d, d: m.d * y.d };
    lemma_rat_cross_mul_congruence(m.n, m.d, x.n, x.d, y.n, y.d);
    assert(rat_eq(gx, gy));
    lemma_rat_eq_trans(rat_add(m, x), gx, gy);
    lemma_rat_eq_trans(rat_add(m, x), gy, rat_add(m, y));
}

/// Dividing by a nonzero rational and multiplying by it again gives the
/// value back.
pub proof fn lemma_rat_div_mul_cancel(a: Rat, b: Rat)
    requires
        rat_wf(a),
        rat_wf(b),
        b.n != 0,
    ensures
        rat_eq(rat_mul(rat_div(a, b), b), a),
        rat_wf(rat_div(a, b)),
{
    let d = rat_div(a, b);
    let m = rat_mul(d, b);
    if b.n < 0 {
        lemma_pos_prod(a.d, -b.n);
        assert(m.n * a.d == a.n * m.d) by (nonlinear_arith)
            requires
                m.n == -(a.n * b.d) * b.n,
                m.d == (a.d * -b.n) * b.d,
        ;
    } else {
        lemma_pos_prod(a.d, b.n);
        assert(m.n * a.d == a.n * m.d) by (nonlinear_arith)
            requires
                m.n == (a.n * b.d) * b.n,
                m.d == (a.d * b.n) * b.d,
        ;
    }
}

/// The sum representation is symmetric in its operands.
pub proof fn lemma_rat_add_comm(a: Rat, b: Rat)
    ensures
        rat_add(a, b) == rat_add(b, a),
{
    assert(a.d * b.d == b.d * a.d) by (nonlinear_arith);
}

/// Exact rational number: `num / den` with `den > 0`.
#[derive(Clone, Copy, Debug)]
pub struct Rational {
    num: i64,
    den: i64,
}

impl View for Rational {
    type V = Rat;

    closed spec fn view(&self) -> Rat {
        Rat { n: self.num as int, d: self.den as int }
    }
}

impl PartialEq for Rational {
    /// Value equality: `a/b == c/d` exactly when `a*d == c*b`.
    fn eq(&self, other: &Rational) -> (r: bool) {
        proof {
            lemma_i64_prod_in_i128(self.num as int, other.den as int);
            lemma_i64_prod_in_i128(other.num as int, self.den as int);
        }
        (self.num as i128) * (other.den as i128) == (other.num as i128) * (self.den as i128)
    }
}

impl vstd::std_specs::cmp::PartialEqSpecImpl for Rational {
    open spec fn obeys_eq_spec() -> bool {
        true
    }

    open spec fn eq_spec(&self, other: &Rational) -> bool {
        rat_eq(self@, other@)
    }
}

/// Does a 128-bit exact component fit back into 64 bits?
fn component_fits(x: i128) -> (r: bool)
    ensures
        r == i64_fits(x as int),
{
    i64::MIN as i128 <= x && x <= i64::MAX as i128
}

impl Rational {
    /// Type invariant: every reachable value is well formed.
    #[verifier::type_invariant]
    pub open spec fn inv(self) -> bool {
        rat_wf(self@)
    }

    /// Builds `num / den`.  The denominator must be nonzero; its sign is
    /// normalised into the numerator.
    pub fn new(num: i64, den: i64) -> (r: Rational)
        requires
            den != 0,
            num > i64::MIN,
            den > i64::MIN,
        ensures
            r@ == mk_rat(num as int, den as int),
    {
        if den < 0 {
            Rational { num: -num, den: -den }
        } else {
            Rational { num, den }
        }
    }

    /// The integer `n` as a rational.
    pub fn from_int(n: i64) -> (r: Rational)
        ensures
            r@ == (Rat { n: n as int, d: 1 }),
    {
        Rational { num: n, den: 1 }
    }

    pub fn zero() -> (r: Rational)
        ensures
            r@ == rat_zero(),
    {
        Rational { num: 0, den: 1 }
    }

    pub fn one() -> (r: Rational)
        ensures
            r@ == rat_one(),
    {
        Rational { num: 1, den: 1 }
    }

    pub fn num(&self) -> (r: i64)
        ensures
            r as int == self@.n,
    {
        self.num
    }

    pub fn den(&self) -> (r: i64)
        ensures
            r as int == self@.d,
            r > 0,
    {
        proof {
            use_type_invariant(self);
        }
        self.den
    }

    pub fn is_zero(&self) -> (r: bool)
        ensures
            r == rat_eq(self@, rat_zero()),
    {
        proof {
            use_type_invariant(self);
        }
        self.num == 0
    }

    /// Exact sum, or `None` when a component of it leaves the 64-bit range.
    pub fn checked_add(&self, other: &Rational) -> (r: Option<Rational>)
        ensures
            r is Some <==> rat_fits(rat_add(self@, other@)),
            r is Some ==> r.unwrap()@ == rat_add(self@, other@),
    {
        proof {
            use_type_invariant(self);
            use_type_invariant(other);
            lemma_i64_prod_pos_in_i128(self.num as int, other.den as int);
            lemma_i64_prod_pos_in_i128(other.num as int, self.den as int);
            lemma_i64_prod_pos_in_i128(self.den as int, other.den as int);
            lemma_pos_prod(self.den as int, other.den as int);
        }
        if self.den == other.den {
            let n: i128 = self.num as i128 + other.num as i128;
            if component_fits(n) {
                Some(Rational { num: n as i64, den: self.den })
            } else {
                None
            }
        } else {
            let n: i128 = (self.num as i128) * (other.den as i128) + (other.num as i128)
                * (self.den as i128);
            let d: i128 = (self.den as i128) * (other.den as i128);
            if component_fits(n) && component_fits(d) {
                Some(Rational { num: n as i64, den: d as i64 })
            } else {
                None
            }
        }
    }

    /// Exact difference, or `None` when a component leaves the 64-bit range.
    pub fn checked_sub(&self, other: &Rational) -> (r: Option<Rational>)
        ensures
            r is Some <==> rat_fits(rat_sub(self@, other@)),
            r is Some ==> r.unwrap()@ == rat_sub(self@, other@),
    {
        proof {
            use_type_invariant(self);
            use_type_invariant(other);
            lemma_i64_prod_pos_in_i128(self.num as int, other.den as int);
            lemma_i64_prod_pos_in_i128(other.num as int, self.den as int);
            lemma_i64_prod_pos_in_i128(self.den as int, other.den as int);
            lemma_pos_prod(self.den as int, other.den as int);
        }
        if self.den == other.den {
            let n: i128 = self.num as i128 - other.num as i128;
            if component_fits(n) {
                Some(Rational { num: n as i64, den: self.den })
            } else {
                None
            }
        } else {
            let n: i128 = (self.num as i128) * (other.den as i128) - (other.num as i128)
                * (self.den as i128);
            let d: i128 = (self.den as i128) * (other.den as i128);
            if component_fits(n) && component_fits(d) {
                Some(Rational { num: n as i64, den: d as i64 })
            } else {
                None
            }
        }
    }

    /// Exact product, or `None` when a component leaves the 64-bit range.
    pub fn checked_mul(&self, other: &Rational) -> (r: Option<Rational>)
        ensures
            r is Some <==> rat_fits(rat_mul(self@, other@)),
            r is Some ==> r.unwrap()@ == rat_mul(self@, other@),
    {
        proof {
            use_type_invariant(self);
            use_type_invariant(other);
            lemma_i64_prod_in_i128(self.num as int, other.num as int);
            lemma_i64_prod_pos_in_i128(self.den as int, other.den as int);
            lemma_pos_prod(self.den as int, other.den as int);
        }
        let n: i128 = (self.num as i128) * (other.num as i128);
        let d: i128 = (self.den as i128) * (other.den as i128);
        if component_fits(n) && component_fits(d) {
            Some(Rational { num: n as i64, den: d as i64 })
        } else {
            None
        }
    }

    /// Exact quotient by a nonzero rational, or `None` when a component
    /// leaves the 64-bit range.
    pub fn checked_div(&self, other: &Rational) -> (r: Option<Rational>)
        requires
            other@.n != 0,
        ensures
            r is Some <==> rat_fits(rat_div(self@, other@)),
            r is Some ==> r.unwrap()@ == rat_div(self@, other@),
    {
        proof {
            use_type_invariant(self);
            use_type_invariant(other);
            lemma_i64_prod_pos_in_i128(self.num as int, other.den as int);
            lemma_i64_prod_in_i128(self.den as int, other.num as int);
        }
        let n: i128;
        let d: i128;
        if other.num < 0 {
            proof {
                lemma_pos_prod(self.den as int, -(other.num as int));
                assert((self.den as int) * (-(other.num as int))
                    <= 0x4000_0000_0000_0000_0000_0000_0000_0000) by (nonlinear_arith)
                    requires
                        0 < self.den as int <= 0x7FFF_FFFF_FFFF_FFFF,
                        0 < -(other.num as int) <= 0x8000_0000_0000_0000,
                ;
            }
            n = -((self.num as i128) * (other.den as i128));
            d = (self.den as i128) * (-(other.num as i128));
        } else {
            proof {
                lemma_pos_prod(self.den as int, other.num as int);
            }
            n = (self.num as i128) * (other.den as i128);
            d = (self.den as i128) * (other.num as i128);
        }
        if component_fits(n) && component_fits(d) {
            Some(Rational { num: n as i64, den: d as i64 })
        } else {
            None
        }
    }

    /// Exact absolute value, or `None` on the one numerator that cannot
    /// flip sign.
    pub fn checked_abs(&self) -> (r: Option<Rational>)
        ensures
            r is Some <==> rat_fits(rat_abs(self@)),
            r is Some ==> r.unwrap()@ == rat_abs(self@),
    {
        proof {
            use_type_invariant(self);
        }
        if self.num >= 0 {
            Some(*self)
        } else if self.num == i64::MIN {
            None
        } else {
            Some(Rational { num: -self.num, den: self.den })
        }
    }

    /// Strict order on the represented numbers.
    pub fn lt(&self, other: &Rational) -> (r: bool)
        ensures
            r == rat_lt(self@, other@),
    {
        proof {
            lemma_i64_prod_in_i128(self.num as int, other.den as int);
            lemma_i64_prod_in_i128(other.num as int, self.den as int);
        }
        (self.num as i128) * (other.den as i128) < (other.num as i128) * (self.den as i128)
    }

    /// Non-strict order on the represented numbers.
    pub fn le(&self, other: &Rational) -> (r: bool)
        ensures
            r == rat_le(self@, other@),
    {
        proof {
            lemma_i64_prod_in_i128(self.num as int, other.den as int);
            lemma_i64_prod_in_i128(other.num as int, self.den as int);
        }
        (self.num as i128) * (other.den as i128) <= (other.num as i128) * (self.den as i128)
    }
}

} // verus!
