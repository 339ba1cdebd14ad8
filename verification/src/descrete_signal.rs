//! Discrete signals: owned, ordered sequences of `(timestamp, value)`
//! samples, and the grid-merging addition that combines two signals sampled
//! on different time grids.
//!
//! The invariant of a signal is that its timestamps are strictly increasing.
//! Addition walks both operands with two cursors: samples before or after
//! the other signal's covered range pass through verbatim, equal timestamps
//! sum directly, and a timestamp that falls strictly between two samples of
//! the other signal gets that signal's linearly interpolated value added.

use crate::rational::{
    lemma_rat_add_char, lemma_rat_add_congruence, lemma_rat_div_mul_cancel, lemma_rat_eq_lt_trans,
    lemma_rat_eq_trans, lemma_rat_lt_trans, lemma_rat_sub_char, rat_add,
    rat_div, rat_eq, rat_fits, rat_lt, rat_mul, rat_sub, rat_wf, Rat, Rational,
};
use crate::DspError;
use vstd::prelude::*;

verus! {

/// The mathematical reading of a sample sequence.
pub open spec fn sig_view(s: Seq<(Rational, Rational)>) -> Seq<(Rat, Rat)> {
    s.map_values(|p: (Rational, Rational)| (p.0@, p.1@))
}

/// Timestamps are strictly increasing.
pub open spec fn sig_sorted(s: Seq<(Rat, Rat)>) -> bool {
    forall|i: int| 0 < i < s.len() ==> rat_lt(s[i - 1].0, #[trigger] s[i].0)
}

/// Every component is a well-formed rational.
pub open spec fn sig_rats_wf(s: Seq<(Rat, Rat)>) -> bool {
    forall|i: int| 0 <= i < s.len() ==> rat_wf(#[trigger] s[i].0) && rat_wf(s[i].1)
}

/// The signal invariant: well-formed components on a strictly increasing
/// time grid.
pub open spec fn sig_wf(s: Seq<(Rat, Rat)>) -> bool {
    sig_rats_wf(s) && sig_sorted(s)
}

/// Strict order holds across any index gap, not only between neighbours.
pub proof fn lemma_sig_sorted_pair(s: Seq<(Rat, Rat)>, i: int, j: int)
    requires
        sig_wf(s),
        0 <= i < j < s.len(),
    ensures
        rat_lt(s[i].0, s[j].0),
    decreases j - i,
{
    if i + 1 < j {
        lemma_sig_sorted_pair(s, i, j - 1);
        lemma_rat_lt_trans(s[i].0, s[j - 1].0, s[j].0);
    }
}

/// The mathematical reading of one sample pair.
pub open spec fn pv(p: (Rational, Rational)) -> (Rat, Rat) {
    (p.0@, p.1@)
}

/// Slope of the interpolation line through `p1` and `p2`:
/// `(y1 - y2) / (x1 - x2)`.
pub open spec fn line_slope(p1: (Rat, Rat), p2: (Rat, Rat)) -> Rat {
    rat_div(rat_sub(p1.1, p2.1), rat_sub(p1.0, p2.0))
}

/// Intercept of the interpolation line: `y1 - slope * x1`.
pub open spec fn line_intercept(p1: (Rat, Rat), p2: (Rat, Rat)) -> Rat {
    rat_sub(p1.1, rat_mul(line_slope(p1, p2), p1.0))
}

/// Every intermediate of the coefficient computation stays in 64 bits.
pub open spec fn coeffs_fit(p1: (Rat, Rat), p2: (Rat, Rat)) -> bool {
    &&& rat_fits(rat_sub(p1.1, p2.1))
    &&& rat_fits(rat_sub(p1.0, p2.0))
    &&& rat_fits(line_slope(p1, p2))
    &&& rat_fits(rat_mul(line_slope(p1, p2), p1.0))
    &&& rat_fits(line_intercept(p1, p2))
}

/// Value the merge emits for a sample `p` that falls inside the bracket
/// `(p1, p2)` of the other signal: `p`'s own value plus the line through the
/// bracket evaluated at `p`'s timestamp.
pub open spec fn interp_val(p1: (Rat, Rat), p2: (Rat, Rat), p: (Rat, Rat)) -> Rat {
    rat_add(p.1, rat_add(rat_mul(line_slope(p1, p2), p.0), line_intercept(p1, p2)))
}

/// Every intermediate of the interpolated sum stays in 64 bits.
pub open spec fn interp_fits(p1: (Rat, Rat), p2: (Rat, Rat), p: (Rat, Rat)) -> bool {
    &&& coeffs_fit(p1, p2)
    &&& rat_fits(rat_mul(line_slope(p1, p2), p.0))
    &&& rat_fits(rat_add(rat_mul(line_slope(p1, p2), p.0), line_intercept(p1, p2)))
    &&& rat_fits(interp_val(p1, p2, p))
}

/// Ring identity behind the first half of [`lemma_line_through_bracket`]:
/// `u` stands for the slope-times-x1 numerator, `c` for its denominator.
proof fn lemma_line_first_core(u: int, c: int, yn: int, yd: int)
    by (nonlinear_arith)
    ensures
        (u * (yd * c) + (yn * c - u * yd) * c) * yd == yn * (c * (yd * c)),
{
}

/// The interpolation coefficients describe the line through the bracketing
/// samples: the slope is exactly the ratio of the value gap to the timestamp
/// gap, and evaluating `slope * x + intercept` at the first bracketing
/// timestamp gives back that sample's own value.  Together the two clauses
/// pin the line down.
pub proof fn lemma_line_through_bracket(p1: (Rat, Rat), p2: (Rat, Rat))
    requires
        rat_wf(p1.0),
        rat_wf(p1.1),
        rat_wf(p2.0),
        rat_wf(p2.1),
        !rat_eq(p1.0, p2.0),
    ensures
        rat_eq(
            rat_mul(line_slope(p1, p2), rat_sub(p1.0, p2.0)),
            rat_sub(p1.1, p2.1),
        ),
        rat_eq(rat_add(rat_mul(line_slope(p1, p2), p1.0), line_intercept(p1, p2)), p1.1),
{
    let x1 = p1.0;
    let y1 = p1.1;
    let x2 = p2.0;
    let y2 = p2.1;
    let dx = rat_sub(x1, x2);
    let dy = rat_sub(y1, y2);
    lemma_rat_sub_char(x1, x2);
    lemma_rat_sub_char(y1, y2);
    assert(dx.n != 0) by (nonlinear_arith)
        requires
            dx.n * (x1.d * x2.d) == (x1.n * x2.d - x2.n * x1.d) * dx.d,
            dx.d > 0,
            x1.n * x2.d != x2.n * x1.d,
    ;
    let s = line_slope(p1, p2);
    lemma_rat_div_mul_cancel(dy, dx);
    let m1 = rat_mul(s, x1);
    crate::rational::lemma_pos_prod(s.d, x1.d);
    let icept = line_intercept(p1, p2);
    lemma_rat_sub_char(y1, m1);
    let ig = Rat { n: y1.n * m1.d - m1.n * y1.d, d: y1.d * m1.d };
    lemma_rat_add_char(m1, icept);
    lemma_rat_add_congruence(m1, icept, ig);
    lemma_rat_add_char(m1, ig);
    let g1 = Rat { n: m1.n * ig.d + ig.n * m1.d, d: m1.d * ig.d };
    lemma_line_first_core(s.n * x1.n, s.d * x1.d, y1.n, y1.d);
    assert(rat_eq(g1, y1));
    lemma_rat_eq_trans(rat_add(m1, icept), rat_add(m1, ig), g1);
    lemma_rat_eq_trans(rat_add(m1, icept), g1, y1);
}

/// Element the merge emits for `other[j]` while `lead`'s cursor `l` is
/// strictly ahead of it: verbatim before `lead`'s covered range begins,
/// interpolated against the bracket `(lead[l-1], lead[l])` inside it.
pub open spec fn lead_elem(
    lead: Seq<(Rat, Rat)>,
    other: Seq<(Rat, Rat)>,
    l: int,
    j: int,
) -> (Rat, Rat) {
    if l == 0 {
        other[j]
    } else {
        (other[j].0, interp_val(lead[l - 1], lead[l], other[j]))
    }
}

/// The fixed-width bound the emitted element needs.
pub open spec fn lead_fits(lead: Seq<(Rat, Rat)>, other: Seq<(Rat, Rat)>, l: int, j: int) -> bool {
    l == 0 || interp_fits(lead[l - 1], lead[l], other[j])
}

/// The grid-merging sum of `a[l..]` and `b[r..]`, exactly as the two-cursor
/// walk produces it: one side exhausted passes the other through verbatim,
/// equal timestamps sum directly, and the signal that lags contributes each
/// sample with the leading signal's interpolated value added.
pub open spec fn merge_from(a: Seq<(Rat, Rat)>, b: Seq<(Rat, Rat)>, l: int, r: int) -> Seq<
    (Rat, Rat),
>
    decreases a.len() + b.len() - l - r,
    when 0 <= l <= a.len() && 0 <= r <= b.len()
{
    if l >= a.len() {
        b.subrange(r, b.len() as int)
    } else if r >= b.len() {
        a.subrange(l, a.len() as int)
    } else if rat_eq(a[l].0, b[r].0) {
        seq![(a[l].0, rat_add(a[l].1, b[r].1))] + merge_from(a, b, l + 1, r + 1)
    } else if rat_lt(b[r].0, a[l].0) {
        seq![lead_elem(a, b, l, r)] + merge_from(a, b, l, r + 1)
    } else {
        seq![lead_elem(b, a, r, l)] + merge_from(a, b, l + 1, r)
    }
}

/// Every exact intermediate along the merge stays in 64 bits.
pub open spec fn merge_from_fits(a: Seq<(Rat, Rat)>, b: Seq<(Rat, Rat)>, l: int, r: int) -> bool
    decreases a.len() + b.len() - l - r,
    when 0 <= l <= a.len() && 0 <= r <= b.len()
{
    if l >= a.len() || r >= b.len() {
        true
    } else if rat_eq(a[l].0, b[r].0) {
        rat_fits(rat_add(a[l].1, b[r].1)) && merge_from_fits(a, b, l + 1, r + 1)
    } else if rat_lt(b[r].0, a[l].0) {
        lead_fits(a, b, l, r) && merge_from_fits(a, b, l, r + 1)
    } else {
        lead_fits(b, a, r, l) && merge_from_fits(a, b, l + 1, r)
    }
}

/// The whole merged signal.
pub open spec fn merge_sig(a: Seq<(Rat, Rat)>, b: Seq<(Rat, Rat)>) -> Seq<(Rat, Rat)> {
    merge_from(a, b, 0, 0)
}

/// The whole merge stays within 64 bits.
pub open spec fn merge_fits(a: Seq<(Rat, Rat)>, b: Seq<(Rat, Rat)>) -> bool {
    merge_from_fits(a, b, 0, 0)
}

/// Unfolds the merge over a run of consecutive `b` samples that all lie
/// strictly before `a[l]`: each is emitted by [`lead_elem`], and the fits
/// predicate splits into the run's bounds and the rest.
pub proof fn lemma_merge_run_b(a: Seq<(Rat, Rat)>, b: Seq<(Rat, Rat)>, l: int, r: int, e: int)
    requires
        0 <= l < a.len(),
        0 <= r <= e <= b.len(),
        forall|j: int| r <= j < e ==> rat_lt((#[trigger] b[j]).0, a[l].0),
    ensures
        merge_from(a, b, l, r) == Seq::new((e - r) as nat, |k: int| lead_elem(a, b, l, r + k))
            + merge_from(a, b, l, e),
        merge_from_fits(a, b, l, r) <==> ((forall|j: int| r <= j < e ==> lead_fits(a, b, l, j))
            && merge_from_fits(a, b, l, e)),
    decreases e - r,
{
    if r < e {
        lemma_merge_run_b(a, b, l, r + 1, e);
        assert(!rat_eq(a[l].0, b[r].0));
        assert(merge_from(a, b, l, r) == seq![lead_elem(a, b, l, r)] + merge_from(a, b, l, r + 1));
        assert(Seq::new((e - r) as nat, |k: int| lead_elem(a, b, l, r + k)) =~= seq![
            lead_elem(a, b, l, r),
        ] + Seq::new((e - r - 1) as nat, |k: int| lead_elem(a, b, l, r + 1 + k)));
        assert(merge_from(a, b, l, r) =~= Seq::new(
            (e - r) as nat,
            |k: int| lead_elem(a, b, l, r + k),
        ) + merge_from(a, b, l, e));
    } else {
        assert(merge_from(a, b, l, r) =~= Seq::new(
            (e - r) as nat,
            |k: int| lead_elem(a, b, l, r + k),
        ) + merge_from(a, b, l, e));
    }
}

/// The mirror of [`lemma_merge_run_b`]: a run of consecutive `a` samples
/// strictly before `b[r]`.
pub proof fn lemma_merge_run_a(a: Seq<(Rat, Rat)>, b: Seq<(Rat, Rat)>, l: int, r: int, e: int)
    requires
        0 <= r < b.len(),
        0 <= l <= e <= a.len(),
        forall|j: int| l <= j < e ==> rat_lt((#[trigger] a[j]).0, b[r].0),
    ensures
        merge_from(a, b, l, r) == Seq::new((e - l) as nat, |k: int| lead_elem(b, a, r, l + k))
            + merge_from(a, b, e, r),
        merge_from_fits(a, b, l, r) <==> ((forall|j: int| l <= j < e ==> lead_fits(b, a, r, j))
            && merge_from_fits(a, b, e, r)),
    decreases e - l,
{
    if l < e {
        lemma_merge_run_a(a, b, l + 1, r, e);
        assert(!rat_eq(a[l].0, b[r].0));
        assert(!rat_lt(b[r].0, a[l].0));
        assert(merge_from(a, b, l, r) == seq![lead_elem(b, a, r, l)] + merge_from(a, b, l + 1, r));
        assert(Seq::new((e - l) as nat, |k: int| lead_elem(b, a, r, l + k)) =~= seq![
            lead_elem(b, a, r, l),
        ] + Seq::new((e - l - 1) as nat, |k: int| lead_elem(b, a, r, l + 1 + k)));
        assert(merge_from(a, b, l, r) =~= Seq::new(
            (e - l) as nat,
            |k: int| lead_elem(b, a, r, l + k),
        ) + merge_from(a, b, e, r));
    } else {
        assert(merge_from(a, b, l, r) =~= Seq::new(
            (e - l) as nat,
            |k: int| lead_elem(b, a, r, l + k),
        ) + merge_from(a, b, e, r));
    }
}

/// Some timestamp of `s`, at index `lo` or later, equals `t` as a rational.
pub open spec fn grid_contains(s: Seq<(Rat, Rat)>, lo: int, t: Rat) -> bool {
    exists|j: int| lo <= j < s.len() && rat_eq(t, (#[trigger] s[j]).0)
}

proof fn lemma_grid_contains_cons(h: (Rat, Rat), m: Seq<(Rat, Rat)>, t: Rat)
    requires
        grid_contains(m, 0, t),
    ensures
        grid_contains(seq![h] + m, 0, t),
{
    let j = choose|j: int| 0 <= j < m.len() && rat_eq(t, (#[trigger] m[j]).0);
    assert((seq![h] + m)[j + 1] == m[j]);
}

proof fn lemma_merge_grid_from(a: Seq<(Rat, Rat)>, b: Seq<(Rat, Rat)>, l: int, r: int)
    requires
        0 <= l <= a.len(),
        0 <= r <= b.len(),
    ensures
        forall|i: int|
            0 <= i < merge_from(a, b, l, r).len() ==> grid_contains(
                a,
                l,
                (#[trigger] merge_from(a, b, l, r)[i]).0,
            ) || grid_contains(b, r, merge_from(a, b, l, r)[i].0),
    decreases a.len() + b.len() - l - r,
{
    let m = merge_from(a, b, l, r);
    if l >= a.len() {
        assert forall|i: int| 0 <= i < m.len() implies grid_contains(a, l, (#[trigger] m[i]).0)
            || grid_contains(b, r, m[i].0) by {
            assert(m[i] == b[r + i]);
        }
    } else if r >= b.len() {
        assert forall|i: int| 0 <= i < m.len() implies grid_contains(a, l, (#[trigger] m[i]).0)
            || grid_contains(b, r, m[i].0) by {
            assert(m[i] == a[l + i]);
        }
    } else {
        let lp = if rat_lt(b[r].0, a[l].0) && !rat_eq(a[l].0, b[r].0) {
            l
        } else {
            l + 1
        };
        let rp = if !rat_eq(a[l].0, b[r].0) && !rat_lt(b[r].0, a[l].0) {
            r
        } else {
            r + 1
        };
        lemma_merge_grid_from(a, b, lp, rp);
        let m2 = merge_from(a, b, lp, rp);
        assert(m == seq![m[0]] + m2);
        assert(rat_eq(m[0].0, a[l].0) || rat_eq(m[0].0, b[r].0));
        assert forall|i: int| 0 <= i < m.len() implies grid_contains(a, l, (#[trigger] m[i]).0)
            || grid_contains(b, r, m[i].0) by {
            if i == 0 {
            } else {
                assert(m[i] == m2[i - 1]);
                if grid_contains(a, lp, m2[i - 1].0) {
                    let j = choose|j: int|
                        lp <= j < a.len() && rat_eq(m2[i - 1].0, (#[trigger] a[j]).0);
                    assert(l <= j < a.len() && rat_eq(m[i].0, a[j].0));
                } else {
                    let j = choose|j: int|
                        rp <= j < b.len() && rat_eq(m2[i - 1].0, (#[trigger] b[j]).0);
                    assert(r <= j < b.len() && rat_eq(m[i].0, b[j].0));
                }
            }
        }
    }
}

/// Every timestamp of the merged signal is, as a rational number, a
/// timestamp of one of the operands: the output grid does not invent
/// instants.
pub proof fn lemma_merge_grid_from_inputs(a: Seq<(Rat, Rat)>, b: Seq<(Rat, Rat)>)
    ensures
        forall|i: int|
            0 <= i < merge_sig(a, b).len() ==> grid_contains(
                a,
                0,
                (#[trigger] merge_sig(a, b)[i]).0,
            ) || grid_contains(b, 0, merge_sig(a, b)[i].0),
{
    lemma_merge_grid_from(a, b, 0, 0);
}

proof fn lemma_merge_grid_covers(a: Seq<(Rat, Rat)>, b: Seq<(Rat, Rat)>, l: int, r: int)
    requires
        0 <= l <= a.len(),
        0 <= r <= b.len(),
    ensures
        forall|j: int|
            l <= j < a.len() ==> grid_contains(merge_from(a, b, l, r), 0, (#[trigger] a[j]).0),
        forall|j: int|
            r <= j < b.len() ==> grid_contains(merge_from(a, b, l, r), 0, (#[trigger] b[j]).0),
    decreases a.len() + b.len() - l - r,
{
    let m = merge_from(a, b, l, r);
    if l >= a.len() {
        assert forall|j: int| r <= j < b.len() implies grid_contains(
            m,
            0,
            (#[trigger] b[j]).0,
        ) by {
            assert(m[j - r] == b[j]);
        }
    } else if r >= b.len() {
        assert forall|j: int| l <= j < a.len() implies grid_contains(
            m,
            0,
            (#[trigger] a[j]).0,
        ) by {
            assert(m[j - l] == a[j]);
        }
    } else {
        let lp = if rat_lt(b[r].0, a[l].0) && !rat_eq(a[l].0, b[r].0) {
            l
        } else {
            l + 1
        };
        let rp = if !rat_eq(a[l].0, b[r].0) && !rat_lt(b[r].0, a[l].0) {
            r
        } else {
            r + 1
        };
        lemma_merge_grid_covers(a, b, lp, rp);
        let m2 = merge_from(a, b, lp, rp);
        assert(m == seq![m[0]] + m2);
        assert(rat_eq(a[l].0, m[0].0) || lp == l);
        assert(rat_eq(b[r].0, m[0].0) || rp == r);
        assert forall|j: int| l <= j < a.len() implies grid_contains(
            m,
            0,
            (#[trigger] a[j]).0,
        ) by {
            if j == l && lp == l + 1 {
                assert(rat_eq(a[j].0, m[0].0));
            } else {
                lemma_grid_contains_cons(m[0], m2, a[j].0);
            }
        }
        assert forall|j: int| r <= j < b.len() implies grid_contains(
            m,
            0,
            (#[trigger] b[j]).0,
        ) by {
            if j == r && rp == r + 1 {
                assert(rat_eq(b[j].0, m[0].0));
            } else {
                lemma_grid_contains_cons(m[0], m2, b[j].0);
            }
        }
    }
}

/// Every timestamp of either operand appears, as a rational number, in the
/// merged signal: together with [`lemma_merge_grid_from_inputs`], the output
/// grid is exactly the union of the input grids.
pub proof fn lemma_merge_grid_covers_inputs(a: Seq<(Rat, Rat)>, b: Seq<(Rat, Rat)>)
    ensures
        forall|j: int|
            0 <= j < a.len() ==> grid_contains(merge_sig(a, b), 0, (#[trigger] a[j]).0),
        forall|j: int|
            0 <= j < b.len() ==> grid_contains(merge_sig(a, b), 0, (#[trigger] b[j]).0),
{
    lemma_merge_grid_covers(a, b, 0, 0);
}

/// Two sample sequences agree pointwise as rational numbers.
pub open spec fn sig_pointwise_eq(x: Seq<(Rat, Rat)>, y: Seq<(Rat, Rat)>) -> bool {
    x.len() == y.len() && forall|i: int|
        0 <= i < x.len() ==> rat_eq((#[trigger] x[i]).0, y[i].0) && rat_eq(x[i].1, y[i].1)
}

proof fn lemma_merge_comm_from(a: Seq<(Rat, Rat)>, b: Seq<(Rat, Rat)>, l: int, r: int)
    requires
        0 <= l <= a.len(),
        0 <= r <= b.len(),
    ensures
        sig_pointwise_eq(merge_from(a, b, l, r), merge_from(b, a, r, l)),
        merge_from_fits(a, b, l, r) == merge_from_fits(b, a, r, l),
    decreases a.len() + b.len() - l - r,
{
    let m1 = merge_from(a, b, l, r);
    let m2 = merge_from(b, a, r, l);
    if l >= a.len() || r >= b.len() {
        assert(m1 == m2);
    } else if rat_eq(a[l].0, b[r].0) {
        lemma_merge_comm_from(a, b, l + 1, r + 1);
        crate::rational::lemma_rat_add_comm(a[l].1, b[r].1);
        assert(m1 == seq![(a[l].0, rat_add(a[l].1, b[r].1))] + merge_from(a, b, l + 1, r + 1));
        assert(m2 == seq![(b[r].0, rat_add(a[l].1, b[r].1))] + merge_from(b, a, r + 1, l + 1));
        assert(sig_pointwise_eq(m1, m2));
    } else if rat_lt(b[r].0, a[l].0) {
        lemma_merge_comm_from(a, b, l, r + 1);
        assert(m1 == seq![lead_elem(a, b, l, r)] + merge_from(a, b, l, r + 1));
        assert(m2 == seq![lead_elem(a, b, l, r)] + merge_from(b, a, r + 1, l));
        assert(sig_pointwise_eq(m1, m2));
    } else {
        lemma_merge_comm_from(a, b, l + 1, r);
        assert(rat_lt(a[l].0, b[r].0));
        assert(m1 == seq![lead_elem(b, a, r, l)] + merge_from(a, b, l + 1, r));
        assert(m2 == seq![lead_elem(b, a, r, l)] + merge_from(b, a, r, l + 1));
        assert(sig_pointwise_eq(m1, m2));
    }
}

/// Commutativity of grid-merging addition: swapping the operands gives the
/// same signal pointwise — the same length, and at every index the same
/// timestamp and the same value as rational numbers — and the one sum stays
/// within the fixed-width representation exactly when the other does.
pub proof fn lemma_merge_sig_commutes(a: Seq<(Rat, Rat)>, b: Seq<(Rat, Rat)>)
    ensures
        sig_pointwise_eq(merge_sig(a, b), merge_sig(b, a)),
        merge_fits(a, b) == merge_fits(b, a),
{
    lemma_merge_comm_from(a, b, 0, 0);
}

proof fn lemma_merge_identical_from(a: Seq<(Rat, Rat)>, b: Seq<(Rat, Rat)>, k: int)
    requires
        a.len() == b.len(),
        0 <= k <= a.len(),
        forall|i: int| 0 <= i < a.len() ==> rat_eq((#[trigger] a[i]).0, b[i].0),
    ensures
        merge_from(a, b, k, k).len() == a.len() - k,
        forall|i: int|
            0 <= i < a.len() - k ==> #[trigger] merge_from(a, b, k, k)[i] == (
                a[k + i].0,
                rat_add(a[k + i].1, b[k + i].1),
            ),
    decreases a.len() - k,
{
    if k < a.len() {
        lemma_merge_identical_from(a, b, k + 1);
        assert(rat_eq(a[k].0, b[k].0));
        assert(merge_from(a, b, k, k) == seq![(a[k].0, rat_add(a[k].1, b[k].1))] + merge_from(
            a,
            b,
            k + 1,
            k + 1,
        ));
    }
}

/// Identical-grid addition: when the operands share every timestamp, the
/// sum keeps that timestamp sequence unchanged and adds the values index by
/// index.
pub proof fn lemma_merge_identical_grids(a: Seq<(Rat, Rat)>, b: Seq<(Rat, Rat)>)
    requires
        a.len() == b.len(),
        forall|i: int| 0 <= i < a.len() ==> rat_eq((#[trigger] a[i]).0, b[i].0),
    ensures
        merge_sig(a, b).len() == a.len(),
        forall|i: int|
            0 <= i < a.len() ==> #[trigger] merge_sig(a, b)[i] == (
                a[i].0,
                rat_add(a[i].1, b[i].1),
            ),
{
    lemma_merge_identical_from(a, b, 0);
}

/// Pass-through before the overlap: samples of the first operand that lie
/// strictly before the second operand's first timestamp open the sum
/// verbatim.
pub proof fn lemma_merge_leading_pass_through(a: Seq<(Rat, Rat)>, b: Seq<(Rat, Rat)>, k: int)
    requires
        b.len() > 0,
        0 <= k <= a.len(),
        forall|j: int| 0 <= j < k ==> rat_lt((#[trigger] a[j]).0, b[0].0),
    ensures
        merge_sig(a, b).len() >= k,
        forall|j: int| 0 <= j < k ==> #[trigger] merge_sig(a, b)[j] == a[j],
{
    lemma_merge_run_a(a, b, 0, 0, k);
    assert forall|j: int| 0 <= j < k implies #[trigger] merge_sig(a, b)[j] == a[j] by {
        assert(merge_sig(a, b)[j] == lead_elem(b, a, 0, j));
    }
}

proof fn lemma_merge_trailing_from(
    a: Seq<(Rat, Rat)>,
    b: Seq<(Rat, Rat)>,
    k: int,
    l: int,
    r: int,
)
    requires
        sig_wf(a),
        sig_wf(b),
        b.len() > 0,
        0 <= k <= a.len(),
        0 <= l <= a.len(),
        0 <= r <= b.len(),
        forall|j: int| k <= j < a.len() ==> rat_lt(b.last().0, (#[trigger] a[j]).0),
    ensures
        ({
            let m = merge_from(a, b, l, r);
            let s = if l >= k {
                l
            } else {
                k
            };
            m.len() >= a.len() - s && m.subrange(
                m.len() - (a.len() - s),
                m.len() as int,
            ) == a.subrange(s, a.len() as int)
        }),
    decreases a.len() + b.len() - l - r,
{
    let m = merge_from(a, b, l, r);
    let s = if l >= k {
        l
    } else {
        k
    };
    let tail = a.subrange(s, a.len() as int);
    if l >= a.len() {
        assert(m.len() >= a.len() - s && m.subrange(m.len() - (a.len() - s), m.len() as int)
            =~= tail);
    } else if r >= b.len() {
        assert(m == a.subrange(l, a.len() as int));
        assert(m.subrange(m.len() - (a.len() - s), m.len() as int) =~= tail);
    } else {
        if r < b.len() - 1 {
            lemma_sig_sorted_pair(b, r, b.len() - 1);
        }
        if l >= k {
            // a[l] lies strictly after all of b, so the only step the merge
            // can take here consumes b.
            assert(rat_lt(b.last().0, a[l].0));
            assert(!rat_eq(a[l].0, b[r].0)) by {
                if rat_eq(a[l].0, b[r].0) {
                    if r < b.len() - 1 {
                        lemma_rat_eq_lt_trans(a[l].0, b[r].0, b.last().0);
                    }
                    assert(false);
                }
            }
            assert(rat_lt(b[r].0, a[l].0)) by {
                if rat_lt(a[l].0, b[r].0) {
                    if r < b.len() - 1 {
                        lemma_rat_lt_trans(a[l].0, b[r].0, b.last().0);
                    }
                    lemma_rat_lt_trans(b.last().0, a[l].0, b.last().0);
                    assert(false);
                }
            }
            lemma_merge_trailing_from(a, b, k, l, r + 1);
            let m2 = merge_from(a, b, l, r + 1);
            assert(m == seq![lead_elem(a, b, l, r)] + m2);
            assert(m.subrange(m.len() - (a.len() - s), m.len() as int) =~= m2.subrange(
                m2.len() - (a.len() - s),
                m2.len() as int,
            ));
        } else {
            if rat_eq(a[l].0, b[r].0) {
                lemma_merge_trailing_from(a, b, k, l + 1, r + 1);
                let m2 = merge_from(a, b, l + 1, r + 1);
                assert(m == seq![(a[l].0, rat_add(a[l].1, b[r].1))] + m2);
                assert(m.subrange(m.len() - (a.len() - s), m.len() as int) =~= m2.subrange(
                    m2.len() - (a.len() - s),
                    m2.len() as int,
                ));
            } else if rat_lt(b[r].0, a[l].0) {
                lemma_merge_trailing_from(a, b, k, l, r + 1);
                let m2 = merge_from(a, b, l, r + 1);
                assert(m == seq![lead_elem(a, b, l, r)] + m2);
                assert(m.subrange(m.len() - (a.len() - s), m.len() as int) =~= m2.subrange(
                    m2.len() - (a.len() - s),
                    m2.len() as int,
                ));
            } else {
                lemma_merge_trailing_from(a, b, k, l + 1, r);
                let m2 = merge_from(a, b, l + 1, r);
                let s2 = if l + 1 >= k {
                    l + 1
                } else {
                    k
                };
                assert(s2 == k);
                assert(m == seq![lead_elem(b, a, r, l)] + m2);
                assert(m.subrange(m.len() - (a.len() - s), m.len() as int) =~= m2.subrange(
                    m2.len() - (a.len() - s),
                    m2.len() as int,
                ));
            }
        }
    }
}

/// Pass-through after the overlap: samples of the first operand that lie
/// strictly after the second operand's last timestamp close the sum
/// verbatim.
pub proof fn lemma_merge_trailing_pass_through(a: Seq<(Rat, Rat)>, b: Seq<(Rat, Rat)>, k: int)
    requires
        sig_wf(a),
        sig_wf(b),
        b.len() > 0,
        0 <= k <= a.len(),
        forall|j: int| k <= j < a.len() ==> rat_lt(b.last().0, (#[trigger] a[j]).0),
    ensures
        merge_sig(a, b).len() >= a.len() - k,
        merge_sig(a, b).subrange(
            merge_sig(a, b).len() - (a.len() - k),
            merge_sig(a, b).len() as int,
        ) == a.subrange(k, a.len() as int),
{
    lemma_merge_trailing_from(a, b, k, 0, 0);
    if k == 0 {
        assert(merge_sig(a, b).subrange(
            merge_sig(a, b).len() - (a.len() - 0),
            merge_sig(a, b).len() as int,
        ) == a.subrange(0, a.len() as int));
    }
}

/// Ordered sequence of `(timestamp, value)` sample pairs with strictly
/// increasing timestamps.
#[derive(Debug)]
pub struct DescreteSignal {
    data: Vec<(Rational, Rational)>,
}

impl View for DescreteSignal {
    type V = Seq<(Rat, Rat)>;

    closed spec fn view(&self) -> Seq<(Rat, Rat)> {
        sig_view(self.data@)
    }
}

impl Clone for DescreteSignal {
    /// Deep copy of the sample sequence.
    fn clone(&self) -> (r: DescreteSignal)
        ensures
            r@ == self@,
    {
        let mut data: Vec<(Rational, Rational)> = Vec::new();
        let n = self.data.len();
        let mut i: usize = 0;
        while i < n
            invariant
                n == self.data.len(),
                i <= n,
                data@ == self.data@.subrange(0, i as int),
            decreases n - i,
        {
            data.push(self.data[i]);
            proof {
                assert(data@ =~= self.data@.subrange(0, i + 1));
            }
            i += 1;
        }
        proof {
            assert(data@ =~= self.data@);
        }
        DescreteSignal { data }
    }
}

impl DescreteSignal {
    /// The signal invariant, as a predicate on the view.
    pub open spec fn wf(&self) -> bool {
        sig_wf(self@)
    }

    /// The empty signal.
    pub fn new() -> (r: DescreteSignal)
        ensures
            r@ == Seq::<(Rat, Rat)>::empty(),
            r.wf(),
    {
        let r = DescreteSignal { data: Vec::new() };
        proof {
            assert(r@ =~= Seq::<(Rat, Rat)>::empty());
        }
        r
    }

    /// Wraps an already ordered sample sequence.
    pub fn new_from_vec(data: Vec<(Rational, Rational)>) -> (r: DescreteSignal)
        requires
            sig_wf(sig_view(data@)),
        ensures
            r@ == sig_view(data@),
            r.wf(),
    {
        DescreteSignal { data }
    }

    /// Wraps a sample sequence after checking that its timestamps are
    /// strictly increasing; the one way an unordered sequence is reported.
    pub fn try_new_from_vec(data: Vec<(Rational, Rational)>) -> (r: Result<
        DescreteSignal,
        DspError,
    >)
        ensures
            r is Ok <==> sig_sorted(sig_view(data@)),
            r is Ok ==> r.unwrap()@ == sig_view(data@) && r.unwrap().wf(),
            r is Err ==> r == Err::<DescreteSignal, DspError>(DspError::NonMonotonicTimestamps),
    {
        let n = data.len();
        let mut i: usize = 0;
        while i < n
            invariant
                n == data.len(),
                i <= n,
                forall|j: int|
                    0 <= j < i ==> rat_wf((#[trigger] sig_view(data@)[j]).0) && rat_wf(
                        sig_view(data@)[j].1,
                    ),
                forall|j: int|
                    0 < j < i ==> rat_lt(sig_view(data@)[j - 1].0, #[trigger] sig_view(data@)[j].0),
            decreases n - i,
        {
            let cur = data[i];
            proof {
                use_type_invariant(&cur.0);
                use_type_invariant(&cur.1);
                assert(sig_view(data@)[i as int] == (cur.0@, cur.1@));
            }
            if i > 0 {
                let prev = data[i - 1];
                if !prev.0.lt(&cur.0) {
                    proof {
                        assert(!rat_lt(
                            sig_view(data@)[i - 1].0,
                            sig_view(data@)[i as int].0,
                        ));
                        assert(!sig_sorted(sig_view(data@)));
                    }
                    return Err(DspError::NonMonotonicTimestamps);
                }
            }
            i += 1;
        }
        Ok(Self::new_from_vec(data))
    }

    /// Appends a sample; the timestamp must extend the grid.
    pub fn push(&mut self, x: Rational, y: Rational)
        requires
            old(self).wf(),
            old(self)@.len() == 0 || rat_lt(old(self)@.last().0, x@),
        ensures
            final(self)@ == old(self)@.push((x@, y@)),
            final(self).wf(),
    {
        proof {
            use_type_invariant(&x);
            use_type_invariant(&y);
        }
        self.data.push((x, y));
        proof {
            assert(self@ =~= old(self)@.push((x@, y@)));
        }
    }

    /// Appends a sample after checking that it extends the grid.
    pub fn try_push(&mut self, x: Rational, y: Rational) -> (r: Result<(), DspError>)
        requires
            old(self).wf(),
        ensures
            final(self).wf(),
            r is Ok <==> (old(self)@.len() == 0 || rat_lt(old(self)@.last().0, x@)),
            r is Ok ==> final(self)@ == old(self)@.push((x@, y@)),
            r is Err ==> final(self)@ == old(self)@ && r == Err::<(), DspError>(
                DspError::NonMonotonicTimestamps,
            ),
    {
        if self.data.len() == 0 {
            self.push(x, y);
            return Ok(());
        }
        let last = self.data[self.data.len() - 1];
        if last.0.lt(&x) {
            self.push(x, y);
            Ok(())
        } else {
            Err(DspError::NonMonotonicTimestamps)
        }
    }

    /// Read-only access to the sample sequence.
    pub fn get_data(&self) -> (r: &Vec<(Rational, Rational)>)
        ensures
            sig_view(r@) == self@,
    {
        &self.data
    }

    /// Number of samples.
    pub fn len(&self) -> (r: usize)
        ensures
            r == self@.len(),
    {
        self.data.len()
    }

    /// Slope and intercept of the interpolation line through two samples:
    /// the small pure helper every bracketed interpolation goes through.
    /// Bracketing points that share a timestamp are the degenerate case.
    pub fn get_approximation_coeficients(
        p1: (Rational, Rational),
        p2: (Rational, Rational),
    ) -> (r: Result<(Rational, Rational), DspError>)
        ensures
            r is Ok <==> (!rat_eq(p1.0@, p2.0@) && coeffs_fit(pv(p1), pv(p2))),
            r is Ok ==> r.unwrap().0@ == line_slope(pv(p1), pv(p2)) && r.unwrap().1@
                == line_intercept(pv(p1), pv(p2)),
            rat_eq(p1.0@, p2.0@) ==> r == Err::<(Rational, Rational), DspError>(
                DspError::DegenerateInterpolation,
            ),
            !rat_eq(p1.0@, p2.0@) && !coeffs_fit(pv(p1), pv(p2)) ==> r == Err::<
                (Rational, Rational),
                DspError,
            >(DspError::NumericOverflow),
    {
        if p1.0 == p2.0 {
            return Err(DspError::DegenerateInterpolation);
        }
        let dy = match p1.1.checked_sub(&p2.1) {
            Some(v) => v,
            None => {
                return Err(DspError::NumericOverflow);
            },
        };
        let dx = match p1.0.checked_sub(&p2.0) {
            Some(v) => v,
            None => {
                return Err(DspError::NumericOverflow);
            },
        };
        proof {
            use_type_invariant(&p1.0);
            use_type_invariant(&p2.0);
        }
        let slope = match dy.checked_div(&dx) {
            Some(v) => v,
            None => {
                return Err(DspError::NumericOverflow);
            },
        };
        let sx = match slope.checked_mul(&p1.0) {
            Some(v) => v,
            None => {
                return Err(DspError::NumericOverflow);
            },
        };
        let icept = match p1.1.checked_sub(&sx) {
            Some(v) => v,
            None => {
                return Err(DspError::NumericOverflow);
            },
        };
        Ok((slope, icept))
    }

    /// Copies samples of `data`, from `offset` on, verbatim into `self`
    /// while their timestamps stay strictly below `stamp`; returns the index
    /// of the first sample at or past `stamp`.
    fn add_data_until_stamp(
        &mut self,
        data: &Vec<(Rational, Rational)>,
        offset: usize,
        stamp: Rational,
    ) -> (r: usize)
        requires
            sig_wf(sig_view(data@)),
            old(self)@.len() == 0,
            old(self).wf(),
            offset <= data@.len(),
        ensures
            offset <= r <= data@.len(),
            final(self)@ == sig_view(data@).subrange(offset as int, r as int),
            forall|j: int| offset <= j < r ==> rat_lt((#[trigger] sig_view(data@)[j]).0, stamp@),
            r < data@.len() ==> !rat_lt(sig_view(data@)[r as int].0, stamp@),
            final(self).wf(),
    {
        let ghost dv = sig_view(data@);
        let n = data.len();
        let mut i: usize = offset;
        while i < n
            invariant
                n == data@.len(),
                dv == sig_view(data@),
                sig_wf(dv),
                offset <= i <= n,
                self@ == dv.subrange(offset as int, i as int),
                forall|j: int| offset <= j < i ==> rat_lt((#[trigger] dv[j]).0, stamp@),
                self.wf(),
            decreases n - i,
        {
            let p = data[i];
            proof {
                assert(dv[i as int] == (p.0@, p.1@));
            }
            if !p.0.lt(&stamp) {
                return i;
            }
            proof {
                if i > offset {
                    assert(self@.last() == dv[i - 1]);
                    assert(rat_lt(dv[i - 1].0, dv[i as int].0));
                }
            }
            self.push(p.0, p.1);
            proof {
                assert(self@ =~= dv.subrange(offset as int, i + 1));
            }
            i += 1;
        }
        i
    }

    /// Copies the remainder of `data`, from `offset` on, verbatim into
    /// `self` (the trailing, non-overlapping phase of the merge).
    fn add_data(&mut self, data: &Vec<(Rational, Rational)>, offset: usize)
        requires
            sig_wf(sig_view(data@)),
            old(self).wf(),
            offset <= data@.len(),
            old(self)@.len() == 0 || offset == data@.len() || rat_lt(
                old(self)@.last().0,
                sig_view(data@)[offset as int].0,
            ),
        ensures
            final(self)@ == old(self)@ + sig_view(data@).subrange(
                offset as int,
                data@.len() as int,
            ),
            final(self).wf(),
    {
        let ghost dv = sig_view(data@);
        let ghost orig = self@;
        let n = data.len();
        let mut i: usize = offset;
        proof {
            assert(self@ =~= orig + dv.subrange(offset as int, offset as int));
        }
        while i < n
            invariant
                n == data@.len(),
                dv == sig_view(data@),
                sig_wf(dv),
                offset <= i <= n,
                self@ == orig + dv.subrange(offset as int, i as int),
                self@.len() == 0 || i == n || rat_lt(self@.last().0, dv[i as int].0),
                self.wf(),
            decreases n - i,
        {
            let p = data[i];
            proof {
                assert(dv[i as int] == (p.0@, p.1@));
            }
            self.push(p.0, p.1);
            proof {
                assert(self@ =~= orig + dv.subrange(offset as int, i + 1));
                if i + 1 < n {
                    assert(rat_lt(dv[i as int].0, dv[i + 1].0));
                }
            }
            i += 1;
        }
    }

    /// Copies samples of `data`, from `offset` on, into `self` with the
    /// interpolated value of the bracket `(p1, p2)` added, while their
    /// timestamps stay strictly below the bracket's right end; returns the
    /// index of the first sample at or past it.
    #[verifier::rlimit(60)]
    fn insert_data(
        &mut self,
        data: &Vec<(Rational, Rational)>,
        offset: usize,
        p1: (Rational, Rational),
        p2: (Rational, Rational),
    ) -> (r: Result<usize, DspError>)
        requires
            sig_wf(sig_view(data@)),
            old(self).wf(),
            offset < data@.len(),
            rat_lt(p1.0@, p2.0@),
            rat_lt(sig_view(data@)[offset as int].0, p2.0@),
            old(self)@.len() == 0 || rat_lt(
                old(self)@.last().0,
                sig_view(data@)[offset as int].0,
            ),
        ensures
            r is Ok ==> {
                let e = r.unwrap() as int;
                &&& offset < r.unwrap() <= data@.len()
                &&& final(self)@ == old(self)@ + Seq::new(
                    (e - offset) as nat,
                    |k: int|
                        (
                            sig_view(data@)[offset + k].0,
                            interp_val(pv(p1), pv(p2), sig_view(data@)[offset + k]),
                        ),
                )
                &&& forall|j: int|
                    offset <= j < e ==> rat_lt((#[trigger] sig_view(data@)[j]).0, p2.0@)
                        && interp_fits(pv(p1), pv(p2), sig_view(data@)[j])
                &&& (r.unwrap() < data@.len() ==> !rat_lt(sig_view(data@)[e].0, p2.0@))
                &&& final(self).wf()
                &&& final(self)@.last().0 == sig_view(data@)[e - 1].0
            },
            r is Err ==> r == Err::<usize, DspError>(DspError::NumericOverflow) && exists|j: int|
                offset <= j < data@.len() && rat_lt((#[trigger] sig_view(data@)[j]).0, p2.0@)
                    && !interp_fits(pv(p1), pv(p2), sig_view(data@)[j]) && (forall|k: int|
                    offset <= k < j ==> rat_lt((#[trigger] sig_view(data@)[k]).0, p2.0@)
                        && interp_fits(pv(p1), pv(p2), sig_view(data@)[k])),
    {
        let ghost dv = sig_view(data@);
        let ghost orig = self@;
        let ab = match Self::get_approximation_coeficients(p1, p2) {
            Ok(v) => v,
            Err(e) => {
                proof {
                    assert(!rat_eq(p1.0@, p2.0@));
                    assert(!coeffs_fit(pv(p1), pv(p2)));
                    assert(!interp_fits(pv(p1), pv(p2), dv[offset as int]));
                }
                return Err(DspError::NumericOverflow);
            },
        };
        let slope = ab.0;
        let icept = ab.1;
        let n = data.len();
        let mut i: usize = offset;
        proof {
            assert(self@ =~= orig + Seq::new(
                0,
                |k: int|
                    (
                        sig_view(data@)[offset + k].0,
                        interp_val(pv(p1), pv(p2), sig_view(data@)[offset + k]),
                    ),
            ));
        }
        while i < n
            invariant
                n == data@.len(),
                dv == sig_view(data@),
                sig_wf(dv),
                offset <= i <= n,
                slope@ == line_slope(pv(p1), pv(p2)),
                icept@ == line_intercept(pv(p1), pv(p2)),
                coeffs_fit(pv(p1), pv(p2)),
                rat_lt(p1.0@, p2.0@),
                rat_lt(dv[offset as int].0, p2.0@),
                orig.len() == 0 || rat_lt(orig.last().0, dv[offset as int].0),
                forall|j: int|
                    offset <= j < i ==> rat_lt((#[trigger] dv[j]).0, p2.0@) && interp_fits(
                        pv(p1),
                        pv(p2),
                        dv[j],
                    ),
                orig == old(self)@,
                self@ == orig + Seq::new(
                    (i - offset) as nat,
                    |k: int|
                        (
                            sig_view(data@)[offset + k].0,
                            interp_val(pv(p1), pv(p2), sig_view(data@)[offset + k]),
                        ),
                ),
                self.wf(),
            decreases n - i,
        {
            let p = data[i];
            let x = p.0;
            let y = p.1;
            proof {
                assert(dv[i as int] == (x@, y@));
            }
            if !x.lt(&p2.0) {
                proof {
                    assert(i > offset);
                    assert(self@.last() == (
                        dv[i - 1].0,
                        interp_val(pv(p1), pv(p2), dv[i - 1]),
                    ));
                }
                return Ok(i);
            }
            let sx = match slope.checked_mul(&x) {
                Some(v) => v,
                None => {
                    proof {
                        assert(!interp_fits(pv(p1), pv(p2), dv[i as int]));
                    }
                    return Err(DspError::NumericOverflow);
                },
            };
            let sxb = match sx.checked_add(&icept) {
                Some(v) => v,
                None => {
                    proof {
                        assert(!interp_fits(pv(p1), pv(p2), dv[i as int]));
                    }
                    return Err(DspError::NumericOverflow);
                },
            };
            let val = match y.checked_add(&sxb) {
                Some(v) => v,
                None => {
                    proof {
                        assert(rat_add(y@, rat_add(sx@, icept@)) == interp_val(
                            pv(p1),
                            pv(p2),
                            dv[i as int],
                        ));
                        assert(!interp_fits(pv(p1), pv(p2), dv[i as int]));
                    }
                    return Err(DspError::NumericOverflow);
                },
            };
            proof {
                if i > offset {
                    assert(self@.last() == (
                        dv[i - 1].0,
                        interp_val(pv(p1), pv(p2), dv[i - 1]),
                    ));
                    assert(rat_lt(dv[i - 1].0, dv[i as int].0));
                } else {
                    assert(self@ =~= orig);
                }
            }
            self.push(x, val);
            proof {
                assert(val@ == interp_val(pv(p1), pv(p2), dv[i as int]));
                assert(self@ =~= orig + Seq::new(
                    (i + 1 - offset) as nat,
                    |k: int|
                        (
                            sig_view(data@)[offset + k].0,
                            interp_val(pv(p1), pv(p2), sig_view(data@)[offset + k]),
                        ),
                ));
            }
            i += 1;
        }
        proof {
            assert(i > offset);
        }
        Ok(i)
    }

    /// Grid-merging addition.  The result's grid is the union of both
    /// operands' grids: equal timestamps sum directly, a timestamp that
    /// falls inside the other signal's covered range gets that signal's
    /// linearly interpolated value added, and samples outside the overlap
    /// pass through verbatim.  Neither operand is changed.  An empty operand
    /// is reported as `EmptySignal`; an exact intermediate that leaves the
    /// 64-bit representation as `NumericOverflow`.
    #[verifier::rlimit(100)]
    pub fn add(&self, rhs: &DescreteSignal) -> (r: Result<DescreteSignal, DspError>)
        requires
            self.wf(),
            rhs.wf(),
        ensures
            r is Ok <==> (self@.len() > 0 && rhs@.len() > 0 && merge_fits(self@, rhs@)),
            r is Ok ==> r.unwrap()@ == merge_sig(self@, rhs@) && r.unwrap().wf(),
            (self@.len() == 0 || rhs@.len() == 0) ==> r == Err::<DescreteSignal, DspError>(
                DspError::EmptySignal,
            ),
            (self@.len() > 0 && rhs@.len() > 0 && !merge_fits(self@, rhs@)) ==> r == Err::<
                DescreteSignal,
                DspError,
            >(DspError::NumericOverflow),
    {
        let ghost av = self@;
        let ghost bv = rhs@;
        if self.data.len() == 0 || rhs.data.len() == 0 {
            return Err(DspError::EmptySignal);
        }
        let mut ret = DescreteSignal::new();
        let mut l: usize = 0;
        let mut r: usize = 0;
        let first_a = self.data[0];
        let first_b = rhs.data[0];
        proof {
            assert(av[0] == (first_a.0@, first_a.1@));
            assert(bv[0] == (first_b.0@, first_b.1@));
        }
        if first_b.0.lt(&first_a.0) {
            r = ret.add_data_until_stamp(&rhs.data, 0, first_a.0);
            proof {
                lemma_merge_run_b(av, bv, 0, 0, r as int);
                assert(merge_from(av, bv, 0, 0) =~= ret@ + merge_from(av, bv, 0, r as int));
                assert(r >= 1);
            }
        } else {
            l = ret.add_data_until_stamp(&self.data, 0, first_b.0);
            proof {
                lemma_merge_run_a(av, bv, 0, 0, l as int);
                assert(merge_from(av, bv, 0, 0) =~= ret@ + merge_from(av, bv, l as int, 0));
            }
        }
        while l < self.data.len() && r < rhs.data.len()
            invariant
                self.wf(),
                rhs.wf(),
                av == self@,
                bv == rhs@,
                av.len() > 0,
                bv.len() > 0,
                ret.wf(),
                l <= av.len(),
                r <= bv.len(),
                merge_from(av, bv, 0, 0) == ret@ + merge_from(av, bv, l as int, r as int),
                merge_from_fits(av, bv, 0, 0) == merge_from_fits(av, bv, l as int, r as int),
                l == 0 ==> r >= bv.len() || !rat_lt(bv[r as int].0, av[0].0),
                r == 0 ==> l >= av.len() || !rat_lt(av[l as int].0, bv[0].0),
                ret@.len() > 0 && l < av.len() ==> rat_lt(ret@.last().0, av[l as int].0),
                ret@.len() > 0 && r < bv.len() ==> rat_lt(ret@.last().0, bv[r as int].0),
            decreases av.len() + bv.len() - l - r,
        {
            let a_pair = self.data[l];
            let b_pair = rhs.data[r];
            proof {
                assert(av[l as int] == (a_pair.0@, a_pair.1@));
                assert(bv[r as int] == (b_pair.0@, b_pair.1@));
            }
            if a_pair.0 == b_pair.0 {
                let sum = match a_pair.1.checked_add(&b_pair.1) {
                    Some(v) => v,
                    None => {
                        proof {
                            assert(!merge_from_fits(av, bv, l as int, r as int));
                        }
                        return Err(DspError::NumericOverflow);
                    },
                };
                ret.push(a_pair.0, sum);
                proof {
                    assert(merge_from(av, bv, l as int, r as int) == seq![
                        (av[l as int].0, rat_add(av[l as int].1, bv[r as int].1)),
                    ] + merge_from(av, bv, l + 1, r + 1));
                    assert(merge_from(av, bv, 0, 0) =~= ret@ + merge_from(av, bv, l + 1, r + 1));
                    if l + 1 < av.len() {
                        assert(rat_lt(av[l as int].0, av[l + 1].0));
                    }
                    if r + 1 < bv.len() {
                        assert(rat_lt(bv[r as int].0, bv[r + 1].0));
                        lemma_rat_eq_lt_trans(av[l as int].0, bv[r as int].0, bv[r + 1].0);
                    }
                }
                l += 1;
                r += 1;
            } else if b_pair.0.lt(&a_pair.0) {
                proof {
                    assert(l >= 1);
                }
                let p1 = self.data[l - 1];
                let p2 = self.data[l];
                proof {
                    assert(av[l - 1] == (p1.0@, p1.1@));
                    assert(av[l as int] == (p2.0@, p2.1@));
                    assert(rat_lt(av[l - 1].0, av[l as int].0));
                }
                let e = match ret.insert_data(&rhs.data, r, p1, p2) {
                    Ok(v) => v,
                    Err(_) => {
                        proof {
                            let j = choose|j: int|
                                r <= j < bv.len() && rat_lt((#[trigger] bv[j]).0, p2.0@)
                                    && !interp_fits(pv(p1), pv(p2), bv[j]) && (forall|k: int|
                                    r <= k < j ==> rat_lt((#[trigger] bv[k]).0, p2.0@)
                                        && interp_fits(pv(p1), pv(p2), bv[k]));
                            lemma_merge_run_b(av, bv, l as int, r as int, j);
                            assert(merge_from_fits(av, bv, l as int, j) == (lead_fits(
                                av,
                                bv,
                                l as int,
                                j,
                            ) && merge_from_fits(av, bv, l as int, j + 1)));
                            assert(!lead_fits(av, bv, l as int, j));
                            assert(!merge_from_fits(av, bv, l as int, r as int));
                        }
                        return Err(DspError::NumericOverflow);
                    },
                };
                proof {
                    lemma_merge_run_b(av, bv, l as int, r as int, e as int);
                    assert(merge_from(av, bv, 0, 0) =~= ret@ + merge_from(
                        av,
                        bv,
                        l as int,
                        e as int,
                    ));
                    assert forall|j: int| r <= j < e implies lead_fits(av, bv, l as int, j) by {
                        assert(interp_fits(pv(p1), pv(p2), bv[j]));
                    }
                    if e < bv.len() {
                        assert(rat_lt(bv[e - 1].0, bv[e as int].0));
                    }
                }
                r = e;
            } else {
                proof {
                    assert(rat_lt(av[l as int].0, bv[r as int].0));
                    assert(r >= 1);
                }
                let p1 = rhs.data[r - 1];
                let p2 = rhs.data[r];
                proof {
                    assert(bv[r - 1] == (p1.0@, p1.1@));
                    assert(bv[r as int] == (p2.0@, p2.1@));
                    assert(rat_lt(bv[r - 1].0, bv[r as int].0));
                }
                let e = match ret.insert_data(&self.data, l, p1, p2) {
                    Ok(v) => v,
                    Err(_) => {
                        proof {
                            let j = choose|j: int|
                                l <= j < av.len() && rat_lt((#[trigger] av[j]).0, p2.0@)
                                    && !interp_fits(pv(p1), pv(p2), av[j]) && (forall|k: int|
                                    l <= k < j ==> rat_lt((#[trigger] av[k]).0, p2.0@)
                                        && interp_fits(pv(p1), pv(p2), av[k]));
                            lemma_merge_run_a(av, bv, l as int, r as int, j);
                            assert(merge_from_fits(av, bv, j, r as int) == (lead_fits(
                                bv,
                                av,
                                r as int,
                                j,
                            ) && merge_from_fits(av, bv, j + 1, r as int)));
                            assert(!lead_fits(bv, av, r as int, j));
                            assert(!merge_from_fits(av, bv, l as int, r as int));
                        }
                        return Err(DspError::NumericOverflow);
                    },
                };
                proof {
                    lemma_merge_run_a(av, bv, l as int, r as int, e as int);
                    assert(merge_from(av, bv, 0, 0) =~= ret@ + merge_from(
                        av,
                        bv,
                        e as int,
                        r as int,
                    ));
                    assert forall|j: int| l <= j < e implies lead_fits(bv, av, r as int, j) by {
                        assert(interp_fits(pv(p1), pv(p2), av[j]));
                    }
                    if e < av.len() {
                        assert(rat_lt(av[e - 1].0, av[e as int].0));
                    }
                }
                l = e;
            }
        }
        if self.data.len() > l {
            proof {
                assert(r as int == bv.len());
                assert(merge_from(av, bv, l as int, r as int) == av.subrange(
                    l as int,
                    av.len() as int,
                ));
                assert(merge_from_fits(av, bv, l as int, r as int));
            }
            ret.add_data(&self.data, l);
        } else {
            proof {
                assert(l as int >= av.len());
                assert(merge_from(av, bv, l as int, r as int) == bv.subrange(
                    r as int,
                    bv.len() as int,
                ));
                assert(merge_from_fits(av, bv, l as int, r as int));
            }
            ret.add_data(&rhs.data, r);
        }
        proof {
            assert(merge_from(av, bv, 0, 0) =~= ret@);
        }
        Ok(ret)
    }

    /// Resets the signal to empty.
    pub fn clear(&mut self)
        ensures
            final(self)@ == Seq::<(Rat, Rat)>::empty(),
            final(self).wf(),
    {
        self.data = Vec::new();
        proof {
            assert(self@ =~= Seq::<(Rat, Rat)>::empty());
        }
    }
}

} // verus!
