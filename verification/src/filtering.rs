//! Finite-impulse-response filtering: valid-mode discrete convolution, and
//! the moving-average (boxcar) coefficient generator.
//!
//! Each output sample is the dot product of the coefficient sequence with a
//! window of past input samples; the emitted timestamp is the oldest sample
//! of the window, so the output is time-aligned to each window's start and
//! `len(output) == len(signal) - len(coeffs) + 1`.

use crate::descrete_signal::DescreteSignal;
use crate::rational::{
    rat_add, rat_eq, rat_fits, rat_lt, rat_mul, rat_wf, rat_zero, Rat, Rational,
};
use crate::DspError;
use vstd::prelude::*;

verus! {

/// The mathematical reading of a coefficient sequence.
pub open spec fn rat_seq_view(c: Seq<Rational>) -> Seq<Rat> {
    c.map_values(|q: Rational| q@)
}

/// Partial convolution at window end `n`: the first `j` terms of
/// `sum_i coeffs[i] * signal[n - i]`, accumulated left to right.
pub open spec fn conv_partial(s: Seq<(Rat, Rat)>, c: Seq<Rat>, n: int, j: int) -> Rat
    decreases j,
    when j >= 0
{
    if j <= 0 {
        rat_zero()
    } else {
        rat_add(conv_partial(s, c, n, j - 1), rat_mul(c[j - 1], s[n - (j - 1)].1))
    }
}

/// Every step of the window's accumulation stays in 64 bits.
pub open spec fn conv_fits(s: Seq<(Rat, Rat)>, c: Seq<Rat>, n: int, j: int) -> bool
    decreases j,
    when j >= 0
{
    if j <= 0 {
        true
    } else {
        &&& conv_fits(s, c, n, j - 1)
        &&& rat_fits(rat_mul(c[j - 1], s[n - (j - 1)].1))
        &&& rat_fits(
            rat_add(conv_partial(s, c, n, j - 1), rat_mul(c[j - 1], s[n - (j - 1)].1)),
        )
    }
}

proof fn lemma_conv_fits_mono(s: Seq<(Rat, Rat)>, c: Seq<Rat>, n: int, j1: int, j2: int)
    requires
        0 <= j1 <= j2,
        conv_fits(s, c, n, j2),
    ensures
        conv_fits(s, c, n, j1),
    decreases j2,
{
    if j1 < j2 {
        lemma_conv_fits_mono(s, c, n, j1, j2 - 1);
    }
}

/// The `k`-th output sample: the timestamp of the window's oldest input
/// sample, and the full dot product over the window ending at
/// `k + len(coeffs) - 1`.
pub open spec fn fir_out(s: Seq<(Rat, Rat)>, c: Seq<Rat>, k: int) -> (Rat, Rat) {
    (s[k].0, conv_partial(s, c, c.len() + k - 1, c.len() as int))
}

/// The window that produces output `k` stays in 64 bits.
pub open spec fn window_fits(s: Seq<(Rat, Rat)>, c: Seq<Rat>, k: int) -> bool {
    conv_fits(s, c, c.len() + k - 1, c.len() as int)
}

/// Every exact intermediate of the whole convolution stays in 64 bits.
pub open spec fn fir_fits(s: Seq<(Rat, Rat)>, c: Seq<Rat>) -> bool {
    forall|k: int| 0 <= k <= s.len() - c.len() ==> #[trigger] window_fits(s, c, k)
}

/// Valid-mode convolution of `signal` with the coefficients `fir`, written
/// into `output` (a cleared signal).  Output `k` carries the timestamp of
/// `signal[k]` — the oldest sample of its window — and the dot product of
/// the coefficients with the window that ends at `signal[k + len(fir) - 1]`.
/// On any error `output` is left unchanged.
#[verifier::loop_isolation(false)]
#[verifier::rlimit(60)]
pub fn fir_filter(
    signal: &DescreteSignal,
    fir: &Vec<Rational>,
    output: &mut DescreteSignal,
) -> (r: Result<(), DspError>)
    requires
        signal.wf(),
        old(output).wf(),
        old(output)@.len() == 0,
    ensures
        r is Ok <==> (fir@.len() >= 1 && signal@.len() >= fir@.len() && fir_fits(
            signal@,
            rat_seq_view(fir@),
        )),
        r is Ok ==> ({
            let s = signal@;
            let c = rat_seq_view(fir@);
            &&& final(output)@.len() == s.len() - c.len() + 1
            &&& (forall|k: int|
                0 <= k <= s.len() - c.len() ==> #[trigger] final(output)@[k] == fir_out(s, c, k))
            &&& final(output).wf()
        }),
        r is Err ==> final(output)@ == old(output)@ && final(output).wf(),
        (fir@.len() == 0 || signal@.len() == 0) ==> r == Err::<(), DspError>(
            DspError::EmptySignal,
        ),
        (fir@.len() >= 1 && 1 <= signal@.len() < fir@.len()) ==> r == Err::<(), DspError>(
            DspError::FilterLongerThanSignal,
        ),
        (fir@.len() >= 1 && signal@.len() >= fir@.len() && !fir_fits(
            signal@,
            rat_seq_view(fir@),
        )) ==> r == Err::<(), DspError>(DspError::NumericOverflow),
{
    let ghost s = signal@;
    let ghost c = rat_seq_view(fir@);
    let flen = fir.len();
    let slen = signal.len();
    if flen == 0 || slen == 0 {
        return Err(DspError::EmptySignal);
    }
    if flen > slen {
        return Err(DspError::FilterLongerThanSignal);
    }
    let data = signal.get_data();
    let mut out = DescreteSignal::new();
    let mut n: usize = flen - 1;
    while n < slen
        invariant
            flen - 1 <= n <= slen,
            out.wf(),
            out@.len() == n - (flen - 1),
            forall|k: int| 0 <= k < n - (flen - 1) ==> #[trigger] out@[k] == fir_out(s, c, k),
            forall|k: int| 0 <= k < n - (flen - 1) ==> #[trigger] window_fits(s, c, k),
        decreases slen - n,
    {
        let ghost k = n - (flen - 1);
        let mut y = Rational::zero();
        let mut i: usize = 0;
        while i < flen
            invariant
                i <= flen,
                n < slen,
                y@ == conv_partial(s, c, n as int, i as int),
                conv_fits(s, c, n as int, i as int),
            decreases flen - i,
        {
            let h = fir[i];
            let sample = data[n - i];
            proof {
                assert(c[i as int] == h@);
                assert(s[n - i] == (sample.0@, sample.1@));
            }
            let term = match h.checked_mul(&sample.1) {
                Some(v) => v,
                None => {
                    proof {
                        assert(!conv_fits(s, c, n as int, i + 1));
                        if conv_fits(s, c, n as int, c.len() as int) {
                            lemma_conv_fits_mono(s, c, n as int, i + 1, c.len() as int);
                        }
                        assert(!window_fits(s, c, k));
                        assert(!fir_fits(s, c));
                    }
                    return Err(DspError::NumericOverflow);
                },
            };
            y = match y.checked_add(&term) {
                Some(v) => v,
                None => {
                    proof {
                        assert(!conv_fits(s, c, n as int, i + 1));
                        if conv_fits(s, c, n as int, c.len() as int) {
                            lemma_conv_fits_mono(s, c, n as int, i + 1, c.len() as int);
                        }
                        assert(!window_fits(s, c, k));
                        assert(!fir_fits(s, c));
                    }
                    return Err(DspError::NumericOverflow);
                },
            };
            i += 1;
        }
        proof {
            assert(window_fits(s, c, k));
        }
        let stamp = data[n + 1 - flen];
        proof {
            assert(s[n + 1 - flen] == (stamp.0@, stamp.1@));
            if n > flen - 1 {
                assert(out@.last() == fir_out(s, c, k - 1));
                assert(rat_lt(s[k - 1].0, s[k].0));
            }
        }
        out.push(stamp.0, y);
        n += 1;
    }
    *output = out;
    proof {
        assert(fir_fits(s, c));
    }
    Ok(())
}

/// Moving-average (boxcar) coefficients: `L = max(requested_size,
/// buffer_capacity)` taps, each exactly `1 / L`.
pub fn boxcar_coefficients(requested_size: usize, buffer_capacity: usize) -> (r: Result<
    Vec<Rational>,
    DspError,
>)
    ensures
        ({
            let m = if requested_size >= buffer_capacity {
                requested_size as int
            } else {
                buffer_capacity as int
            };
            &&& (r is Ok <==> 1 <= m <= 0x7FFF_FFFF_FFFF_FFFF)
            &&& (r is Ok ==> r.unwrap()@.len() == m && (forall|i: int|
                0 <= i < m ==> (#[trigger] r.unwrap()@[i])@ == (Rat { n: 1, d: m })))
            &&& (m == 0 ==> r == Err::<Vec<Rational>, DspError>(DspError::EmptySignal))
            &&& (m > 0x7FFF_FFFF_FFFF_FFFF ==> r == Err::<Vec<Rational>, DspError>(
                DspError::NumericOverflow,
            ))
        }),
{
    let m: usize = if requested_size >= buffer_capacity {
        requested_size
    } else {
        buffer_capacity
    };
    if m == 0 {
        return Err(DspError::EmptySignal);
    }
    if m as u64 > 0x7FFF_FFFF_FFFF_FFFFu64 {
        return Err(DspError::NumericOverflow);
    }
    let tap = Rational::new(1, m as i64);
    let mut taps: Vec<Rational> = Vec::new();
    let mut i: usize = 0;
    while i < m
        invariant
            i <= m,
            1 <= m <= 0x7FFF_FFFF_FFFF_FFFF,
            tap@ == (Rat { n: 1, d: m as int }),
            taps@.len() == i,
            forall|j: int| 0 <= j < i ==> (#[trigger] taps@[j])@ == (Rat { n: 1, d: m as int }),
        decreases m - i,
    {
        taps.push(tap);
        i += 1;
    }
    Ok(taps)
}

proof fn lemma_boxcar_partial(s: Seq<(Rat, Rat)>, c: Seq<Rat>, v: Rat, n: int, j: int)
    requires
        rat_wf(v),
        c.len() >= 1,
        forall|i: int| 0 <= i < c.len() ==> #[trigger] c[i] == (Rat { n: 1, d: c.len() as int }),
        forall|i: int| 0 <= i < s.len() ==> (#[trigger] s[i]).1 == v,
        0 <= n < s.len(),
        0 <= j <= c.len(),
        n - j + 1 >= 0,
    ensures
        j >= 1 ==> conv_partial(s, c, n, j) == (Rat { n: j * v.n, d: c.len() * v.d }),
    decreases j,
{
    let ll = c.len() as int;
    if j == 1 {
        assert(conv_partial(s, c, n, 0) == rat_zero());
        assert(conv_partial(s, c, n, 1) == rat_add(rat_zero(), rat_mul(c[0], s[n].1)));
        assert(rat_add(rat_zero(), rat_mul(c[0], v)) == (Rat { n: 1 * v.n, d: ll * v.d }))
            by (nonlinear_arith)
            requires
                rat_wf(v),
                ll >= 1,
                c[0] == (Rat { n: 1, d: ll }),
        ;
    } else if j > 1 {
        lemma_boxcar_partial(s, c, v, n, j - 1);
        assert(conv_partial(s, c, n, j) == rat_add(
            conv_partial(s, c, n, j - 1),
            rat_mul(c[j - 1], s[n - (j - 1)].1),
        ));
        assert(rat_add(Rat { n: (j - 1) * v.n, d: ll * v.d }, rat_mul(Rat { n: 1, d: ll }, v)) == (
        Rat { n: j * v.n, d: ll * v.d })) by (nonlinear_arith)
            requires
                rat_wf(v),
                ll >= 1,
                j >= 2,
        ;
    }
}

/// Boxcar invariance: convolving a signal whose every value is the constant
/// `v` with moving-average taps `1 / L`, of any length `L`, gives back the
/// same constant `v` at every output sample.
pub proof fn lemma_boxcar_invariance(s: Seq<(Rat, Rat)>, c: Seq<Rat>, v: Rat, k: int)
    requires
        rat_wf(v),
        c.len() >= 1,
        s.len() >= c.len(),
        forall|i: int| 0 <= i < c.len() ==> #[trigger] c[i] == (Rat { n: 1, d: c.len() as int }),
        forall|i: int| 0 <= i < s.len() ==> (#[trigger] s[i]).1 == v,
        0 <= k <= s.len() - c.len(),
    ensures
        rat_eq(fir_out(s, c, k).1, v),
{
    let ll = c.len() as int;
    lemma_boxcar_partial(s, c, v, ll + k - 1, ll);
    assert(rat_eq(Rat { n: ll * v.n, d: ll * v.d }, v)) by (nonlinear_arith)
        requires
            rat_wf(v),
            ll >= 1,
    ;
}

} // verus!
