//! Memoized discrete Fourier transform.
//!
//! A direct, O(N^2)-work and O(N^2)-memory evaluation of the one-sided
//! magnitude spectrum of a uniformly sampled signal.  The defining design
//! idea is the congruence-indexed product table `snk[i][j] = w[i] *
//! sample[j]`: because bin `i` only ever reads `snk[(i*j) mod N][j]`, every
//! algebraically identical twiddle-by-sample product is computed once and
//! reused.
//!
//! The twiddle factors `(cos(2*pi*k/N), -sin(2*pi*k/N))` are transcendental,
//! so the caller supplies them as rational approximations (`w[0]` is exactly
//! `1 + i0`, which keeps the DC bin exact); everything past that point — the
//! product table, the bin accumulations, the `1/N` and `2/N` scaling and the
//! frequency grid — is exact rational arithmetic.

use crate::complex_numbers::{
    cplx_add, cplx_add_fits, cplx_scale, cplx_scale_fits, cplx_zero, lemma_module_val, module_fits,
    module_spec, module_val, Cplx, ComplexNumber,
};
use crate::descrete_signal::DescreteSignal;
use crate::rational::{
    i64_fits, lemma_rat_add_pos_increases, lemma_rat_lt_sub_pos, rat_add, rat_div, rat_eq,
    rat_fits, rat_lt, rat_mul, rat_one, rat_sub, rat_wf, rat_zero, Rat, Rational,
};
use crate::DspError;
use vstd::prelude::*;

verus! {

/// The mathematical reading of a twiddle-factor table.
pub open spec fn cplx_seq_view(w: Seq<ComplexNumber>) -> Seq<Cplx> {
    w.map_values(|c: ComplexNumber| c@)
}

/// Sampling period: the spacing of the first two samples.
pub open spec fn period_spec(s: Seq<(Rat, Rat)>) -> Rat {
    rat_sub(s[1].0, s[0].0)
}

/// Sampling rate `1 / T`.
pub open spec fn rate_spec(s: Seq<(Rat, Rat)>) -> Rat {
    rat_div(rat_one(), period_spec(s))
}

/// Frequency resolution `fs / N`.
pub open spec fn resolution_spec(s: Seq<(Rat, Rat)>) -> Rat {
    rat_div(rate_spec(s), Rat { n: s.len() as int, d: 1 })
}

/// The resolution computation stays within 64 bits.
pub open spec fn resolution_fits(s: Seq<(Rat, Rat)>) -> bool {
    &&& rat_fits(period_spec(s))
    &&& rat_fits(rate_spec(s))
    &&& rat_fits(resolution_spec(s))
}

/// One product-table cell: twiddle `i`, scaled by sample `j`'s value.
pub open spec fn snk_cell(w: Seq<Cplx>, s: Seq<(Rat, Rat)>, i: int, j: int) -> Cplx {
    cplx_scale(w[i], s[j].1)
}

/// Every product-table cell stays within 64 bits.
pub open spec fn table_fits(w: Seq<Cplx>, s: Seq<(Rat, Rat)>) -> bool {
    forall|i: int, j: int|
        0 <= i < s.len() && 0 <= j < s.len() ==> cplx_scale_fits((#[trigger] w[i]), (
        #[trigger] s[j]).1)
}

/// Partial accumulation of output bin `i`: the table cells
/// `snk[(i*k) mod N][k]` for `k < j`.
pub open spec fn bin_partial(w: Seq<Cplx>, s: Seq<(Rat, Rat)>, i: int, j: int) -> Cplx
    decreases j,
    when j >= 0
{
    if j <= 0 {
        cplx_zero()
    } else {
        cplx_add(
            bin_partial(w, s, i, j - 1),
            snk_cell(w, s, (i * (j - 1)) % (s.len() as int), j - 1),
        )
    }
}

/// Every step of bin `i`'s accumulation, up to `j` terms, stays in 64 bits.
pub open spec fn bin_fits(w: Seq<Cplx>, s: Seq<(Rat, Rat)>, i: int, j: int) -> bool
    decreases j,
    when j >= 0
{
    if j <= 0 {
        true
    } else {
        bin_fits(w, s, i, j - 1) && cplx_add_fits(
            bin_partial(w, s, i, j - 1),
            snk_cell(w, s, (i * (j - 1)) % (s.len() as int), j - 1),
        )
    }
}

proof fn lemma_bin_fits_mono(w: Seq<Cplx>, s: Seq<(Rat, Rat)>, i: int, j1: int, j2: int)
    requires
        0 <= j1 <= j2,
        bin_fits(w, s, i, j2),
    ensures
        bin_fits(w, s, i, j1),
    decreases j2,
{
    if j1 < j2 {
        lemma_bin_fits_mono(w, s, i, j1, j2 - 1);
    }
}

pub open spec fn rat_half() -> Rat {
    Rat { n: 1, d: 2 }
}

/// The complex value of output bin `i`, after the DC bin's extra halving.
pub open spec fn bin_value(w: Seq<Cplx>, s: Seq<(Rat, Rat)>, i: int) -> Cplx {
    if i == 0 {
        cplx_scale(bin_partial(w, s, 0, s.len() as int), rat_half())
    } else {
        bin_partial(w, s, i, s.len() as int)
    }
}

/// The common magnitude scale `2 / N` (the DC bin was halved already, so it
/// ends up scaled by `1 / N`).
pub open spec fn scale_spec(s: Seq<(Rat, Rat)>) -> Rat {
    Rat { n: 2, d: s.len() as int }
}

/// The frequency of output bin `i`: `i` times the resolution, accumulated
/// at the resolution's own denominator.
pub open spec fn spectrum_freq(s: Seq<(Rat, Rat)>, i: int) -> Rat {
    if i == 0 {
        Rat { n: 0, d: 1 }
    } else {
        Rat { n: i * resolution_spec(s).n, d: resolution_spec(s).d }
    }
}

/// The magnitude of output bin `i`: the modulus of the bin value, scaled.
pub open spec fn spectrum_mag(w: Seq<Cplx>, s: Seq<(Rat, Rat)>, i: int) -> Rat {
    rat_mul(module_val(bin_value(w, s, i)), scale_spec(s))
}

/// Everything bin `i` computes stays within 64 bits.
pub open spec fn bin_all_fits(w: Seq<Cplx>, s: Seq<(Rat, Rat)>, i: int) -> bool {
    &&& bin_fits(w, s, i, s.len() as int)
    &&& (i == 0 ==> cplx_scale_fits(bin_partial(w, s, 0, s.len() as int), rat_half()))
    &&& module_fits(bin_value(w, s, i))
    &&& rat_fits(spectrum_mag(w, s, i))
}

/// The accumulated frequency grid stays within 64 bits.
pub open spec fn freq_fits(s: Seq<(Rat, Rat)>) -> bool {
    forall|i: int| 1 <= i <= s.len() / 2 ==> i64_fits(#[trigger] (i * resolution_spec(s).n))
}

/// Every exact intermediate of the whole transform stays within 64 bits.
pub open spec fn fft_fits(w: Seq<Cplx>, s: Seq<(Rat, Rat)>) -> bool {
    &&& resolution_fits(s)
    &&& table_fits(w, s)
    &&& freq_fits(s)
    &&& forall|i: int| 0 <= i < s.len() / 2 ==> bin_all_fits(w, s, i)
}

/// The specification-level contents of [`FftParams`].
pub ghost struct FftView {
    pub n: int,
    pub snk: Seq<Seq<Cplx>>,
    pub resolution: Rat,
}

/// The precomputed state of one transform: the sample count, the
/// congruence-indexed product table, and the frequency resolution.  The
/// table is the central space/time trade-off of the design; it lives only
/// for the one call that builds it.
pub struct FftParams {
    n: usize,
    snk: Vec<Vec<ComplexNumber>>,
    resolution: Rational,
}

impl View for FftParams {
    type V = FftView;

    closed spec fn view(&self) -> FftView {
        FftView {
            n: self.n as int,
            snk: self.snk@.map_values(|row: Vec<ComplexNumber>| cplx_seq_view(row@)),
            resolution: self.resolution@,
        }
    }
}

impl FftParams {
    /// Number of samples the table was built for.
    pub fn n(&self) -> (r: usize)
        ensures
            r as int == self@.n,
    {
        self.n
    }

    /// Frequency resolution `fs / N`.
    pub fn resolution(&self) -> (r: Rational)
        ensures
            r@ == self@.resolution,
    {
        self.resolution
    }

    /// Read-only access to the product table.
    pub fn snk(&self) -> (r: &Vec<Vec<ComplexNumber>>)
        ensures
            self@.snk == r@.map_values(|row: Vec<ComplexNumber>| cplx_seq_view(row@)),
    {
        &self.snk
    }

    /// Builds the product table and the resolution for `signal`, given the
    /// twiddle-factor table of the same length.  A signal too short to have
    /// a sampling period is reported as `EmptySignal`, an exact intermediate
    /// that leaves 64 bits as `NumericOverflow`.
    #[verifier::loop_isolation(false)]
    pub fn new(signal: &DescreteSignal, twiddles: &Vec<ComplexNumber>) -> (r: Result<
        FftParams,
        DspError,
    >)
        requires
            signal.wf(),
            twiddles@.len() == signal@.len(),
            signal@.len() <= 0x7FFF_FFFF_FFFF_FFFF,
        ensures
            r is Ok <==> (signal@.len() >= 2 && resolution_fits(signal@) && table_fits(
                cplx_seq_view(twiddles@),
                signal@,
            )),
            r is Ok ==> ({
                let p = r.unwrap()@;
                let w = cplx_seq_view(twiddles@);
                let s = signal@;
                &&& p.n == s.len()
                &&& p.resolution == resolution_spec(s)
                &&& p.resolution.n > 0
                &&& rat_wf(p.resolution)
                &&& p.snk.len() == s.len()
                &&& (forall|i: int| 0 <= i < s.len() ==> (#[trigger] p.snk[i]).len() == s.len())
                &&& (forall|i: int, j: int|
                    0 <= i < s.len() && 0 <= j < s.len() ==> #[trigger] p.snk[i][j] == snk_cell(
                        w,
                        s,
                        i,
                        j,
                    ))
            }),
            signal@.len() < 2 ==> r == Err::<FftParams, DspError>(DspError::EmptySignal),
            signal@.len() >= 2 && !(resolution_fits(signal@) && table_fits(
                cplx_seq_view(twiddles@),
                signal@,
            )) ==> r == Err::<FftParams, DspError>(DspError::NumericOverflow),
    {
        let ghost s = signal@;
        let ghost w = cplx_seq_view(twiddles@);
        let n = signal.len();
        if n < 2 {
            return Err(DspError::EmptySignal);
        }
        let data = signal.get_data();
        let x0 = data[0].0;
        let x1 = data[1].0;
        proof {
            assert(s[0] == (data@[0].0@, data@[0].1@));
            assert(s[1] == (data@[1].0@, data@[1].1@));
            assert(rat_lt(s[0].0, s[1].0));
            lemma_rat_lt_sub_pos(s[0].0, s[1].0);
        }
        let period = match x1.checked_sub(&x0) {
            Some(v) => v,
            None => {
                return Err(DspError::NumericOverflow);
            },
        };
        let rate = match Rational::one().checked_div(&period) {
            Some(v) => v,
            None => {
                return Err(DspError::NumericOverflow);
            },
        };
        let n_rat = Rational::from_int(n as i64);
        let resolution = match rate.checked_div(&n_rat) {
            Some(v) => v,
            None => {
                return Err(DspError::NumericOverflow);
            },
        };
        proof {
            assert(resolution@ == resolution_spec(s));
            assert(resolution@.n == period_spec(s).d) by (nonlinear_arith)
                requires
                    resolution@ == resolution_spec(s),
                    period_spec(s).n > 0,
                    rate_spec(s) == rat_div(rat_one(), period_spec(s)),
                    resolution_spec(s) == rat_div(rate_spec(s), Rat { n: s.len() as int, d: 1 }),
                    s.len() >= 2,
            ;
            assert(resolution@.n > 0);
        }
        let mut snk: Vec<Vec<ComplexNumber>> = Vec::new();
        let mut i: usize = 0;
        while i < n
            invariant
                i <= n,
                snk@.len() == i,
                forall|a: int| 0 <= a < i ==> (#[trigger] snk@[a])@.len() == n,
                forall|a: int, b: int|
                    0 <= a < i && 0 <= b < n ==> (#[trigger] snk@[a]@[b])@ == snk_cell(w, s, a, b)
                        && cplx_scale_fits(w[a], s[b].1),
            decreases n - i,
        {
            let wi = twiddles[i];
            proof {
                assert(w[i as int] == wi@);
            }
            let mut row: Vec<ComplexNumber> = Vec::new();
            let mut j: usize = 0;
            while j < n
                invariant
                    j <= n,
                    i < n,
                    wi@ == w[i as int],
                    row@.len() == j,
                    forall|b: int|
                        0 <= b < j ==> (#[trigger] row@[b])@ == snk_cell(w, s, i as int, b)
                            && cplx_scale_fits(w[i as int], s[b].1),
                decreases n - j,
            {
                let sample = data[j];
                proof {
                    assert(s[j as int] == (sample.0@, sample.1@));
                }
                let cell = match wi.checked_scale(&sample.1) {
                    Some(c) => c,
                    None => {
                        proof {
                            assert(!table_fits(w, s));
                        }
                        return Err(DspError::NumericOverflow);
                    },
                };
                row.push(cell);
                j += 1;
            }
            snk.push(row);
            i += 1;
        }
        let p = FftParams { n, snk, resolution };
        proof {
            use_type_invariant(&resolution);
            assert forall|a: int| 0 <= a < s.len() implies (#[trigger] p@.snk[a]).len()
                == s.len() by {
                assert(p@.snk[a] == cplx_seq_view(snk@[a]@));
            }
            assert forall|a: int, b: int|
                0 <= a < s.len() && 0 <= b < s.len() implies #[trigger] p@.snk[a][b] == snk_cell(
                w,
                s,
                a,
                b,
            ) by {
                assert(p@.snk[a] == cplx_seq_view(snk@[a]@));
                assert(p@.snk[a][b] == snk@[a]@[b]@);
            }
            assert forall|a: int, b: int|
                0 <= a < s.len() && 0 <= b < s.len() implies cplx_scale_fits(
                (#[trigger] w[a]),
                (#[trigger] s[b]).1,
            ) by {
                assert(snk@[a]@[b]@ == snk_cell(w, s, a, b));
            }
            assert(table_fits(w, s));
            assert(resolution_fits(s));
        }
        Ok(p)
    }
}

/// The one-sided magnitude spectrum of `signal`, written into `spectrum` (a
/// cleared signal): bins `0 .. N/2`, each a `(frequency, magnitude)` pair on
/// the exact frequency grid `i * fs / N`.  Bin `i` accumulates the table
/// cells `snk[(i*j) mod N][j]`, the DC bin is halved, and every magnitude is
/// scaled by `2/N`.  On any error `spectrum` is left unchanged.
#[verifier::loop_isolation(false)]
#[verifier::rlimit(100)]
pub fn fft(
    signal: &DescreteSignal,
    twiddles: &Vec<ComplexNumber>,
    spectrum: &mut DescreteSignal,
) -> (r: Result<(), DspError>)
    requires
        signal.wf(),
        old(spectrum).wf(),
        old(spectrum)@.len() == 0,
        twiddles@.len() == signal@.len(),
        signal@.len() <= 0x7FFF_FFFF_FFFF_FFFF,
    ensures
        r is Ok <==> (signal@.len() >= 2 && fft_fits(cplx_seq_view(twiddles@), signal@)),
        r is Ok ==> ({
            let s = signal@;
            let w = cplx_seq_view(twiddles@);
            &&& final(spectrum)@.len() == s.len() / 2
            &&& (forall|i: int|
                0 <= i < s.len() / 2 ==> #[trigger] final(spectrum)@[i] == (
                    spectrum_freq(s, i),
                    spectrum_mag(w, s, i),
                ))
            &&& final(spectrum).wf()
        }),
        r is Err ==> final(spectrum)@ == old(spectrum)@ && final(spectrum).wf(),
        signal@.len() < 2 ==> r == Err::<(), DspError>(DspError::EmptySignal),
        signal@.len() >= 2 && !fft_fits(cplx_seq_view(twiddles@), signal@) ==> r == Err::<
            (),
            DspError,
        >(DspError::NumericOverflow),
{
    let ghost s = signal@;
    let ghost w = cplx_seq_view(twiddles@);
    let params = match FftParams::new(signal, twiddles) {
        Ok(p) => p,
        Err(e) => {
            return Err(e);
        },
    };
    let n = params.n;
    let half_n = n / 2;
    let scale = Rational::new(2, n as i64);
    let half = Rational::new(1, 2);
    let mut out = DescreteSignal::new();
    let mut x = Rational::zero();
    let mut i: usize = 0;
    while i < half_n
        invariant
            i <= half_n,
            x@ == spectrum_freq(s, i as int),
            out.wf(),
            out@.len() == i,
            forall|k: int|
                0 <= k < i ==> #[trigger] out@[k] == (spectrum_freq(s, k), spectrum_mag(w, s, k)),
            i > 0 ==> rat_lt(out@.last().0, x@),
            forall|k: int| 0 <= k < i ==> bin_all_fits(w, s, k),
            forall|k: int| 1 <= k <= i ==> i64_fits(#[trigger] (k * resolution_spec(s).n)),
        decreases half_n - i,
    {
        let mut y = ComplexNumber::default();
        let mut j: usize = 0;
        while j < n
            invariant
                j <= n,
                i < half_n,
                y@ == bin_partial(w, s, i as int, j as int),
                bin_fits(w, s, i as int, j as int),
            decreases n - j,
        {
            proof {
                assert((i as int) * (j as int) <= (0xFFFF_FFFF_FFFF_FFFF
                    * 0xFFFF_FFFF_FFFF_FFFF)) by (nonlinear_arith)
                    requires
                        0 <= i as int <= 0xFFFF_FFFF_FFFF_FFFF,
                        0 <= j as int <= 0xFFFF_FFFF_FFFF_FFFF,
                ;
            }
            let idx = (((i as u128) * (j as u128)) % (n as u128)) as usize;
            proof {
                assert(idx as int == ((i as int) * (j as int)) % (n as int));
                assert(idx < n);
                assert(params@.snk[idx as int] == cplx_seq_view(params.snk@[idx as int]@));
            }
            let row = &params.snk[idx];
            proof {
                assert(cplx_seq_view(row@).len() == n);
            }
            let cell = row[j];
            proof {
                assert(cell@ == cplx_seq_view(row@)[j as int]);
                assert(cell@ == params@.snk[idx as int][j as int]);
                assert(cell@ == snk_cell(w, s, ((i as int) * (j as int)) % (n as int), j as int));
            }
            y = match y.checked_add(&cell) {
                Some(v) => v,
                None => {
                    proof {
                        assert(!bin_fits(w, s, i as int, j + 1));
                        if bin_fits(w, s, i as int, s.len() as int) {
                            lemma_bin_fits_mono(w, s, i as int, j + 1, s.len() as int);
                        }
                        assert(!bin_all_fits(w, s, i as int));
                    }
                    return Err(DspError::NumericOverflow);
                },
            };
            j += 1;
        }
        if i == 0 {
            y = match y.checked_scale(&half) {
                Some(v) => v,
                None => {
                    proof {
                        assert(!bin_all_fits(w, s, 0));
                    }
                    return Err(DspError::NumericOverflow);
                },
            };
        }
        proof {
            assert(y@ == bin_value(w, s, i as int));
        }
        let mag = match y.module() {
            Some(m) => m,
            None => {
                proof {
                    assert(!bin_all_fits(w, s, i as int));
                }
                return Err(DspError::NumericOverflow);
            },
        };
        proof {
            lemma_module_val(y@, mag@);
        }
        let val = match mag.checked_mul(&scale) {
            Some(v) => v,
            None => {
                proof {
                    assert(!bin_all_fits(w, s, i as int));
                }
                return Err(DspError::NumericOverflow);
            },
        };
        out.push(x, val);
        let x_next = match x.checked_add(&params.resolution) {
            Some(v) => v,
            None => {
                proof {
                    lemma_freq_step(s, i as int);
                    assert(!i64_fits((i + 1) * resolution_spec(s).n));
                    assert(!freq_fits(s));
                }
                return Err(DspError::NumericOverflow);
            },
        };
        proof {
            use_type_invariant(&x);
            lemma_rat_add_pos_increases(x@, params.resolution@);
            lemma_freq_step(s, i as int);
        }
        x = x_next;
        i += 1;
    }
    *spectrum = out;
    Ok(())
}

proof fn lemma_dc_partial(w: Seq<Cplx>, s: Seq<(Rat, Rat)>, v: Rat, j: int)
    requires
        s.len() >= 1,
        w.len() >= 1,
        w[0] == (Cplx { re: rat_one(), im: Rat { n: 0, d: 1 } }),
        rat_wf(v),
        forall|i: int| 0 <= i < s.len() ==> (#[trigger] s[i]).1 == v,
        0 <= j <= s.len(),
    ensures
        j >= 1 ==> bin_partial(w, s, 0, j) == (Cplx {
            re: Rat { n: j * v.n, d: v.d },
            im: Rat { n: 0, d: v.d },
        }),
    decreases j,
{
    let n = s.len() as int;
    if j == 1 {
        assert(bin_partial(w, s, 0, 0) == cplx_zero());
        assert((0int * 0) % n == 0);
        assert(bin_partial(w, s, 0, 1) == cplx_add(cplx_zero(), snk_cell(w, s, 0, 0)));
        assert(bin_partial(w, s, 0, 1) == (Cplx {
            re: Rat { n: 1 * v.n, d: v.d },
            im: Rat { n: 0, d: v.d },
        }));
    } else if j > 1 {
        lemma_dc_partial(w, s, v, j - 1);
        assert((0int * (j - 1)) % n == 0);
        assert(bin_partial(w, s, 0, j) == cplx_add(
            bin_partial(w, s, 0, j - 1),
            snk_cell(w, s, 0, j - 1),
        ));
        assert((j - 1) * v.n + 1 * v.n == j * v.n) by (nonlinear_arith);
        assert(bin_partial(w, s, 0, j) == (Cplx {
            re: Rat { n: j * v.n, d: v.d },
            im: Rat { n: 0, d: v.d },
        }));
    }
}

/// The spectrum's DC bin of a constant signal is exactly the constant's
/// absolute value: with the zeroth twiddle factor exactly `1 + i0`, bin 0
/// accumulates `N` copies of the constant, is halved, has an exactly zero
/// imaginary part — so its modulus is exact — and the `2/N` scale brings it
/// back to the constant.
pub proof fn lemma_dc_of_constant(w: Seq<Cplx>, s: Seq<(Rat, Rat)>, v: Rat)
    requires
        s.len() >= 2,
        w.len() >= 1,
        w[0] == (Cplx { re: rat_one(), im: Rat { n: 0, d: 1 } }),
        rat_wf(v),
        forall|i: int| 0 <= i < s.len() ==> (#[trigger] s[i]).1 == v,
    ensures
        rat_eq(spectrum_mag(w, s, 0), crate::rational::rat_abs(v)),
{
    let n = s.len() as int;
    lemma_dc_partial(w, s, v, n);
    let p = bin_partial(w, s, 0, n);
    let bv = bin_value(w, s, 0);
    assert(bv.re == Rat { n: n * v.n * 1, d: v.d * 2 });
    assert(bv.im == Rat { n: 0int * 1, d: v.d * 2 });
    assert(rat_eq(bv.im, rat_zero()));
    let m = crate::rational::rat_abs(bv.re);
    assert(module_spec(bv, m));
    lemma_module_val(bv, m);
    let mag = spectrum_mag(w, s, 0);
    let v_abs = crate::rational::rat_abs(v);
    assert((n * v.n * 1 < 0) == (v.n < 0)) by (nonlinear_arith)
        requires
            n >= 2,
    ;
    if v.n < 0 {
        assert(mag == rat_mul(Rat { n: -(n * v.n * 1), d: v.d * 2 }, Rat { n: 2, d: n }));
        assert(mag.n * v_abs.d == v_abs.n * mag.d) by (nonlinear_arith)
            requires
                mag.n == -(n * v.n * 1) * 2,
                mag.d == (v.d * 2) * n,
                v_abs.n == -v.n,
                v_abs.d == v.d,
        ;
    } else {
        assert(mag == rat_mul(Rat { n: n * v.n * 1, d: v.d * 2 }, Rat { n: 2, d: n }));
        assert(mag.n * v_abs.d == v_abs.n * mag.d) by (nonlinear_arith)
            requires
                mag.n == (n * v.n * 1) * 2,
                mag.d == (v.d * 2) * n,
                v_abs.n == v.n,
                v_abs.d == v.d,
        ;
    }
}

/// Adding the resolution to bin `i`'s frequency gives bin `i + 1`'s.
proof fn lemma_freq_step(s: Seq<(Rat, Rat)>, i: int)
    requires
        i >= 0,
        rat_wf(resolution_spec(s)),
    ensures
        rat_add(spectrum_freq(s, i), resolution_spec(s)) == spectrum_freq(s, i + 1),
{
    let res = resolution_spec(s);
    if i == 0 {
        assert(rat_add(spectrum_freq(s, 0), res) == spectrum_freq(s, 1)) by (nonlinear_arith)
            requires
                res.d > 0,
                spectrum_freq(s, 0) == (Rat { n: 0, d: 1 }),
                spectrum_freq(s, 1) == (Rat { n: 1 * res.n, d: res.d }),
                rat_add(spectrum_freq(s, 0), res) == (if res.d == 1 {
                    Rat { n: 0 + res.n, d: 1 }
                } else {
                    Rat { n: 0 * res.d + res.n * 1, d: 1 * res.d }
                }),
        ;
    } else {
        assert(i * res.n + res.n == (i + 1) * res.n) by (nonlinear_arith);
        assert(rat_add(spectrum_freq(s, i), res) == spectrum_freq(s, i + 1));
    }
}

} // verus!
