//! DSP-ADPCM frame encoder.
//!
//! A frame carries 14 samples in 8 bytes: a header byte (predictor index in the high
//! nibble, scale exponent in the low nibble) followed by fourteen signed 4-bit
//! residuals. The encoder tries each of the eight coefficient pairs, searches a scale
//! for it, and keeps the pair whose reconstruction has the smallest squared error.
use vstd::prelude::*;

verus! {

/// One second-order predictor: `[c0, c1]`, applied as `(h1 * c0 + h2 * c1) / 2048`.
pub type CoefPair = [i16; 2];

/// The eight predictors of a stream.
pub type Coefs = [CoefPair; 8];

// ── Arithmetic model ────────────────────────────────────────────────────────

pub open spec fn clamp_i16(x: int) -> int {
    if x < -32768 {
        -32768
    } else if x > 32767 {
        32767
    } else {
        x
    }
}

pub open spec fn magnitude(x: int) -> int {
    if x < 0 {
        -x
    } else {
        x
    }
}

/// Division rounding toward zero, as integer `/` does in Rust.
pub open spec fn trunc_div(a: int, d: int) -> int {
    if a >= 0 {
        a / d
    } else {
        -((-a) / d)
    }
}

pub open spec fn fits_i32(x: int) -> bool {
    i32::MIN <= x <= i32::MAX
}

pub open spec fn is_i16(x: int) -> bool {
    -32768 <= x <= 32767
}

/// The quantizer step for a scale exponent: `2^scale`.
pub open spec fn step_size(scale: nat) -> int
    decreases scale,
{
    if scale == 0 {
        1
    } else {
        2 * step_size((scale - 1) as nat)
    }
}

/// `resid / 2^scale` rounded to the nearest integer, halves rounded toward zero.
///
/// Residuals stay within 2^21 and steps are powers of two up to 2^12, so this is exactly
/// the result of dividing in `f64`, adding 0.4999999 (subtracting it for `resid <= 0`) and
/// truncating toward zero: the quotient is exact, and a fraction of 2^-12 or more above
/// one half is the smallest that reaches the next integer.
pub open spec fn quantize(resid: int, scale: nat) -> int {
    let st = step_size(scale);
    if resid > 0 {
        (2 * resid + st - 1) / (2 * st)
    } else {
        -((-2 * resid + st - 1) / (2 * st))
    }
}

/// A quantized residual limited to the 4-bit range `-8..=7`.
pub open spec fn clamp_nibble(q: int) -> int {
    if q < -8 {
        -8
    } else if q > 7 {
        7
    } else {
        q
    }
}

/// How far a quantized residual lies outside `-8..=7`.
pub open spec fn overshoot(q: int) -> int {
    if q < -8 {
        -8 - q
    } else if q > 7 {
        q - 7
    } else {
        0
    }
}

/// The predictor sum (in units of 1/2048) from the two previous samples.
pub open spec fn predict(h2: int, h1: int, c0: int, c1: int) -> int {
    h2 * c1 + h1 * c0
}

/// The residual of sample `x` against a prediction, in sample units.
pub open spec fn residual(x: int, pred: int) -> int {
    trunc_div(x * 2048 - pred, 2048)
}

pub open spec fn recon_sum(pred: int, nib: int, scale: nat) -> int {
    pred + nib * step_size(scale) * 2048
}

/// The sample a decoder produces from a prediction and a residual nibble.
pub open spec fn reconstruct(pred: int, nib: int, scale: nat) -> int {
    clamp_i16((recon_sum(pred, nib, scale) + 1024) / 2048)
}

pub open spec fn coef0(coefs: Coefs, i: int) -> int {
    coefs[i][0] as int
}

pub open spec fn coef1(coefs: Coefs, i: int) -> int {
    coefs[i][1] as int
}

pub open spec fn pcm_ints(pcm: Seq<i16>) -> Seq<int> {
    pcm.map_values(|v: i16| v as int)
}

pub open spec fn all_i16(s: Seq<int>) -> bool {
    forall|j: int| 0 <= j < s.len() ==> is_i16(#[trigger] s[j])
}

// ── Scale estimate ──────────────────────────────────────────────────────────

/// The clamped error of the coarse prediction of sample `j` (index `j + 2` of `pcm`).
pub open spec fn coarse_error(pcm: Seq<int>, c0: int, c1: int, j: int) -> int {
    clamp_i16(pcm[j + 2] - trunc_div(predict(pcm[j], pcm[j + 1], c0, c1), 2048))
}

/// The coarse error of largest magnitude among the first `k` samples (the first one wins ties).
pub open spec fn peak_error(pcm: Seq<int>, c0: int, c1: int, k: nat) -> int
    decreases k,
{
    if k == 0 {
        0
    } else {
        let d = peak_error(pcm, c0, c1, (k - 1) as nat);
        let e = coarse_error(pcm, c0, c1, k - 1);
        if magnitude(e) > magnitude(d) {
            e
        } else {
            d
        }
    }
}

/// Number of halvings (counted from `t`, at most up to 13) that bring `d` into `-8..=7`.
pub open spec fn scale_steps(d: int, t: int) -> int
    decreases 13 - t,
{
    if t <= 12 && !(-8 <= d <= 7) {
        scale_steps(trunc_div(d, 2), t + 1)
    } else {
        t
    }
}

/// The scale of the first quantization pass.
pub open spec fn first_scale(pcm: Seq<int>, n: nat, c0: int, c1: int) -> int {
    let t = scale_steps(peak_error(pcm, c0, c1, n), 0);
    if t <= 1 {
        0
    } else {
        t - 1
    }
}

pub open spec fn peak_fits(pcm: Seq<int>, n: nat, c0: int, c1: int) -> bool {
    forall|j: int| 0 <= j < n ==> fits_i32(#[trigger] predict(pcm[j], pcm[j + 1], c0, c1))
}

// ── Quantization pass ───────────────────────────────────────────────────────

/// State after quantizing the first `k` samples at `scale`:
/// `.0` the history (`.0[0..2]` the previous two samples, `.0[j + 2]` reconstructed sample `j`),
/// `.1` the residual nibbles, `.2` the largest overshoot, `.3` the squared reconstruction error.
pub open spec fn pass(pcm: Seq<int>, c0: int, c1: int, scale: nat, k: nat) -> (
    Seq<int>,
    Seq<int>,
    int,
    int,
)
    decreases k,
{
    if k == 0 {
        (seq![pcm[0], pcm[1]], Seq::<int>::empty(), 0, 0)
    } else {
        let prev = pass(pcm, c0, c1, scale, (k - 1) as nat);
        let j = k - 1;
        let h = prev.0;
        let pred = predict(h[j], h[j + 1], c0, c1);
        let x = pcm[j + 2];
        let q = quantize(residual(x, pred), scale);
        let nib = clamp_nibble(q);
        let y = reconstruct(pred, nib, scale);
        let over = overshoot(q);
        (
            h.push(y),
            prev.1.push(nib),
            if prev.2 < over {
                over
            } else {
                prev.2
            },
            prev.3 + (x - y) * (x - y),
        )
    }
}

/// Every intermediate of quantizing sample `k - 1` (and those before it) fits in `i32`.
pub open spec fn pass_fits(pcm: Seq<int>, c0: int, c1: int, scale: nat, k: nat) -> bool
    decreases k,
{
    if k == 0 {
        true
    } else {
        let prev = pass(pcm, c0, c1, scale, (k - 1) as nat);
        let j = k - 1;
        let h = prev.0;
        let pred = predict(h[j], h[j + 1], c0, c1);
        let x = pcm[j + 2];
        let nib = clamp_nibble(quantize(residual(x, pred), scale));
        &&& pass_fits(pcm, c0, c1, scale, (k - 1) as nat)
        &&& fits_i32(pred)
        &&& fits_i32(x * 2048 - pred)
        &&& fits_i32(recon_sum(pred, nib, scale))
        &&& fits_i32(recon_sum(pred, nib, scale) + 1024)
    }
}

/// Number of halvings that bring `x` down to 256 or below.
pub open spec fn halvings(x: int) -> nat
    decreases x,
{
    if x > 256 {
        1 + halvings(x / 2)
    } else {
        0
    }
}

/// The scale after raising it once per halving, with 12 knocked back to 11.
pub open spec fn adjust_scale(scale: int, k: nat) -> int {
    if k == 0 {
        scale
    } else if scale + k <= 11 {
        scale + k
    } else {
        11
    }
}

/// The scale search for one predictor, starting with a pass at `scale`:
/// `.0` the final scale, `.1` the final pass, `.2` whether the search cycles forever.
pub open spec fn search(pcm: Seq<int>, n: nat, c0: int, c1: int, scale: int) -> (
    int,
    (Seq<int>, Seq<int>, int, int),
    bool,
)
    decreases 13 - scale,
{
    if !(0 <= scale <= 12) {
        (scale, pass(pcm, c0, c1, 0, n), true)
    } else {
        let st = pass(pcm, c0, c1, scale as nat, n);
        let sc = adjust_scale(scale, halvings(st.2 + 8));
        if !(sc < 12 && st.2 > 1) {
            (sc, st, false)
        } else if scale >= 12 {
            (sc, st, true)
        } else {
            search(pcm, n, c0, c1, sc + 1)
        }
    }
}

/// The scale search terminates and no pass in it leaves `i32`.
pub open spec fn search_ok(pcm: Seq<int>, n: nat, c0: int, c1: int, scale: int) -> bool
    decreases 13 - scale,
{
    if !(0 <= scale <= 12) {
        false
    } else {
        let st = pass(pcm, c0, c1, scale as nat, n);
        let sc = adjust_scale(scale, halvings(st.2 + 8));
        &&& pass_fits(pcm, c0, c1, scale as nat, n)
        &&& if !(sc < 12 && st.2 > 1) {
            true
        } else if scale >= 12 {
            false
        } else {
            search_ok(pcm, n, c0, c1, sc + 1)
        }
    }
}

/// The outcome of the scale search for predictor `i`.
pub open spec fn candidate(pcm: Seq<int>, n: nat, coefs: Coefs, i: int) -> (
    int,
    (Seq<int>, Seq<int>, int, int),
    bool,
) {
    let c0 = coef0(coefs, i);
    let c1 = coef1(coefs, i);
    search(pcm, n, c0, c1, first_scale(pcm, n, c0, c1))
}

pub open spec fn candidate_error(pcm: Seq<int>, n: nat, coefs: Coefs, i: int) -> int {
    candidate(pcm, n, coefs, i).1.3
}

/// Predictor `i` can be tried on this frame without overflow or endless search.
pub open spec fn candidate_ok(pcm: Seq<int>, n: nat, coefs: Coefs, i: int) -> bool {
    let c0 = coef0(coefs, i);
    let c1 = coef1(coefs, i);
    peak_fits(pcm, n, c0, c1) && search_ok(pcm, n, c0, c1, first_scale(pcm, n, c0, c1))
}

/// The frame `pcm` (two history samples, then 14 input samples) can be encoded
/// with `n` live samples: every predictor can be tried.
pub open spec fn frame_encodable(pcm: Seq<int>, n: nat, coefs: Coefs) -> bool {
    &&& pcm.len() == 16
    &&& all_i16(pcm)
    &&& n <= 14
    &&& forall|i: int| 0 <= i < 8 ==> candidate_ok(pcm, n, coefs, i)
}

/// The first predictor with the least squared error among predictors `0..k`.
pub open spec fn best_upto(pcm: Seq<int>, n: nat, coefs: Coefs, k: int) -> int
    decreases k,
{
    if k <= 1 {
        0
    } else {
        let b = best_upto(pcm, n, coefs, k - 1);
        if candidate_error(pcm, n, coefs, k - 1) < candidate_error(pcm, n, coefs, b) {
            k - 1
        } else {
            b
        }
    }
}

pub open spec fn best_predictor(pcm: Seq<int>, n: nat, coefs: Coefs) -> int {
    best_upto(pcm, n, coefs, 8)
}

/// The nibble the frame carries for sample `j`: zero past the live samples.
pub open spec fn frame_nibble_value(pcm: Seq<int>, n: nat, coefs: Coefs, j: int) -> int {
    if j < n {
        candidate(pcm, n, coefs, best_predictor(pcm, n, coefs)).1.1[j]
    } else {
        0
    }
}

/// A nibble in `-8..=7` as its 4-bit two's-complement code.
pub open spec fn nibble_code(v: int) -> int {
    if v < 0 {
        v + 16
    } else {
        v
    }
}

/// The eight bytes of the encoded frame.
#[verifier::opaque]
pub open spec fn frame_bytes(pcm: Seq<int>, n: nat, coefs: Coefs) -> Seq<u8> {
    let b = best_predictor(pcm, n, coefs);
    let sc = candidate(pcm, n, coefs, b).0;
    Seq::new(
        8,
        |k: int|
            if k == 0 {
                (b * 16 + sc) as u8
            } else {
                (16 * nibble_code(frame_nibble_value(pcm, n, coefs, 2 * k - 2)) + nibble_code(
                    frame_nibble_value(pcm, n, coefs, 2 * k - 1),
                )) as u8
            },
    )
}

/// The sample buffer after encoding: the live samples replaced by their reconstruction.
#[verifier::opaque]
pub open spec fn frame_output(pcm: Seq<int>, n: nat, coefs: Coefs) -> Seq<int> {
    let h = candidate(pcm, n, coefs, best_predictor(pcm, n, coefs)).1.0;
    Seq::new(16, |j: int| if j < n + 2 { h[j] } else { pcm[j] })
}


// ── Facts about the model ───────────────────────────────────────────────────

proof fn lemma_step_size_bounds(scale: nat)
    requires
        scale <= 12,
    ensures
        1 <= step_size(scale) <= 4096,
    decreases scale,
{
    if scale > 0 {
        lemma_step_size_bounds((scale - 1) as nat);
        if scale == 12 {
            reveal_with_fuel(step_size, 13);
        } else {
            lemma_step_size_below(scale);
        }
    }
}

proof fn lemma_step_size_below(scale: nat)
    requires
        scale <= 11,
    ensures
        step_size(scale) <= 2048,
    decreases scale,
{
    if scale > 0 {
        if scale == 11 {
            reveal_with_fuel(step_size, 12);
        } else {
            lemma_step_size_half(scale);
        }
    }
}

proof fn lemma_step_size_half(scale: nat)
    requires
        scale <= 10,
    ensures
        step_size(scale) <= 1024,
    decreases scale,
{
    reveal_with_fuel(step_size, 11);
    if scale > 0 {
        lemma_step_size_half((scale - 1) as nat);
    }
}

/// Shape of a pass: lengths, and every value stays in its range.
proof fn lemma_pass_shape(pcm: Seq<int>, c0: int, c1: int, scale: nat, k: nat)
    requires
        pcm.len() == 16,
        all_i16(pcm),
        k <= 14,
        scale <= 12,
    ensures
        pass(pcm, c0, c1, scale, k).0.len() == k + 2,
        pass(pcm, c0, c1, scale, k).1.len() == k,
        all_i16(pass(pcm, c0, c1, scale, k).0),
        pass(pcm, c0, c1, scale, k).0[0] == pcm[0],
        pass(pcm, c0, c1, scale, k).0[1] == pcm[1],
        forall|j: int|
            0 <= j < k ==> -8 <= #[trigger] pass(pcm, c0, c1, scale, k).1[j] <= 7,
        0 <= pass(pcm, c0, c1, scale, k).2,
        0 <= pass(pcm, c0, c1, scale, k).3 <= k * 4294836225,
    decreases k,
{
    if k > 0 {
        lemma_pass_shape(pcm, c0, c1, scale, (k - 1) as nat);
        let prev = pass(pcm, c0, c1, scale, (k - 1) as nat);
        let j = k - 1;
        let h = prev.0;
        let pred = predict(h[j], h[j + 1], c0, c1);
        let x = pcm[j + 2];
        let q = quantize(residual(x, pred), scale);
        let y = reconstruct(pred, clamp_nibble(q), scale);
        assert(is_i16(x));
        assert((x - y) * (x - y) <= 4294836225) by (nonlinear_arith)
            requires
                -32768 <= x <= 32767,
                -32768 <= y <= 32767,
        ;
        assert(0 <= (x - y) * (x - y)) by (nonlinear_arith);
        assert((k - 1) * 4294836225 + 4294836225 == k * 4294836225) by (nonlinear_arith);
        let cur = pass(pcm, c0, c1, scale, k);
        assert(cur.0 == h.push(y));
        assert(cur.0[0] == h[0] && cur.0[1] == h[1]);
        assert forall|i: int| 0 <= i < cur.0.len() implies is_i16(#[trigger] cur.0[i]) by {
            if i < h.len() {
                assert(cur.0[i] == h[i]);
            }
        }
        assert forall|i: int| 0 <= i < k implies -8 <= #[trigger] cur.1[i] <= 7 by {
            if i < k - 1 {
                assert(cur.1[i] == prev.1[i]);
            }
        }
    }
}

proof fn lemma_pass_fits_prefix(pcm: Seq<int>, c0: int, c1: int, scale: nat, k: nat, j: nat)
    requires
        j <= k,
        pass_fits(pcm, c0, c1, scale, k),
    ensures
        pass_fits(pcm, c0, c1, scale, j),
    decreases k,
{
    if j < k {
        lemma_pass_fits_prefix(pcm, c0, c1, scale, (k - 1) as nat, j);
    }
}


/// A search that terminates ends on a scale in `0..=12`, and its pass is the pass at that scale.
proof fn lemma_search_done(pcm: Seq<int>, n: nat, c0: int, c1: int, scale: int)
    requires
        search_ok(pcm, n, c0, c1, scale),
    ensures
        !search(pcm, n, c0, c1, scale).2,
        0 <= search(pcm, n, c0, c1, scale).0 <= 12,
        search(pcm, n, c0, c1, scale).1 == pass(
            pcm,
            c0,
            c1,
            search(pcm, n, c0, c1, scale).0 as nat,
            n,
        ),
        pass_fits(pcm, c0, c1, search(pcm, n, c0, c1, scale).0 as nat, n),
    decreases 13 - scale,
{
    let st = pass(pcm, c0, c1, scale as nat, n);
    let k = halvings(st.2 + 8);
    let sc = adjust_scale(scale, k);
    if sc < 12 && st.2 > 1 {
        lemma_search_done(pcm, n, c0, c1, sc + 1);
    } else {
        if k > 0 {
            assert(st.2 + 8 > 256);
        }
    }
}

/// Every predictor pair has `|c0| + |c1| <= 63360`. Pairs computed by coefficient analysis
/// lie within `|c0| <= 4096`, `|c1| <= 2048`, far inside this bound.
pub open spec fn coefs_bounded(coefs: Coefs) -> bool {
    forall|i: int|
        0 <= i < 8 ==> magnitude(#[trigger] coef0(coefs, i)) + magnitude(coef1(coefs, i)) <= 63360
}

proof fn lemma_predict_bound(h2: int, h1: int, c0: int, c1: int)
    requires
        is_i16(h2),
        is_i16(h1),
        magnitude(c0) + magnitude(c1) <= 63360,
    ensures
        -2076180480 <= predict(h2, h1, c0, c1) <= 2076180480,
{
    assert(magnitude(h2 * c1) <= 32768 * magnitude(c1)) by (nonlinear_arith)
        requires
            -32768 <= h2 <= 32767,
    ;
    assert(magnitude(h1 * c0) <= 32768 * magnitude(c0)) by (nonlinear_arith)
        requires
            -32768 <= h1 <= 32767,
    ;
}

proof fn lemma_scale_steps_range(d: int, t: int)
    requires
        0 <= t <= 13,
    ensures
        t <= scale_steps(d, t) <= 13,
    decreases 13 - t,
{
    if t <= 12 && !(-8 <= d <= 7) {
        lemma_scale_steps_range(trunc_div(d, 2), t + 1);
    }
}

/// With bounded coefficients every pass stays in `i32`, and at scale 12 no residual
/// overshoots the nibble range by more than 248.
proof fn lemma_bounded_pass(pcm: Seq<int>, c0: int, c1: int, scale: nat, k: nat)
    requires
        pcm.len() == 16,
        all_i16(pcm),
        k <= 14,
        scale <= 12,
        magnitude(c0) + magnitude(c1) <= 63360,
    ensures
        pass_fits(pcm, c0, c1, scale, k),
        scale == 12 ==> pass(pcm, c0, c1, scale, k).2 <= 248,
    decreases k,
{
    if k > 0 {
        lemma_bounded_pass(pcm, c0, c1, scale, (k - 1) as nat);
        lemma_pass_shape(pcm, c0, c1, scale, (k - 1) as nat);
        lemma_step_size_bounds(scale);
        let prev = pass(pcm, c0, c1, scale, (k - 1) as nat);
        let j = k - 1;
        let h = prev.0;
        let pred = predict(h[j], h[j + 1], c0, c1);
        let x = pcm[j + 2];
        assert(is_i16(h[j]) && is_i16(h[j + 1]) && is_i16(x));
        lemma_predict_bound(h[j], h[j + 1], c0, c1);
        let r = residual(x, pred);
        let num = x * 2048 - pred;
        assert(-2143289344 <= num <= 2143289344);
        assert(-1046528 <= r <= 1046528) by (nonlinear_arith)
            requires
                -2143289344 <= num <= 2143289344,
                r == trunc_div(num, 2048),
        ;
        let q = quantize(r, scale);
        let nib = clamp_nibble(q);
        let st = step_size(scale);
        assert(-67108864 <= nib * st * 2048 <= 67108864) by (nonlinear_arith)
            requires
                -8 <= nib <= 7,
                1 <= st <= 4096,
        ;
        if scale == 12 {
            reveal_with_fuel(step_size, 13);
            assert(st == 4096);
            assert(-255 <= q <= 255) by (nonlinear_arith)
                requires
                    -1046528 <= r <= 1046528,
                    q == (if r > 0 {
                        (2 * r + 4095) / 8192int
                    } else {
                        -((-2 * r + 4095) / 8192int)
                    }),
            ;
        }
    }
}

/// With bounded coefficients the scale search from any scale in `0..=12` terminates without overflow.
proof fn lemma_bounded_search(pcm: Seq<int>, n: nat, c0: int, c1: int, scale: int)
    requires
        pcm.len() == 16,
        all_i16(pcm),
        n <= 14,
        0 <= scale <= 12,
        magnitude(c0) + magnitude(c1) <= 63360,
    ensures
        search_ok(pcm, n, c0, c1, scale),
    decreases 13 - scale,
{
    lemma_bounded_pass(pcm, c0, c1, scale as nat, n);
    let st = pass(pcm, c0, c1, scale as nat, n);
    let k = halvings(st.2 + 8);
    let sc = adjust_scale(scale, k);
    if scale == 12 {
        assert(k == 0);
    } else if sc < 12 && st.2 > 1 {
        lemma_bounded_search(pcm, n, c0, c1, sc + 1);
    }
}

/// Frames of valid samples can always be encoded with bounded coefficients.
pub proof fn lemma_bounded_coefs_encodable(pcm: Seq<int>, n: nat, coefs: Coefs)
    requires
        pcm.len() == 16,
        all_i16(pcm),
        n <= 14,
        coefs_bounded(coefs),
    ensures
        frame_encodable(pcm, n, coefs),
{
    assert forall|i: int| 0 <= i < 8 implies candidate_ok(pcm, n, coefs, i) by {
        let c0 = coef0(coefs, i);
        let c1 = coef1(coefs, i);
        assert(magnitude(c0) + magnitude(c1) <= 63360);
        assert forall|j: int| 0 <= j < n implies fits_i32(
            #[trigger] predict(pcm[j], pcm[j + 1], c0, c1),
        ) by {
            lemma_predict_bound(pcm[j], pcm[j + 1], c0, c1);
        }
        lemma_scale_steps_range(peak_error(pcm, c0, c1, n), 0);
        lemma_bounded_search(pcm, n, c0, c1, first_scale(pcm, n, c0, c1));
    }
}

// ── Executable pieces ───────────────────────────────────────────────────────

/// `2^scale`.
fn step_for(scale: i32) -> (r: i32)
    requires
        0 <= scale <= 12,
    ensures
        r == step_size(scale as nat),
        1 <= r <= 4096,
{
    let mut r: i32 = 1;
    let mut k: i32 = 0;
    while k < scale
        invariant
            0 <= k <= scale <= 12,
            r == step_size(k as nat),
        decreases scale - k,
    {
        proof {
            lemma_step_size_bounds(k as nat);
        }
        r = r * 2;
        k = k + 1;
    }
    proof {
        lemma_step_size_bounds(scale as nat);
    }
    r
}

/// Division by 2048 rounding toward negative infinity (an arithmetic shift right by 11).
fn floor_div_2048(t: i32) -> (r: i32)
    ensures
        r == (t as int) / 2048,
{
    if t >= 0 {
        t / 2048
    } else {
        let u: i32 = -(t + 1);
        let q: i32 = u / 2048;
        assert(-(q as int) - 1 == (t as int) / 2048) by (nonlinear_arith)
            requires
                t < 0,
                u == -(t + 1),
                q == u / 2048,
        ;
        -q - 1
    }
}

/// A residual divided by the quantizer step and rounded (halves toward zero).
fn quantize_residual(resid: i32, scale: i32, step: i32) -> (q: i32)
    requires
        -1048576 <= resid <= 1048576,
        0 <= scale <= 12,
        step == step_size(scale as nat),
        1 <= step <= 4096,
    ensures
        q == quantize(resid as int, scale as nat),
        -1048576 <= q <= 1048576,
{
    if resid > 0 {
        let num: i32 = 2 * resid + step - 1;
        let den: i32 = 2 * step;
        let q: i32 = num / den;
        assert(q <= resid) by (nonlinear_arith)
            requires
                resid > 0,
                num == 2 * resid + step - 1,
                den == 2 * step,
                step >= 1,
                q == num / den,
        ;
        q
    } else {
        let num: i32 = -2 * resid + step - 1;
        let den: i32 = 2 * step;
        let q: i32 = num / den;
        assert(q <= -resid) by (nonlinear_arith)
            requires
                resid <= 0,
                num == -2 * resid + step - 1,
                den == 2 * step,
                step >= 1,
                q == num / den,
        ;
        assert(q >= 0) by (nonlinear_arith)
            requires
                num >= 0,
                den >= 1,
                q == num / den,
        ;
        -q
    }
}

/// One quantization pass of the live samples at `scale`.
/// Returns the history buffer, the nibbles, the largest overshoot and the squared error.
fn run_pass(pcm: &[i16; 16], n: usize, c0: i32, c1: i32, scale: i32) -> (res: (
    [i32; 16],
    [i32; 14],
    i32,
    u64,
))
    requires
        n <= 14,
        0 <= scale <= 12,
        is_i16(c0 as int),
        is_i16(c1 as int),
        pass_fits(pcm_ints(pcm@), c0 as int, c1 as int, scale as nat, n as nat),
    ensures
        ({
            let st = pass(pcm_ints(pcm@), c0 as int, c1 as int, scale as nat, n as nat);
            &&& forall|j: int| 0 <= j < n + 2 ==> res.0@[j] == st.0[j]
            &&& forall|j: int| 0 <= j < n ==> res.1@[j] == st.1[j]
            &&& res.2 == st.2
            &&& res.3 == st.3
        }),
        0 <= res.2 <= 1048576,
{
    let ghost p = pcm_ints(pcm@);
    let ghost c0i = c0 as int;
    let ghost c1i = c1 as int;
    let ghost sc = scale as nat;
    assert(all_i16(p));
    let step = step_for(scale);
    let mut hist = [0i32; 16];
    let mut nibs = [0i32; 14];
    let mut index: i32 = 0;
    let mut err: u64 = 0;
    hist[0] = pcm[0] as i32;
    hist[1] = pcm[1] as i32;
    let mut s: usize = 0;
    while s < n
        invariant
            s <= n <= 14,
            0 <= scale <= 12,
            step == step_size(sc),
            1 <= step <= 4096,
            sc == scale as nat,
            p == pcm_ints(pcm@),
            p.len() == 16,
            all_i16(p),
            is_i16(c0 as int),
            is_i16(c1 as int),
            c0i == c0 as int,
            c1i == c1 as int,
            pass_fits(p, c0i, c1i, sc, n as nat),
            forall|j: int| 0 <= j < s + 2 ==> hist@[j] == pass(p, c0i, c1i, sc, s as nat).0[j],
            forall|j: int| 0 <= j < s ==> nibs@[j] == pass(p, c0i, c1i, sc, s as nat).1[j],
            index == pass(p, c0i, c1i, sc, s as nat).2,
            err == pass(p, c0i, c1i, sc, s as nat).3,
            0 <= index <= 1048576,
        decreases n - s,
    {
        proof {
            lemma_pass_shape(p, c0i, c1i, sc, s as nat);
            lemma_pass_shape(p, c0i, c1i, sc, (s + 1) as nat);
            lemma_pass_fits_prefix(p, c0i, c1i, sc, n as nat, (s + 1) as nat);
        }
        let ghost prev = pass(p, c0i, c1i, sc, s as nat);
        let h2 = hist[s];
        let h1 = hist[s + 1];
        assert(is_i16(h2 as int) && is_i16(h1 as int));
        assert(-1073741824 <= h2 * c1 <= 1073741824) by (nonlinear_arith)
            requires
                -32768 <= h2 <= 32767,
                -32768 <= c1 <= 32767,
        ;
        assert(-1073741824 <= h1 * c0 <= 1073741824) by (nonlinear_arith)
            requires
                -32768 <= h1 <= 32767,
                -32768 <= c0 <= 32767,
        ;
        let pred = h2 * c1 + h1 * c0;
        let x = pcm[s + 2] as i32;
        assert(x as int == p[s + 2]);
        let resid = (x * 2048 - pred) / 2048;
        let q = quantize_residual(resid, scale, step);
        let nib: i32 = if q < -8 {
            -8
        } else if q > 7 {
            7
        } else {
            q
        };
        let over: i32 = if q < -8 {
            -8 - q
        } else if q > 7 {
            q - 7
        } else {
            0
        };
        if index < over {
            index = over;
        }
        assert(-32768 <= nib * step <= 32768) by (nonlinear_arith)
            requires
                -8 <= nib <= 7,
                1 <= step <= 4096,
        ;
        let total = pred + nib * step * 2048 + 1024;
        let y0 = floor_div_2048(total);
        let y: i32 = if y0 < -32768 {
            -32768
        } else if y0 > 32767 {
            32767
        } else {
            y0
        };
        hist[s + 2] = y;
        nibs[s] = nib;
        let e: i64 = (x - y) as i64;
        assert(0 <= e * e <= 4294836225) by (nonlinear_arith)
            requires
                -65535 <= e <= 65535,
        ;
        err = err + (e * e) as u64;
        proof {
            let cur = pass(p, c0i, c1i, sc, (s + 1) as nat);
            assert(cur.0 == prev.0.push(y as int));
            assert(cur.1 == prev.1.push(nib as int));
            assert forall|j: int| 0 <= j < s + 3 implies hist@[j] == cur.0[j] by {
                if j < s + 2 {
                    assert(cur.0[j] == prev.0[j]);
                }
            }
            assert forall|j: int| 0 <= j < s + 1 implies nibs@[j] == cur.1[j] by {
                if j < s {
                    assert(cur.1[j] == prev.1[j]);
                }
            }
        }
        s = s + 1;
    }
    (hist, nibs, index, err)
}


/// The coarse error of largest magnitude over the live samples.
fn peak_coarse_error(pcm: &[i16; 16], n: usize, c0: i32, c1: i32) -> (r: i32)
    requires
        n <= 14,
        is_i16(c0 as int),
        is_i16(c1 as int),
        peak_fits(pcm_ints(pcm@), n as nat, c0 as int, c1 as int),
    ensures
        r == peak_error(pcm_ints(pcm@), c0 as int, c1 as int, n as nat),
        is_i16(r as int),
{
    let ghost p = pcm_ints(pcm@);
    let mut distance: i32 = 0;
    let mut s: usize = 0;
    while s < n
        invariant
            s <= n <= 14,
            p == pcm_ints(pcm@),
            p.len() == 16,
            is_i16(c0 as int),
            is_i16(c1 as int),
            peak_fits(p, n as nat, c0 as int, c1 as int),
            distance == peak_error(p, c0 as int, c1 as int, s as nat),
            is_i16(distance as int),
        decreases n - s,
    {
        let a = pcm[s] as i32;
        let b = pcm[s + 1] as i32;
        let x = pcm[s + 2] as i32;
        assert(a as int == p[s as int] && b as int == p[s + 1] && x as int == p[s + 2]);
        assert(fits_i32(predict(p[s as int], p[s + 1], c0 as int, c1 as int)));
        assert(-1073741824 <= a * c1 <= 1073741824) by (nonlinear_arith)
            requires
                -32768 <= a <= 32767,
                -32768 <= c1 <= 32767,
        ;
        assert(-1073741824 <= b * c0 <= 1073741824) by (nonlinear_arith)
            requires
                -32768 <= b <= 32767,
                -32768 <= c0 <= 32767,
        ;
        let v1 = (a * c1 + b * c0) / 2048;
        let v2 = x - v1;
        let v3: i32 = if v2 < -32768 {
            -32768
        } else if v2 > 32767 {
            32767
        } else {
            v2
        };
        let m3: i32 = if v3 < 0 {
            -v3
        } else {
            v3
        };
        let md: i32 = if distance < 0 {
            -distance
        } else {
            distance
        };
        if m3 > md {
            distance = v3;
        }
        s = s + 1;
    }
    distance
}

/// The scale of the first quantization pass for a given peak error.
fn first_pass_scale(distance: i32) -> (r: i32)
    requires
        is_i16(distance as int),
    ensures
        r == (if scale_steps(distance as int, 0) <= 1 {
            0
        } else {
            scale_steps(distance as int, 0) - 1
        }),
        0 <= r <= 12,
{
    let mut t: i32 = 0;
    let mut d: i32 = distance;
    while t <= 12 && !(-8 <= d && d <= 7)
        invariant
            0 <= t <= 13,
            is_i16(d as int),
            scale_steps(d as int, t as int) == scale_steps(distance as int, 0),
        decreases 13 - t,
    {
        t = t + 1;
        d = d / 2;
    }
    if t <= 1 {
        0
    } else {
        t - 1
    }
}

/// Search the scale for one predictor, starting with a pass at `start`.
/// Returns the final scale, the history buffer, the nibbles and the squared error.
fn search_scale(pcm: &[i16; 16], n: usize, c0: i32, c1: i32, start: i32) -> (res: (
    i32,
    [i32; 16],
    [i32; 14],
    u64,
))
    requires
        n <= 14,
        is_i16(c0 as int),
        is_i16(c1 as int),
        search_ok(pcm_ints(pcm@), n as nat, c0 as int, c1 as int, start as int),
    ensures
        ({
            let r = search(pcm_ints(pcm@), n as nat, c0 as int, c1 as int, start as int);
            &&& !r.2
            &&& res.0 == r.0
            &&& 0 <= res.0 <= 12
            &&& forall|j: int| 0 <= j < n + 2 ==> res.1@[j] == r.1.0[j]
            &&& forall|j: int| 0 <= j < n ==> res.2@[j] == r.1.1[j]
            &&& res.3 == r.1.3
        }),
{
    let ghost p = pcm_ints(pcm@);
    let ghost target = search(p, n as nat, c0 as int, c1 as int, start as int);
    let mut scale: i32 = start;
    loop
        invariant
            n <= 14,
            p == pcm_ints(pcm@),
            is_i16(c0 as int),
            is_i16(c1 as int),
            0 <= scale <= 12,
            search_ok(p, n as nat, c0 as int, c1 as int, scale as int),
            search(p, n as nat, c0 as int, c1 as int, scale as int) == target,
            target == search(p, n as nat, c0 as int, c1 as int, start as int),
        decreases 13 - scale,
    {
        let (hist, nibs, index, err) = run_pass(pcm, n, c0, c1, scale);
        let ghost st = pass(p, c0 as int, c1 as int, scale as nat, n as nat);
        let ghost k_total = halvings(index + 8);
        let ghost mut k_done: nat = 0;
        let mut sc: i32 = scale;
        let mut x: i32 = index + 8;
        while x > 256
            invariant
                0 <= scale <= 12,
                8 <= x,
                0 <= sc <= 12,
                sc == adjust_scale(scale as int, k_done),
                k_done + halvings(x as int) == k_total,
            decreases x,
        {
            sc = sc + 1;
            if sc >= 12 {
                sc = 11;
            }
            x = x / 2;
            proof {
                k_done = k_done + 1;
            }
        }
        assert(halvings(x as int) == 0);
        assert(sc == adjust_scale(scale as int, halvings(st.2 + 8)));
        if !(sc < 12 && index > 1) {
            assert(search(p, n as nat, c0 as int, c1 as int, scale as int) == (
                sc as int,
                st,
                false,
            ));
            return (sc, hist, nibs, err);
        }
        assert(search(p, n as nat, c0 as int, c1 as int, scale as int) == search(
            p,
            n as nat,
            c0 as int,
            c1 as int,
            sc + 1,
        ));
        scale = sc + 1;
    }
}


/// A nibble in `-8..=7` as its 4-bit code.
fn nibble_code_of(v: i32) -> (r: u8)
    requires
        -8 <= v <= 7,
    ensures
        r == nibble_code(v as int),
        r <= 15,
{
    if v < 0 {
        (v + 16) as u8
    } else {
        v as u8
    }
}

/// Encode one DSP-ADPCM frame.
///
/// `pcm_inout[0..2]` holds the history (the sample before last, then the last sample)
/// and `pcm_inout[2..16]` the 14 input samples, of which the first `sample_count` are
/// encoded. Every predictor of `coefs` is tried with its own scale search; the one with
/// the least squared reconstruction error wins (the first one on ties). The returned
/// frame holds its index and scale in the header byte and the 4-bit residuals (zero past
/// `sample_count`) in the seven bytes after it. The live samples of `pcm_inout` are
/// replaced by their reconstruction, so `pcm_inout[14]` and `pcm_inout[15]` are the next
/// frame's history.
///
/// The frame must be encodable (no intermediate leaves `i32` and every scale search ends);
/// `lemma_bounded_coefs_encodable` shows this for any samples when `coefs_in_bounds` holds.
pub fn encode_frame(pcm_inout: &mut [i16; 16], sample_count: usize, coefs: &Coefs) -> (frame: [u8; 8])
    requires
        frame_encodable(pcm_ints(old(pcm_inout)@), sample_count as nat, *coefs),
    ensures
        frame@ == frame_bytes(pcm_ints(old(pcm_inout)@), sample_count as nat, *coefs),
        pcm_ints(final(pcm_inout)@) == frame_output(
            pcm_ints(old(pcm_inout)@),
            sample_count as nat,
            *coefs,
        ),
{
    proof {
        reveal(frame_bytes);
        reveal(frame_output);
    }
    let ghost p = pcm_ints(pcm_inout@);
    let n = sample_count;
    let ghost nn = n as nat;
    let mut best_index: usize = 0;
    let mut best_scale: i32 = 0;
    let mut best_hist = [0i32; 16];
    let mut best_nibs = [0i32; 14];
    let mut best_err: u64 = 0;
    let mut i: usize = 0;
    while i < 8
        invariant
            i <= 8,
            n <= 14,
            nn == n as nat,
            p == pcm_ints(pcm_inout@),
            frame_encodable(p, nn, *coefs),
            i > 0 ==> {
                &&& best_index == best_upto(p, nn, *coefs, i as int)
                &&& best_index < i
                &&& best_scale == candidate(p, nn, *coefs, best_index as int).0
                &&& 0 <= best_scale <= 12
                &&& best_err == candidate_error(p, nn, *coefs, best_index as int)
                &&& forall|j: int|
                    0 <= j < n + 2 ==> best_hist@[j] == candidate(
                        p,
                        nn,
                        *coefs,
                        best_index as int,
                    ).1.0[j]
                &&& forall|j: int|
                    0 <= j < n ==> best_nibs@[j] == candidate(p, nn, *coefs, best_index as int).1.1[j]
            },
        decreases 8 - i,
    {
        let c0 = coefs[i][0] as i32;
        let c1 = coefs[i][1] as i32;
        assert(candidate_ok(p, nn, *coefs, i as int));
        let distance = peak_coarse_error(pcm_inout, n, c0, c1);
        let start = first_pass_scale(distance);
        let (sc, hist, nibs, err) = search_scale(pcm_inout, n, c0, c1, start);
        if i == 0 || err < best_err {
            best_index = i;
            best_scale = sc;
            best_hist = hist;
            best_nibs = nibs;
            best_err = err;
        }
        i = i + 1;
    }
    let ghost b = best_predictor(p, nn, *coefs);
    let ghost cand = candidate(p, nn, *coefs, b);
    proof {
        assert(b == best_index as int);
        assert(candidate_ok(p, nn, *coefs, b));
        let c0 = coef0(*coefs, b);
        let c1 = coef1(*coefs, b);
        lemma_search_done(p, nn, c0, c1, first_scale(p, nn, c0, c1));
        lemma_pass_shape(p, c0, c1, cand.0 as nat, nn);
    }
    let mut s: usize = 0;
    while s < n
        invariant
            s <= n <= 14,
            nn == n as nat,
            p.len() == 16,
            all_i16(cand.1.0),
            cand.1.0.len() == n + 2,
            forall|j: int| 0 <= j < n + 2 ==> best_hist@[j] == cand.1.0[j],
            forall|j: int|
                0 <= j < 16 ==> (#[trigger] pcm_inout@[j]) as int == (if 2 <= j < s + 2 {
                    cand.1.0[j]
                } else {
                    p[j]
                }),
        decreases n - s,
    {
        assert(is_i16(cand.1.0[s + 2]));
        pcm_inout[s + 2] = best_hist[s + 2] as i16;
        s = s + 1;
    }
    assert(pcm_ints(pcm_inout@) =~= frame_output(p, nn, *coefs)) by {
        assert(cand.1.0[0] == p[0] && cand.1.0[1] == p[1]);
    }
    let mut out = [0u8; 8];
    out[0] = (best_index as u8) * 16 + (best_scale as u8);
    let mut y: usize = 0;
    while y < 7
        invariant
            y <= 7,
            n <= 14,
            nn == n as nat,
            out@.len() == 8,
            out@[0] == frame_bytes(p, nn, *coefs)[0],
            forall|j: int| 0 <= j < n ==> best_nibs@[j] == cand.1.1[j],
            forall|j: int| 0 <= j < n ==> -8 <= #[trigger] cand.1.1[j] <= 7,
            cand == candidate(p, nn, *coefs, best_predictor(p, nn, *coefs)),
            forall|k: int| 1 <= k < y + 1 ==> out@[k] == frame_bytes(p, nn, *coefs)[k],
        decreases 7 - y,
    {
        let hi: i32 = if 2 * y < n {
            best_nibs[2 * y]
        } else {
            0
        };
        let lo: i32 = if 2 * y + 1 < n {
            best_nibs[2 * y + 1]
        } else {
            0
        };
        proof {
            reveal(frame_bytes);
        }
        let code_hi = nibble_code_of(hi);
        let code_lo = nibble_code_of(lo);
        out[y + 1] = 16 * code_hi + code_lo;
        y = y + 1;
    }
    assert(out@ =~= frame_bytes(p, nn, *coefs));
    out
}


// ── Decoding and the laws of the encoder ────────────────────────────────────

/// The value of a 4-bit two's-complement code.
pub open spec fn nibble_value(code: int) -> int {
    if code >= 8 {
        code - 16
    } else {
        code
    }
}

/// The residual nibble a frame carries for sample `j` (high nibble first).
pub open spec fn carried_nibble(frame: Seq<u8>, j: int) -> int {
    let b = frame[1 + j / 2] as int;
    if j % 2 == 0 {
        nibble_value(b / 16)
    } else {
        nibble_value(b % 16)
    }
}

/// What a DSP-ADPCM decoder makes of the first `k` samples of `frame`, given the two
/// previous samples: `.0`/`.1` the history, `[j + 2]` decoded sample `j`.
pub open spec fn decode_frame(frame: Seq<u8>, coefs: Coefs, h2: int, h1: int, k: nat) -> Seq<int>
    decreases k,
{
    if k == 0 {
        seq![h2, h1]
    } else {
        let h = decode_frame(frame, coefs, h2, h1, (k - 1) as nat);
        let j = k - 1;
        let pi = frame[0] as int / 16;
        let sc = (frame[0] as int % 16) as nat;
        h.push(
            reconstruct(
                predict(h[j], h[j + 1], coef0(coefs, pi), coef1(coefs, pi)),
                carried_nibble(frame, j),
                sc,
            ),
        )
    }
}

proof fn lemma_pass_prefix(pcm: Seq<int>, c0: int, c1: int, scale: nat, k1: nat, k2: nat)
    requires
        k1 <= k2,
    ensures
        forall|j: int|
            0 <= j < k1 ==> #[trigger] pass(pcm, c0, c1, scale, k2).1[j] == pass(
                pcm,
                c0,
                c1,
                scale,
                k1,
            ).1[j],
    decreases k2,
{
    if k1 < k2 {
        lemma_pass_prefix(pcm, c0, c1, scale, k1, (k2 - 1) as nat);
        let prev = pass(pcm, c0, c1, scale, (k2 - 1) as nat);
        assert forall|j: int| 0 <= j < k1 implies #[trigger] pass(pcm, c0, c1, scale, k2).1[j]
            == prev.1[j] by {
            lemma_pass_len(pcm, c0, c1, scale, (k2 - 1) as nat);
        }
    }
}

proof fn lemma_pass_len(pcm: Seq<int>, c0: int, c1: int, scale: nat, k: nat)
    ensures
        pass(pcm, c0, c1, scale, k).0.len() == k + 2,
        pass(pcm, c0, c1, scale, k).1.len() == k,
    decreases k,
{
    if k > 0 {
        lemma_pass_len(pcm, c0, c1, scale, (k - 1) as nat);
    }
}

proof fn lemma_best_upto(pcm: Seq<int>, n: nat, coefs: Coefs, k: int)
    requires
        1 <= k <= 8,
    ensures
        0 <= best_upto(pcm, n, coefs, k) < k,
        forall|i: int|
            0 <= i < k ==> candidate_error(pcm, n, coefs, best_upto(pcm, n, coefs, k))
                <= #[trigger] candidate_error(pcm, n, coefs, i),
        forall|i: int|
            0 <= i < best_upto(pcm, n, coefs, k) ==> candidate_error(
                pcm,
                n,
                coefs,
                best_upto(pcm, n, coefs, k),
            ) < #[trigger] candidate_error(pcm, n, coefs, i),
    decreases k,
{
    if k > 1 {
        lemma_best_upto(pcm, n, coefs, k - 1);
    }
}

/// The predictor an encoded frame names is the first one of least squared error.
pub proof fn lemma_best_predictor_is_least_error(pcm: Seq<int>, n: nat, coefs: Coefs)
    ensures
        0 <= best_predictor(pcm, n, coefs) < 8,
        forall|i: int|
            0 <= i < 8 ==> candidate_error(pcm, n, coefs, best_predictor(pcm, n, coefs))
                <= #[trigger] candidate_error(pcm, n, coefs, i),
        forall|i: int|
            0 <= i < best_predictor(pcm, n, coefs) ==> candidate_error(
                pcm,
                n,
                coefs,
                best_predictor(pcm, n, coefs),
            ) < #[trigger] candidate_error(pcm, n, coefs, i),
{
    lemma_best_upto(pcm, n, coefs, 8);
}

/// The header byte of an encoded frame names a predictor in `0..8` and a scale in `0..=12`,
/// and the search for that scale ended on the pass the frame's nibbles come from.
pub proof fn lemma_frame_header(pcm: Seq<int>, n: nat, coefs: Coefs)
    requires
        frame_encodable(pcm, n, coefs),
    ensures
        frame_bytes(pcm, n, coefs)[0] as int / 16 == best_predictor(pcm, n, coefs),
        frame_bytes(pcm, n, coefs)[0] as int % 16 <= 12,
        frame_bytes(pcm, n, coefs)[0] as int % 16 == candidate(
            pcm,
            n,
            coefs,
            best_predictor(pcm, n, coefs),
        ).0,
        candidate(pcm, n, coefs, best_predictor(pcm, n, coefs)).1 == pass(
            pcm,
            coef0(coefs, best_predictor(pcm, n, coefs)),
            coef1(coefs, best_predictor(pcm, n, coefs)),
            (frame_bytes(pcm, n, coefs)[0] as int % 16) as nat,
            n,
        ),
{
    reveal(frame_bytes);
    reveal(frame_output);
    lemma_best_upto(pcm, n, coefs, 8);
    let b = best_predictor(pcm, n, coefs);
    assert(candidate_ok(pcm, n, coefs, b));
    let c0 = coef0(coefs, b);
    let c1 = coef1(coefs, b);
    lemma_search_done(pcm, n, c0, c1, first_scale(pcm, n, c0, c1));
    let sc = candidate(pcm, n, coefs, b).0;
    assert(((b * 16 + sc) as u8) as int == b * 16 + sc);
}

/// Encoding leaves the history samples and the samples past `n` as they were, and
/// writes valid 16-bit samples.
pub proof fn lemma_frame_keeps_history(pcm: Seq<int>, n: nat, coefs: Coefs)
    requires
        frame_encodable(pcm, n, coefs),
    ensures
        frame_output(pcm, n, coefs).len() == 16,
        frame_output(pcm, n, coefs)[0] == pcm[0],
        frame_output(pcm, n, coefs)[1] == pcm[1],
        forall|j: int| n + 2 <= j < 16 ==> #[trigger] frame_output(pcm, n, coefs)[j] == pcm[j],
        all_i16(frame_output(pcm, n, coefs)),
{
    reveal(frame_output);
    lemma_frame_header(pcm, n, coefs);
    lemma_frame_output_i16(pcm, n, coefs);
    let b = best_predictor(pcm, n, coefs);
    let sc = candidate(pcm, n, coefs, b).0;
    lemma_pass_shape(pcm, coef0(coefs, b), coef1(coefs, b), sc as nat, n);
}

/// Decoding an encoded frame from the same history and predictors gives back exactly the
/// reconstruction the encoder wrote into the sample buffer.
pub proof fn lemma_decode_inverts_encode(pcm: Seq<int>, n: nat, coefs: Coefs)
    requires
        frame_encodable(pcm, n, coefs),
    ensures
        decode_frame(frame_bytes(pcm, n, coefs), coefs, pcm[0], pcm[1], n) == frame_output(
            pcm,
            n,
            coefs,
        ).subrange(0, n + 2int),
{
    reveal(frame_bytes);
    reveal(frame_output);
    let frame = frame_bytes(pcm, n, coefs);
    lemma_frame_header(pcm, n, coefs);
    let b = best_predictor(pcm, n, coefs);
    let c0 = coef0(coefs, b);
    let c1 = coef1(coefs, b);
    let sc = (frame[0] as int % 16) as nat;
    lemma_carried_nibbles(pcm, n, coefs);
    lemma_decode_matches_pass(frame, coefs, pcm, c0, c1, sc, n, n);
    lemma_pass_shape(pcm, c0, c1, sc, n);
    assert(decode_frame(frame, coefs, pcm[0], pcm[1], n) =~= frame_output(pcm, n, coefs).subrange(
        0,
        n + 2int,
    ));
}

proof fn lemma_nibble_pair(hi: int, lo: int, byte: int)
    requires
        -8 <= hi <= 7,
        -8 <= lo <= 7,
        byte == 16 * nibble_code(hi) + nibble_code(lo),
    ensures
        nibble_value(byte / 16) == hi,
        nibble_value(byte % 16) == lo,
{
}

/// The nibbles a frame carries are those of the winning pass.
proof fn lemma_carried_nibbles(pcm: Seq<int>, n: nat, coefs: Coefs)
    requires
        frame_encodable(pcm, n, coefs),
    ensures
        forall|j: int|
            0 <= j < n ==> carried_nibble(frame_bytes(pcm, n, coefs), j) == #[trigger] pass(
                pcm,
                coef0(coefs, best_predictor(pcm, n, coefs)),
                coef1(coefs, best_predictor(pcm, n, coefs)),
                (frame_bytes(pcm, n, coefs)[0] as int % 16) as nat,
                n,
            ).1[j],
{
    reveal(frame_bytes);
    reveal(frame_output);
    let frame = frame_bytes(pcm, n, coefs);
    lemma_frame_header(pcm, n, coefs);
    let b = best_predictor(pcm, n, coefs);
    let sc = (frame[0] as int % 16) as nat;
    let st = pass(pcm, coef0(coefs, b), coef1(coefs, b), sc, n);
    lemma_pass_shape(pcm, coef0(coefs, b), coef1(coefs, b), sc, n);
    assert forall|j: int| 0 <= j < n implies carried_nibble(frame, j) == #[trigger] st.1[j] by {
        let y = j / 2;
        let k = 1 + y;
        let hi = frame_nibble_value(pcm, n, coefs, 2 * k - 2);
        let lo = frame_nibble_value(pcm, n, coefs, 2 * k - 1);
        assert(-8 <= hi <= 7 && -8 <= lo <= 7);
        assert(frame[k] as int == 16 * nibble_code(hi) + nibble_code(lo));
        lemma_nibble_pair(hi, lo, frame[k] as int);
    }
}

proof fn lemma_decode_matches_pass(
    frame: Seq<u8>,
    coefs: Coefs,
    pcm: Seq<int>,
    c0: int,
    c1: int,
    sc: nat,
    n: nat,
    k: nat,
)
    requires
        k <= n,
        c0 == coef0(coefs, frame[0] as int / 16),
        c1 == coef1(coefs, frame[0] as int / 16),
        sc == (frame[0] as int % 16) as nat,
        forall|j: int| 0 <= j < n ==> carried_nibble(frame, j) == #[trigger] pass(
            pcm,
            c0,
            c1,
            sc,
            n,
        ).1[j],
    ensures
        decode_frame(frame, coefs, pcm[0], pcm[1], k) == pass(pcm, c0, c1, sc, k).0,
    decreases k,
{
    if k > 0 {
        lemma_decode_matches_pass(frame, coefs, pcm, c0, c1, sc, n, (k - 1) as nat);
        lemma_pass_prefix(pcm, c0, c1, sc, k, n);
        lemma_pass_len(pcm, c0, c1, sc, k);
        assert(pass(pcm, c0, c1, sc, n).1[k - 1] == pass(pcm, c0, c1, sc, k).1[k - 1]);
    }
}


// ── Streams ─────────────────────────────────────────────────────────────────

/// Number of 14-sample frames needed for `len` samples.
pub open spec fn frame_count(len: int) -> int {
    (len + 13) / 14
}

/// Sample `idx` of the input, zero past its end.
pub open spec fn padded(samples: Seq<i16>, idx: int) -> int {
    if 0 <= idx < samples.len() {
        samples[idx] as int
    } else {
        0
    }
}

/// The buffer handed to the encoder for frame `p`: the history, then 14 (padded) samples.
pub open spec fn frame_input(samples: Seq<i16>, p: int, h2: int, h1: int) -> Seq<int> {
    Seq::new(
        16,
        |j: int|
            if j == 0 {
                h2
            } else if j == 1 {
                h1
            } else {
                padded(samples, p * 14 + j - 2)
            },
    )
}

/// Encoding the first `p` frames of a stream, starting from a zero history:
/// `.0` the frame bytes, `.1`/`.2` the last two reconstructed samples.
pub open spec fn encode_stream(samples: Seq<i16>, coefs: Coefs, p: nat) -> (Seq<u8>, int, int)
    decreases p,
{
    if p == 0 {
        (Seq::<u8>::empty(), 0, 0)
    } else {
        let prev = encode_stream(samples, coefs, (p - 1) as nat);
        let input = frame_input(samples, p - 1, prev.1, prev.2);
        let out = frame_output(input, 14, coefs);
        (prev.0 + frame_bytes(input, 14, coefs), out[14], out[15])
    }
}

/// The samples after encoding are valid 16-bit samples.
proof fn lemma_frame_output_i16(pcm: Seq<int>, n: nat, coefs: Coefs)
    requires
        frame_encodable(pcm, n, coefs),
    ensures
        frame_output(pcm, n, coefs).len() == 16,
        all_i16(frame_output(pcm, n, coefs)),
{
    reveal(frame_bytes);
    reveal(frame_output);
    lemma_frame_header(pcm, n, coefs);
    let b = best_predictor(pcm, n, coefs);
    let sc = candidate(pcm, n, coefs, b).0;
    lemma_pass_shape(pcm, coef0(coefs, b), coef1(coefs, b), sc as nat, n);
    let out = frame_output(pcm, n, coefs);
    assert forall|j: int| 0 <= j < out.len() implies is_i16(#[trigger] out[j]) by {}
}

/// With bounded predictors every frame of a stream can be encoded, and the stream grows
/// by 8 bytes per frame.
pub proof fn lemma_stream_encodable(samples: Seq<i16>, coefs: Coefs, p: nat)
    requires
        coefs_bounded(coefs),
    ensures
        encode_stream(samples, coefs, p).0.len() == 8 * p,
        is_i16(encode_stream(samples, coefs, p).1),
        is_i16(encode_stream(samples, coefs, p).2),
        frame_encodable(
            frame_input(
                samples,
                p as int,
                encode_stream(samples, coefs, p).1,
                encode_stream(samples, coefs, p).2,
            ),
            14,
            coefs,
        ),
    decreases p,
{
    reveal(frame_bytes);
    if p > 0 {
        lemma_stream_encodable(samples, coefs, (p - 1) as nat);
        let prev = encode_stream(samples, coefs, (p - 1) as nat);
        let input = frame_input(samples, p - 1, prev.1, prev.2);
        lemma_frame_output_i16(input, 14, coefs);
    }
    let st = encode_stream(samples, coefs, p);
    let input = frame_input(samples, p as int, st.1, st.2);
    assert(all_i16(input));
    lemma_bounded_coefs_encodable(input, 14, coefs);
}

/// Encode all samples with the given predictors: one 8-byte frame per 14 samples, the
/// last frame padded with zero samples, each frame starting from the reconstruction of
/// the one before. Returns the predictors and the frame bytes.
pub fn encode_all(samples: &[i16], coefs: &Coefs) -> (res: (Coefs, Vec<u8>))
    requires
        coefs_bounded(*coefs),
    ensures
        res.0 == *coefs,
        res.1@ == encode_stream(samples@, *coefs, frame_count(samples@.len() as int) as nat).0,
        res.1@.len() == 8 * frame_count(samples@.len() as int),
{
    let len = samples.len();
    let packet_count: usize = len / 14 + if len % 14 != 0 {
        1
    } else {
        0
    };
    assert(packet_count as int == frame_count(len as int));
    let mut adpcm_frames: Vec<u8> = Vec::new();
    let mut conv_samps = [0i16; 16];
    let mut p: usize = 0;
    while p < packet_count
        invariant
            p <= packet_count,
            packet_count as int == frame_count(len as int),
            len == samples@.len(),
            coefs_bounded(*coefs),
            adpcm_frames@ == encode_stream(samples@, *coefs, p as nat).0,
            conv_samps@[0] as int == encode_stream(samples@, *coefs, p as nat).1,
            conv_samps@[1] as int == encode_stream(samples@, *coefs, p as nat).2,
        decreases packet_count - p,
    {
        proof {
            lemma_stream_encodable(samples@, *coefs, p as nat);
        }
        let ghost st = encode_stream(samples@, *coefs, p as nat);
        let start = p * 14;
        let num_samples: usize = if len - start < 14 {
            len - start
        } else {
            14
        };
        let mut s: usize = 0;
        while s < 14
            invariant
                s <= 14,
                start == p * 14,
                start < len,
                num_samples == (if len - start < 14 {
                    len - start
                } else {
                    14
                }),
                len == samples@.len(),
                conv_samps@[0] as int == st.1,
                conv_samps@[1] as int == st.2,
                forall|j: int|
                    2 <= j < s + 2 ==> conv_samps@[j] as int == #[trigger] frame_input(
                        samples@,
                        p as int,
                        st.1,
                        st.2,
                    )[j],
            decreases 14 - s,
        {
            if s < num_samples {
                conv_samps[s + 2] = samples[start + s];
            } else {
                conv_samps[s + 2] = 0;
            }
            s = s + 1;
        }
        let ghost input = frame_input(samples@, p as int, st.1, st.2);
        assert(pcm_ints(conv_samps@) =~= input);
        let frame = encode_frame(&mut conv_samps, 14, coefs);
        adpcm_frames.extend_from_slice(&frame);
        conv_samps[0] = conv_samps[14];
        conv_samps[1] = conv_samps[15];
        proof {
            let out = frame_output(input, 14, *coefs);
            assert(adpcm_frames@ =~= st.0 + frame_bytes(input, 14, *coefs));
        }
        p = p + 1;
    }
    proof {
        lemma_stream_encodable(samples@, *coefs, packet_count as nat);
    }
    (*coefs, adpcm_frames)
}


/// Whether every predictor pair satisfies `coefs_bounded`, the condition under which
/// `encode_all` and `build_bfstm` accept them.
pub fn coefs_in_bounds(coefs: &Coefs) -> (r: bool)
    ensures
        r == coefs_bounded(*coefs),
{
    let mut i: usize = 0;
    while i < 8
        invariant
            i <= 8,
            forall|k: int|
                0 <= k < i ==> magnitude(#[trigger] coef0(*coefs, k)) + magnitude(coef1(*coefs, k))
                    <= 63360,
        decreases 8 - i,
    {
        let c0 = coefs[i][0] as i32;
        let c1 = coefs[i][1] as i32;
        let m0 = if c0 < 0 {
            -c0
        } else {
            c0
        };
        let m1 = if c1 < 0 {
            -c1
        } else {
            c1
        };
        if m0 + m1 > 63360 {
            assert(magnitude(coef0(*coefs, i as int)) + magnitude(coef1(*coefs, i as int)) > 63360);
            return false;
        }
        i = i + 1;
    }
    true
}


proof fn lemma_stream_prefix(samples: Seq<i16>, coefs: Coefs, q: nat, p: nat)
    requires
        q <= p,
        coefs_bounded(coefs),
    ensures
        encode_stream(samples, coefs, p).0.subrange(0, 8 * q as int) == encode_stream(samples, coefs, q).0,
    decreases p,
{
    lemma_stream_encodable(samples, coefs, p);
    lemma_stream_encodable(samples, coefs, q);
    if q < p {
        lemma_stream_prefix(samples, coefs, q, (p - 1) as nat);
        lemma_stream_encodable(samples, coefs, (p - 1) as nat);
        let prev = encode_stream(samples, coefs, (p - 1) as nat).0;
        let cur = encode_stream(samples, coefs, p).0;
        assert(cur.subrange(0, 8 * q as int) =~= prev.subrange(0, 8 * q as int));
    } else {
        assert(encode_stream(samples, coefs, p).0.subrange(0, 8 * q as int) =~= encode_stream(
            samples,
            coefs,
            q,
        ).0);
    }
}

/// Frame `q` of an encoded stream is the encoding of samples `14q..14q + 14` from the
/// history the stream reached after `q` frames, and a decoder given that history and the
/// frame ends on exactly the history the stream continues from: a stream can be decoded
/// frame by frame.
pub proof fn lemma_stream_frames_decode(samples: Seq<i16>, coefs: Coefs, q: nat, p: nat)
    requires
        q < p,
        coefs_bounded(coefs),
    ensures
        ({
            let st = encode_stream(samples, coefs, q);
            let next = encode_stream(samples, coefs, q + 1);
            let input = frame_input(samples, q as int, st.1, st.2);
            let frame = encode_stream(samples, coefs, p).0.subrange(8 * q as int, 8 * q as int + 8);
            let decoded = decode_frame(frame, coefs, st.1, st.2, 14);
            &&& frame == frame_bytes(input, 14, coefs)
            &&& decoded[14] == next.1
            &&& decoded[15] == next.2
        }),
{
    reveal(frame_output);
    let st = encode_stream(samples, coefs, q);
    let input = frame_input(samples, q as int, st.1, st.2);
    lemma_stream_encodable(samples, coefs, q);
    lemma_stream_encodable(samples, coefs, q + 1);
    lemma_stream_prefix(samples, coefs, q + 1, p);
    let whole = encode_stream(samples, coefs, p).0;
    let upto = encode_stream(samples, coefs, q + 1).0;
    assert(upto == st.0 + frame_bytes(input, 14, coefs));
    lemma_stream_encodable(samples, coefs, p);
    let lo = 8 * q as int;
    assert forall|k: int| lo <= k < lo + 8 implies #[trigger] whole[k] == upto[k] by {
        assert(whole.subrange(0, 8 * (q + 1) as int)[k] == whole[k]);
    }
    assert(whole.subrange(lo, lo + 8) =~= upto.subrange(lo, lo + 8));
    assert(upto.subrange(8 * q as int, 8 * q as int + 8) =~= frame_bytes(input, 14, coefs));
    lemma_decode_inverts_encode(input, 14, coefs);
    assert(input[0] == st.1 && input[1] == st.2);
    let out = frame_output(input, 14, coefs);
    assert(out.subrange(0, 16)[14] == out[14]);
    assert(out.subrange(0, 16)[15] == out[15]);
}


pub open spec fn is_silent(pcm: Seq<int>) -> bool {
    forall|j: int| 0 <= j < pcm.len() ==> #[trigger] pcm[j] == 0
}

proof fn lemma_silent_pass(pcm: Seq<int>, c0: int, c1: int, k: nat)
    requires
        pcm.len() == 16,
        is_silent(pcm),
        k <= 14,
    ensures
        is_silent(pass(pcm, c0, c1, 0, k).0),
        is_silent(pass(pcm, c0, c1, 0, k).1),
        pass(pcm, c0, c1, 0, k).2 == 0,
        pass(pcm, c0, c1, 0, k).3 == 0,
        pass_fits(pcm, c0, c1, 0, k),
    decreases k,
{
    if k > 0 {
        lemma_silent_pass(pcm, c0, c1, (k - 1) as nat);
        lemma_pass_len(pcm, c0, c1, 0, (k - 1) as nat);
        let prev = pass(pcm, c0, c1, 0, (k - 1) as nat);
        let j = k - 1;
        assert(prev.0[j] == 0 && prev.0[j + 1] == 0 && pcm[j + 2] == 0);
        assert(predict(0, 0, c0, c1) == 0);
        assert(residual(0, 0) == 0);
        assert(step_size(0) == 1);
        assert(quantize(0, 0) == 0);
        assert(recon_sum(0, 0, 0) == 0);
        assert(reconstruct(0, 0, 0) == 0);
        let cur = pass(pcm, c0, c1, 0, k);
        assert(cur.0 == prev.0.push(0));
        assert(cur.1 == prev.1.push(0));
        assert((0int - 0int) * (0int - 0int) == 0);
        assert(cur.3 == prev.3);
        assert forall|i: int| 0 <= i < cur.0.len() implies #[trigger] cur.0[i] == 0 by {
            if i < prev.0.len() {
                assert(cur.0[i] == prev.0[i]);
            }
        }
        assert forall|i: int| 0 <= i < cur.1.len() implies #[trigger] cur.1[i] == 0 by {
            if i < prev.1.len() {
                assert(cur.1[i] == prev.1[i]);
            }
        }
    }
}

/// Silence encodes to silence: with a zero history and zero samples, whatever the
/// predictors, the frame is eight zero bytes and the reconstruction is zero.
pub proof fn lemma_silence_encodes_to_zero(pcm: Seq<int>, n: nat, coefs: Coefs)
    requires
        pcm.len() == 16,
        is_silent(pcm),
        n <= 14,
    ensures
        frame_encodable(pcm, n, coefs),
        frame_bytes(pcm, n, coefs) == Seq::new(8, |k: int| 0u8),
        is_silent(frame_output(pcm, n, coefs)),
{
    reveal(frame_bytes);
    reveal(frame_output);
    assert forall|i: int| 0 <= i < 8 implies #[trigger] candidate_ok(pcm, n, coefs, i) && candidate(
        pcm,
        n,
        coefs,
        i,
    ).0 == 0 && candidate_error(pcm, n, coefs, i) == 0 && is_silent(candidate(pcm, n, coefs, i).1.0)
        && is_silent(candidate(pcm, n, coefs, i).1.1) by {
        let c0 = coef0(coefs, i);
        let c1 = coef1(coefs, i);
        assert(peak_error(pcm, c0, c1, n) == 0) by {
            lemma_silent_peak(pcm, c0, c1, n);
        }
        assert(first_scale(pcm, n, c0, c1) == 0);
        lemma_silent_pass(pcm, c0, c1, n);
        assert(halvings(8) == 0);
        assert forall|j: int| 0 <= j < n implies fits_i32(
            #[trigger] predict(pcm[j], pcm[j + 1], c0, c1),
        ) by {
            assert(pcm[j] == 0 && pcm[j + 1] == 0);
        }
    }
    assert(all_i16(pcm));
    lemma_best_upto(pcm, n, coefs, 8);
    let b = best_predictor(pcm, n, coefs);
    assert(candidate_ok(pcm, n, coefs, b));
    assert(candidate_ok(pcm, n, coefs, 0));
    assert(b == 0);
    assert(candidate(pcm, n, coefs, b).0 == 0);
    let h = candidate(pcm, n, coefs, b).1;
    assert(is_silent(h.0) && is_silent(h.1));
    lemma_pass_len(pcm, coef0(coefs, b), coef1(coefs, b), 0, n);
    lemma_search_done(
        pcm,
        n,
        coef0(coefs, b),
        coef1(coefs, b),
        first_scale(pcm, n, coef0(coefs, b), coef1(coefs, b)),
    );
    assert(frame_bytes(pcm, n, coefs) =~= Seq::new(8, |k: int| 0u8)) by {
        assert forall|j: int| 0 <= j < 14 implies frame_nibble_value(pcm, n, coefs, j) == 0 by {
            if j < n {
                assert(h.1[j] == 0);
            }
        }
    }
    let out = frame_output(pcm, n, coefs);
    assert forall|j: int| 0 <= j < out.len() implies #[trigger] out[j] == 0 by {
        if j < n + 2 {
            assert(h.0[j] == 0);
        } else {
            assert(pcm[j] == 0);
        }
    }
}

proof fn lemma_silent_peak(pcm: Seq<int>, c0: int, c1: int, k: nat)
    requires
        pcm.len() == 16,
        is_silent(pcm),
        k <= 14,
    ensures
        peak_error(pcm, c0, c1, k) == 0,
    decreases k,
{
    if k > 0 {
        lemma_silent_peak(pcm, c0, c1, (k - 1) as nat);
        assert(pcm[k - 1] == 0 && pcm[k as int] == 0 && pcm[k + 1int] == 0);
    }
}

/// `a` and `b` agree on their first `k` entries.
pub open spec fn agree_upto(a: Seq<int>, b: Seq<int>, k: int) -> bool {
    forall|j: int| 0 <= j < k ==> #[trigger] a[j] == b[j]
}

proof fn lemma_agree_peak(p1: Seq<int>, p2: Seq<int>, c0: int, c1: int, k: nat)
    requires
        agree_upto(p1, p2, k + 2int),
    ensures
        peak_error(p1, c0, c1, k) == peak_error(p2, c0, c1, k),
    decreases k,
{
    if k > 0 {
        lemma_agree_peak(p1, p2, c0, c1, (k - 1) as nat);
        assert(p1[k - 1] == p2[k - 1] && p1[k as int] == p2[k as int] && p1[k + 1int] == p2[k
            + 1int]);
    }
}

proof fn lemma_agree_pass(p1: Seq<int>, p2: Seq<int>, c0: int, c1: int, scale: nat, k: nat)
    requires
        agree_upto(p1, p2, k + 2int),
    ensures
        pass(p1, c0, c1, scale, k) == pass(p2, c0, c1, scale, k),
        pass_fits(p1, c0, c1, scale, k) == pass_fits(p2, c0, c1, scale, k),
    decreases k,
{
    if k > 0 {
        lemma_agree_pass(p1, p2, c0, c1, scale, (k - 1) as nat);
        assert(p1[k + 1int] == p2[k + 1int]);
    } else {
        assert(p1[0] == p2[0] && p1[1] == p2[1]);
    }
}

proof fn lemma_agree_search(p1: Seq<int>, p2: Seq<int>, n: nat, c0: int, c1: int, scale: int)
    requires
        agree_upto(p1, p2, n + 2int),
    ensures
        search(p1, n, c0, c1, scale) == search(p2, n, c0, c1, scale),
        search_ok(p1, n, c0, c1, scale) == search_ok(p2, n, c0, c1, scale),
    decreases 13 - scale,
{
    if 0 <= scale <= 12 {
        lemma_agree_pass(p1, p2, c0, c1, scale as nat, n);
        lemma_agree_pass(p1, p2, c0, c1, 0, n);
        let st = pass(p1, c0, c1, scale as nat, n);
        let sc = adjust_scale(scale, halvings(st.2 + 8));
        if sc < 12 && st.2 > 1 && scale < 12 {
            lemma_agree_search(p1, p2, n, c0, c1, sc + 1);
        }
    } else {
        lemma_agree_pass(p1, p2, c0, c1, 0, n);
    }
}

proof fn lemma_agree_candidate(p1: Seq<int>, p2: Seq<int>, n: nat, coefs: Coefs, i: int)
    requires
        n <= 14,
        agree_upto(p1, p2, n + 2int),
    ensures
        candidate(p1, n, coefs, i) == candidate(p2, n, coefs, i),
        candidate_ok(p1, n, coefs, i) == candidate_ok(p2, n, coefs, i),
{
    let c0 = coef0(coefs, i);
    let c1 = coef1(coefs, i);
    lemma_agree_peak(p1, p2, c0, c1, n);
    assert(first_scale(p1, n, c0, c1) == first_scale(p2, n, c0, c1));
    lemma_agree_search(p1, p2, n, c0, c1, first_scale(p1, n, c0, c1));
    if peak_fits(p1, n, c0, c1) {
        assert forall|j: int| 0 <= j < n implies fits_i32(
            #[trigger] predict(p2[j], p2[j + 1], c0, c1),
        ) by {
            assert(p1[j] == p2[j] && p1[j + 1] == p2[j + 1]);
            assert(fits_i32(predict(p1[j], p1[j + 1], c0, c1)));
        }
    }
    if peak_fits(p2, n, c0, c1) {
        assert forall|j: int| 0 <= j < n implies fits_i32(
            #[trigger] predict(p1[j], p1[j + 1], c0, c1),
        ) by {
            assert(p1[j] == p2[j] && p1[j + 1] == p2[j + 1]);
            assert(fits_i32(predict(p2[j], p2[j + 1], c0, c1)));
        }
    }
}

/// The frame depends only on the history and the live samples: buffer slots past
/// `sample_count + 2` change neither whether the frame can be encoded, nor the frame, nor
/// the history and reconstruction it leaves.
pub proof fn lemma_frame_ignores_dead_slots(p1: Seq<int>, p2: Seq<int>, n: nat, coefs: Coefs)
    requires
        p1.len() == 16,
        p2.len() == 16,
        all_i16(p1),
        all_i16(p2),
        n <= 14,
        agree_upto(p1, p2, n + 2int),
    ensures
        frame_encodable(p1, n, coefs) == frame_encodable(p2, n, coefs),
        frame_bytes(p1, n, coefs) == frame_bytes(p2, n, coefs),
        agree_upto(frame_output(p1, n, coefs), frame_output(p2, n, coefs), n + 2int),
{
    assert forall|i: int| 0 <= i < 8 implies #[trigger] candidate(p1, n, coefs, i) == candidate(
        p2,
        n,
        coefs,
        i,
    ) && candidate_ok(p1, n, coefs, i) == candidate_ok(p2, n, coefs, i) by {
        lemma_agree_candidate(p1, p2, n, coefs, i);
    }
    lemma_agree_best(p1, p2, n, coefs, 8);
    lemma_best_upto(p1, n, coefs, 8);
    let b = best_predictor(p1, n, coefs);
    assert(best_predictor(p2, n, coefs) == b);
    assert(candidate(p1, n, coefs, b) == candidate(p2, n, coefs, b));
    if frame_encodable(p1, n, coefs) {
        assert forall|i: int| 0 <= i < 8 implies candidate_ok(p2, n, coefs, i) by {
            lemma_agree_candidate(p1, p2, n, coefs, i);
        }
    }
    if frame_encodable(p2, n, coefs) {
        assert forall|i: int| 0 <= i < 8 implies candidate_ok(p1, n, coefs, i) by {
            lemma_agree_candidate(p1, p2, n, coefs, i);
        }
    }
    lemma_agree_frame(p1, p2, n, coefs);
}

proof fn lemma_agree_frame(p1: Seq<int>, p2: Seq<int>, n: nat, coefs: Coefs)
    requires
        n <= 14,
        best_predictor(p1, n, coefs) == best_predictor(p2, n, coefs),
        candidate(p1, n, coefs, best_predictor(p1, n, coefs)) == candidate(
            p2,
            n,
            coefs,
            best_predictor(p1, n, coefs),
        ),
    ensures
        frame_bytes(p1, n, coefs) == frame_bytes(p2, n, coefs),
        agree_upto(frame_output(p1, n, coefs), frame_output(p2, n, coefs), n + 2int),
{
    reveal(frame_bytes);
    reveal(frame_output);
    assert(frame_bytes(p1, n, coefs) =~= frame_bytes(p2, n, coefs));
    assert forall|j: int| 0 <= j < n + 2 implies #[trigger] frame_output(p1, n, coefs)[j]
        == frame_output(p2, n, coefs)[j] by {}
}

proof fn lemma_agree_best(p1: Seq<int>, p2: Seq<int>, n: nat, coefs: Coefs, k: int)
    requires
        1 <= k <= 8,
        forall|i: int|
            0 <= i < 8 ==> #[trigger] candidate(p1, n, coefs, i) == candidate(p2, n, coefs, i),
    ensures
        best_upto(p1, n, coefs, k) == best_upto(p2, n, coefs, k),
    decreases k,
{
    if k > 1 {
        lemma_agree_best(p1, p2, n, coefs, k - 1);
        lemma_best_upto(p1, n, coefs, k - 1);
        let b = best_upto(p1, n, coefs, k - 1);
        assert(candidate(p1, n, coefs, b) == candidate(p2, n, coefs, b));
        assert(candidate(p1, n, coefs, k - 1) == candidate(p2, n, coefs, k - 1));
    }
}

/// Appending zero samples changes no frame of the stream: the padded input is the same.
proof fn lemma_zero_tail_stream(samples: Seq<i16>, tail: Seq<i16>, coefs: Coefs, p: nat)
    requires
        forall|j: int| 0 <= j < tail.len() ==> #[trigger] tail[j] == 0i16,
    ensures
        encode_stream(samples + tail, coefs, p) == encode_stream(samples, coefs, p),
    decreases p,
{
    if p > 0 {
        lemma_zero_tail_stream(samples, tail, coefs, (p - 1) as nat);
        let st = encode_stream(samples, coefs, (p - 1) as nat);
        assert(frame_input(samples + tail, p - 1, st.1, st.2) =~= frame_input(
            samples,
            p - 1,
            st.1,
            st.2,
        )) by {
            assert forall|idx: int| #[trigger] padded(samples + tail, idx) == padded(samples, idx) by {
                if samples.len() <= idx < samples.len() + tail.len() {
                    assert((samples + tail)[idx] == tail[idx - samples.len()]);
                }
            }
        }
    }
}

/// Trailing zero samples leave the frames of the samples before them unchanged: the
/// stream of `samples + zeros` starts with the stream of `samples`.
pub proof fn lemma_trailing_zeros(samples: Seq<i16>, tail: Seq<i16>, coefs: Coefs)
    requires
        coefs_bounded(coefs),
        forall|j: int| 0 <= j < tail.len() ==> #[trigger] tail[j] == 0i16,
    ensures
        encode_stream(
            samples + tail,
            coefs,
            frame_count((samples + tail).len() as int) as nat,
        ).0.subrange(0, 8 * frame_count(samples.len() as int)) == encode_stream(
            samples,
            coefs,
            frame_count(samples.len() as int) as nat,
        ).0,
{
    let q = frame_count(samples.len() as int) as nat;
    let p = frame_count((samples + tail).len() as int) as nat;
    assert(q <= p);
    lemma_stream_prefix(samples + tail, coefs, q, p);
    lemma_zero_tail_stream(samples, tail, coefs, q);
}

} // verus!
