use gc_dspadpcm::analysis::voiced_window_correlations;
use gc_dspadpcm::codec::{coefs_in_bounds, encode_all, encode_frame, Coefs};

#[test]
fn silence_frame_is_all_zeros() {
    let coefs: Coefs = [[0i16; 2]; 8];
    let mut pcm = [0i16; 16];
    let frame = encode_frame(&mut pcm, 14, &coefs);
    assert_eq!(frame, [0u8; 8]);
}

// ── Helpers ─────────────────────────────────────────────────────────────────

/// A small deterministic generator for test data.
struct Lcg(u64);

impl Lcg {
    fn next(&mut self) -> u32 {
        self.0 = self.0.wrapping_mul(6364136223846793005).wrapping_add(1442695040888963407);
        (self.0 >> 33) as u32
    }
    fn sample(&mut self) -> i16 {
        self.next() as u16 as i16
    }
    fn range(&mut self, lo: i32, hi: i32) -> i32 {
        lo + (self.next() % ((hi - lo + 1) as u32)) as i32
    }
}

/// The frame encoder written with floating-point quantization: each residual is divided by
/// the step as an `f64` and rounded by adding (or subtracting) 0.4999999, then truncated.
fn float_encode_frame(pcm: &mut [i16; 16], n: usize, coefs: &Coefs) -> [u8; 8] {
    let mut best: Option<(f64, usize, i32, [i32; 16], [i32; 14])> = None;
    for (i, pair) in coefs.iter().enumerate() {
        let (c0, c1) = (pair[0] as i32, pair[1] as i32);
        let mut peak = 0i32;
        for s in 0..n {
            let p = (pcm[s] as i32 * c1 + pcm[s + 1] as i32 * c0) / 2048;
            let e = (pcm[s + 2] as i32 - p).clamp(-32768, 32767);
            if e.abs() > peak.abs() {
                peak = e;
            }
        }
        let mut t = 0i32;
        let mut d = peak;
        while t <= 12 && !(-8..=7).contains(&d) {
            t += 1;
            d /= 2;
        }
        let mut scale = if t <= 1 { -1 } else { t - 2 };
        let (hist, nibs, err) = loop {
            scale += 1;
            let mut hist = [0i32; 16];
            hist[0] = pcm[0] as i32;
            hist[1] = pcm[1] as i32;
            let mut nibs = [0i32; 14];
            let mut over = 0i32;
            let mut err = 0f64;
            for s in 0..n {
                let pred = hist[s] * c1 + hist[s + 1] * c0;
                let resid = ((pcm[s + 2] as i32) * 2048 - pred) / 2048;
                let ratio = resid as f64 / (1i32 << scale) as f64;
                let q = if resid > 0 {
                    (ratio + 0.4999999) as i32
                } else {
                    (ratio - 0.4999999) as i32
                };
                let nib = q.clamp(-8, 7);
                over = over.max((q - nib).abs());
                nibs[s] = nib;
                let y = ((pred + nib * (1 << scale) * 2048 + 1024) >> 11).clamp(-32768, 32767);
                hist[s + 2] = y;
                let diff = (pcm[s + 2] as i32 - y) as f64;
                err += diff * diff;
            }
            let mut x = over + 8;
            while x > 256 {
                scale += 1;
                if scale >= 12 {
                    scale = 11;
                }
                x >>= 1;
            }
            if !(scale < 12 && over > 1) {
                break (hist, nibs, err);
            }
        };
        if best.map_or(true, |b| err < b.0) {
            best = Some((err, i, scale, hist, nibs));
        }
    }
    let (_, index, scale, hist, nibs) = best.unwrap();
    for s in 0..n {
        pcm[s + 2] = hist[s + 2] as i16;
    }
    let nib = |j: usize| if j < n { nibs[j] } else { 0 };
    let mut out = [0u8; 8];
    out[0] = ((index as i32) << 4 | scale) as u8;
    for k in 0..7 {
        out[k + 1] = ((nib(2 * k) << 4) | (nib(2 * k + 1) & 0xF)) as u8;
    }
    out
}

/// A DSP-ADPCM decoder for one frame: returns the decoded samples.
fn decode_frame(frame: &[u8; 8], coefs: &Coefs, h2: i16, h1: i16, n: usize) -> Vec<i16> {
    let index = (frame[0] >> 4) as usize;
    let scale = (frame[0] & 0xF) as i32;
    let (c0, c1) = (coefs[index][0] as i32, coefs[index][1] as i32);
    let (mut h2, mut h1) = (h2 as i32, h1 as i32);
    let mut out = Vec::new();
    for j in 0..n {
        let byte = frame[1 + j / 2];
        let code = if j % 2 == 0 { byte >> 4 } else { byte & 0xF } as i32;
        let nib = if code >= 8 { code - 16 } else { code };
        let y = ((h1 * c0 + h2 * c1 + ((nib << scale) << 11) + 1024) >> 11).clamp(-32768, 32767);
        out.push(y as i16);
        h2 = h1;
        h1 = y;
    }
    out
}

fn random_coefs(rng: &mut Lcg, limit: i32) -> Coefs {
    let mut coefs: Coefs = [[0; 2]; 8];
    for pair in coefs.iter_mut() {
        let c0 = rng.range(-limit, limit);
        let c1 = rng.range(-limit, limit);
        *pair = [c0 as i16, c1 as i16];
    }
    coefs
}

// ── Frame encoder ───────────────────────────────────────────────────────────

#[test]
fn frames_match_float_quantization() {
    let mut rng = Lcg(7);
    for round in 0..3000 {
        let limit = [64, 2048, 4096, 16000, 31680][round % 5];
        let coefs = random_coefs(&mut rng, limit);
        let mut pcm = [0i16; 16];
        let loud = round % 3 == 0;
        for v in pcm.iter_mut() {
            *v = if loud { rng.sample() } else { rng.range(-300, 300) as i16 };
        }
        let n = if round % 5 == 0 { rng.range(0, 14) as usize } else { 14 };
        let mut a = pcm;
        let mut b = pcm;
        let fa = encode_frame(&mut a, n, &coefs);
        let fb = float_encode_frame(&mut b, n, &coefs);
        assert_eq!(fa, fb, "frame differs in round {round}");
        assert_eq!(a, b, "reconstruction differs in round {round}");
    }
}

#[test]
fn decoding_a_frame_gives_back_the_reconstruction() {
    let mut rng = Lcg(11);
    for round in 0..500 {
        let coefs = random_coefs(&mut rng, 4096);
        let mut pcm = [0i16; 16];
        for v in pcm.iter_mut() {
            *v = rng.sample();
        }
        let n = if round % 2 == 0 { 14 } else { rng.range(0, 14) as usize };
        let before = pcm;
        let frame = encode_frame(&mut pcm, n, &coefs);
        let decoded = decode_frame(&frame, &coefs, before[0], before[1], n);
        assert_eq!(&decoded[..], &pcm[2..2 + n]);
        // Only the live samples change.
        assert_eq!(&pcm[..2], &before[..2]);
        assert_eq!(&pcm[2 + n..], &before[2 + n..]);
    }
}

#[test]
fn header_names_a_predictor_and_a_scale() {
    let mut rng = Lcg(3);
    for _ in 0..300 {
        let coefs = random_coefs(&mut rng, 4096);
        let mut pcm = [0i16; 16];
        for v in pcm.iter_mut() {
            *v = rng.sample();
        }
        let frame = encode_frame(&mut pcm, 14, &coefs);
        assert!(frame[0] >> 4 < 8);
        assert!(frame[0] & 0xF <= 12);
    }
}

#[test]
fn exact_predictor_is_chosen_for_a_ramp() {
    // With a predictor of 2*h1 - h2 a ramp is predicted exactly; it wins with scale 0.
    let mut coefs: Coefs = [[0; 2]; 8];
    coefs[5] = [4096, -2048];
    let mut pcm = [0i16; 16];
    for (j, v) in pcm.iter_mut().enumerate() {
        *v = (j as i16) * 100;
    }
    let expected = pcm;
    let frame = encode_frame(&mut pcm, 14, &coefs);
    assert_eq!(frame, [0x50, 0, 0, 0, 0, 0, 0, 0]);
    assert_eq!(pcm, expected);
}

#[test]
fn single_step_is_quantized_with_scale_zero() {
    // Zero predictors, history 0, one sample of 3: residual 3 at scale 0, rest silence.
    let coefs: Coefs = [[0; 2]; 8];
    let mut pcm = [0i16; 16];
    pcm[2] = 3;
    let frame = encode_frame(&mut pcm, 14, &coefs);
    assert_eq!(frame, [0x00, 0x30, 0, 0, 0, 0, 0, 0]);
    assert_eq!(pcm[2], 3);
}

#[test]
fn large_residual_raises_the_scale() {
    // A step of 1000: the first pass at scale 6 gives 16 (overshoot 9), the second at
    // scale 7 gives 8 (overshoot 1), which ends the search.
    let coefs: Coefs = [[0; 2]; 8];
    let mut pcm = [0i16; 16];
    pcm[2] = 1000;
    let mut float_pcm = pcm;
    let frame = encode_frame(&mut pcm, 1, &coefs);
    let expected = float_encode_frame(&mut float_pcm, 1, &coefs);
    assert_eq!(frame, expected);
    assert_eq!(pcm, float_pcm);
    assert_eq!(frame[0] & 0xF, 7);
    assert_eq!(frame[1] >> 4, 7);
}

#[test]
fn out_of_bound_predictors_are_detected() {
    let mut coefs: Coefs = [[0; 2]; 8];
    assert!(coefs_in_bounds(&coefs));
    coefs[3] = [32767, 32767];
    assert!(!coefs_in_bounds(&coefs));
    coefs[3] = [31680, -31680];
    assert!(coefs_in_bounds(&coefs));
    coefs[3] = [31681, -31680];
    assert!(!coefs_in_bounds(&coefs));
}

// ── Streams ─────────────────────────────────────────────────────────────────

#[test]
fn stream_is_chained_frames() {
    let mut rng = Lcg(5);
    let coefs = random_coefs(&mut rng, 2048);
    let samples: Vec<i16> = (0..100).map(|_| rng.range(-5000, 5000) as i16).collect();
    let (returned, stream) = encode_all(&samples, &coefs);
    assert_eq!(returned, coefs);
    assert_eq!(stream.len(), 8 * ((samples.len() + 13) / 14));
    let mut conv = [0i16; 16];
    for (p, chunk) in stream.chunks(8).enumerate() {
        for s in 0..14 {
            conv[s + 2] = *samples.get(p * 14 + s).unwrap_or(&0);
        }
        let frame = encode_frame(&mut conv, 14, &coefs);
        assert_eq!(&frame[..], chunk);
        conv[0] = conv[14];
        conv[1] = conv[15];
    }
}

#[test]
fn empty_stream_has_no_frames() {
    let coefs: Coefs = [[0; 2]; 8];
    let (_, stream) = encode_all(&[], &coefs);
    assert!(stream.is_empty());
}

// ── Analysis windows ────────────────────────────────────────────────────────

#[test]
fn windows_carry_exact_correlations() {
    let mut rng = Lcg(9);
    let n = 0x3800 + 40;
    let samples: Vec<i16> = (0..n).map(|i| if i % 700 < 30 { 0 } else { rng.sample() }).collect();
    let windows = voiced_window_correlations(&samples);
    let mut expected = Vec::new();
    for w in 0..(n + 13) / 14 {
        let at = |k: i64| -> i64 {
            let idx = 14 * w as i64 + k;
            if idx >= 0 && (idx as usize) < n { samples[idx as usize] as i64 } else { 0 }
        };
        let lag = |a: i64, b: i64| (0..14).map(|z| at(z - a) * at(z - b)).sum::<i64>();
        if lag(0, 0) > 10 {
            expected.push(([-lag(0, 0), -lag(1, 0), -lag(2, 0)], [lag(1, 1), lag(1, 2), lag(2, 1), lag(2, 2)]));
        }
    }
    assert_eq!(windows.len(), expected.len());
    for (c, (v, m)) in windows.iter().zip(expected) {
        assert_eq!(c.vec, v);
        assert_eq!([c.mtx[1][1], c.mtx[1][2], c.mtx[2][1], c.mtx[2][2]], m);
        assert_eq!([c.mtx[0], [c.mtx[1][0], c.mtx[2][0], 0]], [[0; 3], [0; 3]]);
    }
}

#[test]
fn quiet_windows_are_dropped() {
    // Energy 9 and 10 are not enough; 11 is.
    let mut samples = vec![0i16; 42];
    samples[0] = 3; // window 0: 9
    samples[14] = 3; // window 1: 9 + 1 = 10
    samples[15] = 1;
    samples[28] = 3; // window 2: 9 + 1 + 1 = 11
    samples[29] = 1;
    samples[30] = 1;
    let windows = voiced_window_correlations(&samples);
    assert_eq!(windows.len(), 1);
    assert_eq!(windows[0].vec[0], -11);
}

fn analysis_of(samples: &[i16]) -> Vec<([i64; 3], [[i64; 3]; 3])> {
    voiced_window_correlations(samples).iter().map(|c| (c.vec, c.mtx)).collect()
}

#[test]
fn analysis_ignores_sign() {
    let mut rng = Lcg(21);
    let samples: Vec<i16> = (0..500).map(|_| rng.sample().max(-32767)).collect();
    let negated: Vec<i16> = samples.iter().map(|&x| -x).collect();
    let a = analysis_of(&samples);
    assert!(!a.is_empty());
    assert_eq!(analysis_of(&negated), a);
}

#[test]
fn analysis_ignores_zero_padding() {
    let mut rng = Lcg(33);
    let samples: Vec<i16> = (0..101).map(|_| rng.sample()).collect();
    let a = analysis_of(&samples);
    assert!(!a.is_empty());
    // Zeros after the input.
    let mut tail = samples.clone();
    tail.extend(std::iter::repeat(0i16).take(0x3800 + 5));
    assert_eq!(analysis_of(&tail), a);
    // Whole windows of zeros before it.
    let mut head = vec![0i16; 14 * 3];
    head.extend_from_slice(&samples);
    assert_eq!(analysis_of(&head), a);
}
