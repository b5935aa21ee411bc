//! The integer front end of coefficient analysis: the input is cut into windows of 14
//! samples (blocks of 0x3800 samples, the last window of the input zero-padded), and for
//! each window the autocorrelation terms against the window before it are summed exactly.
//! Windows with too little energy carry no predictor information and are dropped.
use vstd::prelude::*;

use crate::codec::{frame_count, padded};

verus! {

/// Samples per analysis block.
pub const ANALYSIS_BLOCK: usize = 0x3800;

/// Sample `j` of the 28-sample buffer for window `w`: `j < 14` the window before (zero
/// before the first), `j >= 14` window `w` itself.
pub open spec fn window_sample(samples: Seq<i16>, w: int, j: int) -> int {
    if j < 14 {
        if w == 0 {
            0
        } else {
            padded(samples, 14 * (w - 1) + j)
        }
    } else {
        padded(samples, 14 * w + j - 14)
    }
}

/// `sum_{z < k} s[14 + z - a] * s[14 + z - b]` over the buffer of window `w`.
pub open spec fn lag_sum(samples: Seq<i16>, w: int, a: int, b: int, k: nat) -> int
    decreases k,
{
    if k == 0 {
        0
    } else {
        lag_sum(samples, w, a, b, (k - 1) as nat) + window_sample(samples, w, 14 + k - 1 - a)
            * window_sample(samples, w, 14 + k - 1 - b)
    }
}

/// The autocorrelation of a window: `vec[i] = -sum_x s[x - i] * s[x]` for lags `0..=2`,
/// and `mtx[x][y] = sum_z s[z - x] * s[z - y]` for `x, y` in `1..=2` (zero elsewhere).
pub struct Correlation {
    pub vec: [i64; 3],
    pub mtx: [[i64; 3]; 3],
}

/// The correlation of window `w` is `c`.
pub open spec fn is_window_correlation(samples: Seq<i16>, w: int, c: Correlation) -> bool {
    &&& forall|i: int| 0 <= i < 3 ==> #[trigger] c.vec[i] == -lag_sum(samples, w, i, 0, 14)
    &&& forall|x: int, y: int|
        0 <= x < 3 && 0 <= y < 3 ==> #[trigger] c.mtx[x][y] == if 1 <= x && 1 <= y {
            lag_sum(samples, w, x, y, 14)
        } else {
            0
        }
}

/// Window `w` has enough energy to take part in the analysis.
pub open spec fn is_voiced(samples: Seq<i16>, w: int) -> bool {
    lag_sum(samples, w, 0, 0, 14) > 10
}

/// The voiced windows among the first `k`, in order.
pub open spec fn voiced_windows(samples: Seq<i16>, k: nat) -> Seq<int>
    decreases k,
{
    if k == 0 {
        Seq::empty()
    } else if is_voiced(samples, k - 1) {
        voiced_windows(samples, (k - 1) as nat).push(k - 1)
    } else {
        voiced_windows(samples, (k - 1) as nat)
    }
}

/// `res` is the analysis of `samples`: one correlation per voiced window, in window order,
/// over the `ceil(len / 14)` windows of the input.
pub open spec fn is_analysis_of(samples: Seq<i16>, res: Seq<Correlation>) -> bool {
    let ws = voiced_windows(samples, frame_count(samples.len() as int) as nat);
    &&& res.len() == ws.len()
    &&& forall|k: int| 0 <= k < res.len() ==> is_window_correlation(samples, ws[k], #[trigger] res[k])
}

proof fn lemma_lag_sum_bound(samples: Seq<i16>, w: int, a: int, b: int, k: nat)
    requires
        0 <= a <= 2,
        0 <= b <= 2,
    ensures
        -1073741824 * k <= lag_sum(samples, w, a, b, k) <= 1073741824 * k,
    decreases k,
{
    if k > 0 {
        lemma_lag_sum_bound(samples, w, a, b, (k - 1) as nat);
        let u = window_sample(samples, w, 14 + k - 1 - a);
        let v = window_sample(samples, w, 14 + k - 1 - b);
        assert(-32768 <= u <= 32767 && -32768 <= v <= 32767);
        assert(-1073741824 <= u * v <= 1073741824) by (nonlinear_arith)
            requires
                -32768 <= u <= 32767,
                -32768 <= v <= 32767,
        ;
    }
}

/// The zero-lag term `-sum s[x]^2` and the cross terms at lags 1 and 2 of the buffer.
fn inner_product_merge(vec_out: &mut [i64; 3], buf: &[i16; 28], offset: usize, Ghost(
    samples,
): Ghost<Seq<i16>>, Ghost(w): Ghost<int>)
    requires
        offset == 14,
        forall|j: int| 0 <= j < 28 ==> (#[trigger] buf@[j]) as int == window_sample(samples, w, j),
    ensures
        forall|i: int| 0 <= i < 3 ==> #[trigger] final(vec_out)@[i] == -lag_sum(samples, w, i, 0, 14),
{
    let mut i: usize = 0;
    while i <= 2
        invariant
            i <= 3,
            offset == 14,
            forall|j: int| 0 <= j < 28 ==> (#[trigger] buf@[j]) as int == window_sample(samples, w, j),
            forall|k: int| 0 <= k < i ==> #[trigger] vec_out@[k] == -lag_sum(samples, w, k, 0, 14),
        decreases 3 - i,
    {
        let mut acc: i64 = 0;
        let mut x: usize = 0;
        while x < 14
            invariant
                x <= 14,
                i <= 2,
                offset == 14,
                forall|j: int|
                    0 <= j < 28 ==> (#[trigger] buf@[j]) as int == window_sample(samples, w, j),
                acc == -lag_sum(samples, w, i as int, 0, x as nat),
            decreases 14 - x,
        {
            proof {
                lemma_lag_sum_bound(samples, w, i as int, 0, x as nat);
            }
            let a = buf[offset + x - i] as i64;
            let b = buf[offset + x] as i64;
            assert(-1073741824 <= a * b <= 1073741824) by (nonlinear_arith)
                requires
                    -32768 <= a <= 32767,
                    -32768 <= b <= 32767,
            ;
            acc = acc - a * b;
            x = x + 1;
        }
        vec_out[i] = acc;
        i = i + 1;
    }
}

/// The lag products `sum s[z - x] * s[z - y]` for `x, y` in `1..=2`.
fn outer_product_merge(mtx_out: &mut [[i64; 3]; 3], buf: &[i16; 28], offset: usize, Ghost(
    samples,
): Ghost<Seq<i16>>, Ghost(w): Ghost<int>)
    requires
        offset == 14,
        forall|j: int| 0 <= j < 28 ==> (#[trigger] buf@[j]) as int == window_sample(samples, w, j),
        forall|x: int, y: int| 0 <= x < 3 && 0 <= y < 3 ==> #[trigger] old(mtx_out)@[x]@[y] == 0,
    ensures
        forall|x: int, y: int|
            0 <= x < 3 && 0 <= y < 3 ==> #[trigger] final(mtx_out)@[x]@[y] == if 1 <= x && 1 <= y {
                lag_sum(samples, w, x, y, 14)
            } else {
                0
            },
{
    let mut x: usize = 1;
    while x <= 2
        invariant
            1 <= x <= 3,
            offset == 14,
            forall|j: int| 0 <= j < 28 ==> (#[trigger] buf@[j]) as int == window_sample(samples, w, j),
            forall|a: int, b: int|
                0 <= a < 3 && 0 <= b < 3 ==> #[trigger] mtx_out@[a]@[b] == if 1 <= a < x && 1 <= b {
                    lag_sum(samples, w, a, b, 14)
                } else {
                    0
                },
        decreases 3 - x,
    {
        let mut y: usize = 1;
        while y <= 2
            invariant
                1 <= x <= 2,
                1 <= y <= 3,
                offset == 14,
                forall|j: int|
                    0 <= j < 28 ==> (#[trigger] buf@[j]) as int == window_sample(samples, w, j),
                forall|a: int, b: int|
                    0 <= a < 3 && 0 <= b < 3 ==> #[trigger] mtx_out@[a]@[b] == if (1 <= a < x && 1
                        <= b) || (a == x && 1 <= b < y) {
                        lag_sum(samples, w, a, b, 14)
                    } else {
                        0
                    },
            decreases 3 - y,
        {
            let mut acc: i64 = 0;
            let mut z: usize = 0;
            while z < 14
                invariant
                    z <= 14,
                    1 <= x <= 2,
                    1 <= y <= 2,
                    offset == 14,
                    forall|j: int|
                        0 <= j < 28 ==> (#[trigger] buf@[j]) as int == window_sample(samples, w, j),
                    acc == lag_sum(samples, w, x as int, y as int, z as nat),
                decreases 14 - z,
            {
                proof {
                    lemma_lag_sum_bound(samples, w, x as int, y as int, z as nat);
                }
                let a = buf[offset + z - x] as i64;
                let b = buf[offset + z - y] as i64;
                assert(-1073741824 <= a * b <= 1073741824) by (nonlinear_arith)
                    requires
                        -32768 <= a <= 32767,
                        -32768 <= b <= 32767,
                ;
                acc = acc + a * b;
                z = z + 1;
            }
            let mut row = mtx_out[x];
            row[y] = acc;
            mtx_out[x] = row;
            y = y + 1;
        }
        x = x + 1;
    }
}


/// The correlations of the voiced windows of `samples`, in window order.
///
/// The input is taken in blocks of `ANALYSIS_BLOCK` samples and each block in windows of
/// 14; the 28-sample buffer keeps the previous window, carried across blocks. Since a
/// block holds a whole number of windows, window `w` covers samples `14w..14w + 14`
/// (zero past the end), and there are `ceil(len / 14)` windows.
pub fn voiced_window_correlations(samples: &[i16]) -> (res: Vec<Correlation>)
    ensures
        is_analysis_of(samples@, res@),
{
    let total = samples.len();
    let mut records: Vec<Correlation> = Vec::new();
    let mut pcm_hist = [0i16; 28];
    let mut src_pos: usize = 0;
    let ghost mut w: int = 0;
    while src_pos < total
        invariant
            total == samples@.len(),
            src_pos <= total,
            src_pos < total ==> w * 14 == src_pos,
            src_pos == total ==> w == frame_count(total as int),
            src_pos % ANALYSIS_BLOCK == 0 || src_pos == total,
            0 <= w,
            forall|j: int|
                0 <= j < 14 ==> (#[trigger] pcm_hist@[j + 14]) as int == window_sample(
                    samples@,
                    w,
                    j,
                ),
            records@.len() == voiced_windows(samples@, w as nat).len(),
            forall|k: int|
                0 <= k < records@.len() ==> is_window_correlation(
                    samples@,
                    voiced_windows(samples@, w as nat)[k],
                    #[trigger] records@[k],
                ),
        decreases total - src_pos,
    {
        let frame_samples: usize = if total - src_pos < ANALYSIS_BLOCK {
            total - src_pos
        } else {
            ANALYSIS_BLOCK
        };
        let block_start = src_pos;
        src_pos = src_pos + frame_samples;
        let mut i: usize = 0;
        while i < frame_samples
            invariant
                total == samples@.len(),
                block_start + frame_samples == src_pos,
                src_pos <= total,
                frame_samples == ANALYSIS_BLOCK || src_pos == total,
                frame_samples <= ANALYSIS_BLOCK,
                0 < frame_samples,
                i % 14 == 0,
                i <= frame_samples + 13,
                i < frame_samples ==> w * 14 == block_start + i,
                i >= frame_samples ==> w * 14 == block_start + i,
                0 <= w,
                forall|j: int|
                    0 <= j < 14 ==> (#[trigger] pcm_hist@[j + 14]) as int == window_sample(
                        samples@,
                        w,
                        j,
                    ),
                records@.len() == voiced_windows(samples@, w as nat).len(),
                forall|k: int|
                    0 <= k < records@.len() ==> is_window_correlation(
                        samples@,
                        voiced_windows(samples@, w as nat)[k],
                        #[trigger] records@[k],
                    ),
            decreases frame_samples + 13 - i,
        {
            // Shift: previous <- current.
            let mut z: usize = 0;
            while z < 14
                invariant
                    z <= 14,
                    forall|j: int|
                        0 <= j < 14 ==> (#[trigger] pcm_hist@[j + 14]) as int == window_sample(
                            samples@,
                            w,
                            j,
                        ),
                    forall|j: int| 0 <= j < z ==> #[trigger] pcm_hist@[j] == pcm_hist@[j + 14],
                decreases 14 - z,
            {
                pcm_hist[z] = pcm_hist[14 + z];
                z = z + 1;
            }
            // Fill the current window, zero past the end of the block.
            let mut z: usize = 0;
            while z < 14
                invariant
                    z <= 14,
                    total == samples@.len(),
                    block_start + frame_samples <= total,
                    frame_samples == ANALYSIS_BLOCK || block_start + frame_samples == total,
                    frame_samples <= ANALYSIS_BLOCK,
                    i < frame_samples,
                    i % 14 == 0,
                    w * 14 == block_start + i,
                    0 <= w,
                    forall|j: int|
                        0 <= j < 14 ==> (#[trigger] pcm_hist@[j]) as int == window_sample(
                            samples@,
                            w,
                            j,
                        ),
                    forall|j: int|
                        0 <= j < z ==> (#[trigger] pcm_hist@[j + 14]) as int == window_sample(
                            samples@,
                            w,
                            j + 14,
                        ),
                decreases 14 - z,
            {
                let idx = i + z;
                pcm_hist[14 + z] = if idx < frame_samples {
                    samples[block_start + idx]
                } else {
                    0
                };
                z = z + 1;
            }
            i = i + 14;
            proof {
                w = w + 1;
            }
            let ghost win = w - 1;
            assert forall|j: int| 0 <= j < 28 implies (#[trigger] pcm_hist@[j]) as int
                == window_sample(samples@, win, j) by {
                if j >= 14 {
                    assert(pcm_hist@[(j - 14) + 14] as int == window_sample(samples@, win, j));
                }
            }
            let mut vec1 = [0i64; 3];
            inner_product_merge(&mut vec1, &pcm_hist, 14, Ghost(samples@), Ghost(win));
            if vec1[0] < -10 || vec1[0] > 10 {
                let mut mtx = [[0i64; 3]; 3];
                outer_product_merge(&mut mtx, &pcm_hist, 14, Ghost(samples@), Ghost(win));
                let ghost before = records@;
                records.push(Correlation { vec: vec1, mtx });
                proof {
                    lemma_lag_sum_square(samples@, win, 14);
                    assert(is_voiced(samples@, win));
                    assert(voiced_windows(samples@, w as nat) == voiced_windows(
                        samples@,
                        win as nat,
                    ).push(win));
                    assert forall|k: int| 0 <= k < records@.len() implies is_window_correlation(
                        samples@,
                        voiced_windows(samples@, w as nat)[k],
                        #[trigger] records@[k],
                    ) by {
                        if k < before.len() {
                            assert(records@[k] == before[k]);
                        }
                    }
                }
            } else {
                proof {
                    lemma_lag_sum_square(samples@, win, 14);
                    assert(!is_voiced(samples@, win));
                }
            }
            assert forall|j: int| 0 <= j < 14 implies (#[trigger] pcm_hist@[j + 14]) as int
                == window_sample(samples@, w, j) by {
                assert(pcm_hist@[j + 14] as int == window_sample(samples@, win, j + 14));
            }
        }
        proof {
            if src_pos == total {
                assert(w == frame_count(total as int)) by (nonlinear_arith)
                    requires
                        w * 14 == block_start + i,
                        i % 14 == 0,
                        frame_samples <= i <= frame_samples + 13,
                        block_start + frame_samples == total,
                        block_start % 14 == 0,
                ;
            }
        }
    }
    records
}

/// The zero-lag sum is a sum of squares.
proof fn lemma_lag_sum_square(samples: Seq<i16>, w: int, k: nat)
    ensures
        lag_sum(samples, w, 0, 0, k) >= 0,
    decreases k,
{
    if k > 0 {
        lemma_lag_sum_square(samples, w, (k - 1) as nat);
        let u = window_sample(samples, w, 14 + k - 1);
        assert(u * u >= 0) by (nonlinear_arith);
    }
}

// ── Laws ────────────────────────────────────────────────────────────────────

/// Windows whose buffers hold the same samples have the same lag sums.
proof fn lemma_lag_sum_same(s1: Seq<i16>, w1: int, s2: Seq<i16>, w2: int, a: int, b: int, k: nat)
    requires
        0 <= a <= 2,
        0 <= b <= 2,
        k <= 14,
        forall|j: int| 0 <= j < 28 ==> window_sample(s2, w2, j) == window_sample(s1, w1, j),
    ensures
        lag_sum(s2, w2, a, b, k) == lag_sum(s1, w1, a, b, k),
    decreases k,
{
    if k > 0 {
        lemma_lag_sum_same(s1, w1, s2, w2, a, b, (k - 1) as nat);
        assert(window_sample(s2, w2, 14 + k - 1 - a) == window_sample(s1, w1, 14 + k - 1 - a));
        assert(window_sample(s2, w2, 14 + k - 1 - b) == window_sample(s1, w1, 14 + k - 1 - b));
    }
}

/// Windows whose buffers hold opposite samples have the same lag sums.
proof fn lemma_lag_sum_negated(s1: Seq<i16>, s2: Seq<i16>, w: int, a: int, b: int, k: nat)
    requires
        0 <= a <= 2,
        0 <= b <= 2,
        k <= 14,
        forall|j: int| 0 <= j < 28 ==> window_sample(s2, w, j) == -window_sample(s1, w, j),
    ensures
        lag_sum(s2, w, a, b, k) == lag_sum(s1, w, a, b, k),
    decreases k,
{
    if k > 0 {
        lemma_lag_sum_negated(s1, s2, w, a, b, (k - 1) as nat);
        let u = window_sample(s1, w, 14 + k - 1 - a);
        let v = window_sample(s1, w, 14 + k - 1 - b);
        assert(window_sample(s2, w, 14 + k - 1 - a) == -u);
        assert(window_sample(s2, w, 14 + k - 1 - b) == -v);
        assert((-u) * (-v) == u * v) by (nonlinear_arith);
    }
}

/// A window whose own 14 samples are zero has no energy.
proof fn lemma_silent_window(s: Seq<i16>, w: int, k: nat)
    requires
        k <= 14,
        forall|j: int| 14 <= j < 28 ==> window_sample(s, w, j) == 0,
    ensures
        lag_sum(s, w, 0, 0, k) == 0,
    decreases k,
{
    if k > 0 {
        lemma_silent_window(s, w, (k - 1) as nat);
        assert(window_sample(s, w, 14 + k - 1) == 0);
    }
}

/// Windows past the end of the input are silent.
proof fn lemma_unvoiced_past_end(s: Seq<i16>, w: int)
    requires
        w >= frame_count(s.len() as int),
    ensures
        !is_voiced(s, w),
{
    assert forall|j: int| 14 <= j < 28 implies window_sample(s, w, j) == 0 by {
        assert(14 * w + j - 14 >= s.len()) by (nonlinear_arith)
            requires
                w >= (s.len() + 13) / 14,
                j >= 14,
        ;
    }
    lemma_silent_window(s, w, 14);
}

/// No window past the end of the input is voiced.
proof fn lemma_voiced_windows_stop(s: Seq<i16>, k: nat)
    requires
        k >= frame_count(s.len() as int),
    ensures
        voiced_windows(s, k) == voiced_windows(s, frame_count(s.len() as int) as nat),
    decreases k,
{
    if k > frame_count(s.len() as int) {
        lemma_unvoiced_past_end(s, k - 1);
        lemma_voiced_windows_stop(s, (k - 1) as nat);
    }
}

/// Whether `s2`'s window `w + m` looks like `s1`'s window `w` (same lag sums), for every
/// window `w >= 0`.
spec fn windows_match(s1: Seq<i16>, s2: Seq<i16>, m: int) -> bool {
    forall|w: int, a: int, b: int|
        0 <= w && 0 <= a <= 2 && 0 <= b <= 2 ==> #[trigger] lag_sum(s2, w + m, a, b, 14)
            == lag_sum(s1, w, a, b, 14)
}

/// None of the first `j` windows is voiced when none of the first `m >= j` is.
proof fn lemma_no_voiced_windows(s: Seq<i16>, m: nat, j: nat)
    requires
        j <= m,
        forall|w: int| 0 <= w < m ==> !#[trigger] is_voiced(s, w),
    ensures
        voiced_windows(s, j) == Seq::<int>::empty(),
    decreases j,
{
    if j > 0 {
        lemma_no_voiced_windows(s, m, (j - 1) as nat);
        assert(!is_voiced(s, j - 1));
    }
}

/// The voiced windows of `s2` are those of `s1` moved `m` later, when the first `m`
/// windows of `s2` are unvoiced and the rest match those of `s1`.
proof fn lemma_voiced_windows_shift(s1: Seq<i16>, s2: Seq<i16>, m: nat, k: nat)
    requires
        windows_match(s1, s2, m as int),
        forall|w: int| 0 <= w < m ==> !#[trigger] is_voiced(s2, w),
    ensures
        voiced_windows(s2, m + k) == voiced_windows(s1, k).map_values(|w: int| w + m),
    decreases k,
{
    if k == 0 {
        lemma_no_voiced_windows(s2, m, m);
        assert(voiced_windows(s1, 0).map_values(|w: int| w + m) =~= Seq::<int>::empty());
    } else {
        lemma_voiced_windows_shift(s1, s2, m, (k - 1) as nat);
        let w = k - 1;
        assert(lag_sum(s2, w + m, 0, 0, 14) == lag_sum(s1, w, 0, 0, 14));
        assert(is_voiced(s2, m + k - 1) == is_voiced(s1, k - 1));
        assert(voiced_windows(s2, m + k) =~= voiced_windows(s1, k).map_values(|w: int| w + m));
    }
}

/// Two inputs have the same analysis when the first `m` windows of `s2` are unvoiced, its
/// later windows match those of `s1` moved by `m`, and it has at least `m` more windows.
proof fn lemma_same_analysis(s1: Seq<i16>, s2: Seq<i16>, m: nat, res: Seq<Correlation>)
    requires
        windows_match(s1, s2, m as int),
        forall|w: int| 0 <= w < m ==> !#[trigger] is_voiced(s2, w),
        frame_count(s2.len() as int) >= m + frame_count(s1.len() as int),
    ensures
        is_analysis_of(s2, res) == is_analysis_of(s1, res),
{
    let f1 = frame_count(s1.len() as int) as nat;
    let f2 = frame_count(s2.len() as int) as nat;
    let k = (f2 - m) as nat;
    lemma_voiced_windows_stop(s1, k);
    lemma_voiced_windows_shift(s1, s2, m, k);
    let ws1 = voiced_windows(s1, f1);
    let ws2 = voiced_windows(s2, f2);
    assert(ws2 == ws1.map_values(|w: int| w + m));
    assert forall|i: int| 0 <= i < ws1.len() implies ws1[i] >= 0 by {
        lemma_voiced_windows_range(s1, f1, i);
    }
    assert forall|i: int, c: Correlation| 0 <= i < ws1.len() implies is_window_correlation(
        s2,
        ws2[i],
        c,
    ) == is_window_correlation(s1, ws1[i], c) by {
        let w = ws1[i];
        assert(ws2[i] == w + m);
        assert forall|a: int, b: int| 0 <= a <= 2 && 0 <= b <= 2 implies lag_sum(
            s2,
            w + m,
            a,
            b,
            14,
        ) == lag_sum(s1, w, a, b, 14) by {}
    }
    if is_analysis_of(s1, res) {
        assert forall|j: int| 0 <= j < res.len() implies is_window_correlation(
            s2,
            ws2[j],
            #[trigger] res[j],
        ) by {}
    }
    if is_analysis_of(s2, res) {
        assert forall|j: int| 0 <= j < res.len() implies is_window_correlation(
            s1,
            ws1[j],
            #[trigger] res[j],
        ) by {}
    }
}

/// Every listed voiced window is a window of the input.
proof fn lemma_voiced_windows_range(s: Seq<i16>, k: nat, i: int)
    requires
        0 <= i < voiced_windows(s, k).len(),
    ensures
        0 <= voiced_windows(s, k)[i] < k,
    decreases k,
{
    if k > 0 {
        let prev = voiced_windows(s, (k - 1) as nat);
        if i < prev.len() {
            lemma_voiced_windows_range(s, (k - 1) as nat, i);
        }
    }
}

/// Negating every sample leaves the analysis unchanged: the same windows are voiced and
/// their correlations are the same (each product of two samples keeps its sign).
pub proof fn lemma_analysis_ignores_sign(samples: Seq<i16>, negated: Seq<i16>, res: Seq<Correlation>)
    requires
        negated.len() == samples.len(),
        forall|i: int| 0 <= i < samples.len() ==> negated[i] as int == -(samples[i] as int),
    ensures
        is_analysis_of(negated, res) == is_analysis_of(samples, res),
{
    assert forall|w: int, a: int, b: int|
        0 <= w && 0 <= a <= 2 && 0 <= b <= 2 implies #[trigger] lag_sum(negated, w + 0, a, b, 14)
        == lag_sum(samples, w, a, b, 14) by {
        assert forall|j: int| 0 <= j < 28 implies window_sample(negated, w, j) == -window_sample(
            samples,
            w,
            j,
        ) by {}
        lemma_lag_sum_negated(samples, negated, w, a, b, 14);
    }
    lemma_same_analysis(samples, negated, 0, res);
}

/// Zeros appended to the input leave the analysis unchanged: the windows they add or fill
/// out are silent or unchanged.
pub proof fn lemma_analysis_ignores_trailing_zeros(
    samples: Seq<i16>,
    zeros: Seq<i16>,
    res: Seq<Correlation>,
)
    requires
        forall|i: int| 0 <= i < zeros.len() ==> zeros[i] == 0i16,
    ensures
        is_analysis_of(samples + zeros, res) == is_analysis_of(samples, res),
{
    let s2 = samples + zeros;
    assert forall|w: int, a: int, b: int|
        0 <= w && 0 <= a <= 2 && 0 <= b <= 2 implies #[trigger] lag_sum(s2, w + 0, a, b, 14)
        == lag_sum(samples, w, a, b, 14) by {
        assert forall|j: int| 0 <= j < 28 implies window_sample(s2, w, j) == window_sample(
            samples,
            w,
            j,
        ) by {
            assert forall|idx: int| padded(s2, idx) == padded(samples, idx) by {
                if samples.len() <= idx < s2.len() {
                    assert(s2[idx] == zeros[idx - samples.len()]);
                }
            }
        }
        lemma_lag_sum_same(samples, w, s2, w, a, b, 14);
    }
    assert(frame_count(s2.len() as int) >= frame_count(samples.len() as int));
    lemma_same_analysis(samples, s2, 0, res);
}

/// Whole windows of zeros put before the input leave the analysis unchanged: they are
/// silent, and every later window sees the same samples as before.
pub proof fn lemma_analysis_ignores_leading_zero_windows(
    samples: Seq<i16>,
    zeros: Seq<i16>,
    m: nat,
    res: Seq<Correlation>,
)
    requires
        zeros.len() == 14 * m,
        forall|i: int| 0 <= i < zeros.len() ==> zeros[i] == 0i16,
    ensures
        is_analysis_of(zeros + samples, res) == is_analysis_of(samples, res),
{
    let s2 = zeros + samples;
    let z = 14 * m;
    assert forall|idx: int| #[trigger] padded(s2, idx) == padded(samples, idx - z) by {
        if 0 <= idx < z {
            assert(s2[idx] == zeros[idx]);
        } else if z <= idx < s2.len() {
            assert(s2[idx] == samples[idx - z]);
        }
    }
    assert forall|w: int, a: int, b: int|
        0 <= w && 0 <= a <= 2 && 0 <= b <= 2 implies #[trigger] lag_sum(s2, w + m, a, b, 14)
        == lag_sum(samples, w, a, b, 14) by {
        assert forall|j: int| 0 <= j < 28 implies window_sample(s2, w + m, j) == window_sample(
            samples,
            w,
            j,
        ) by {
            assert(padded(s2, 14 * (w + m - 1) + j) == padded(samples, 14 * (w - 1) + j));
            assert(padded(s2, 14 * (w + m) + j - 14) == padded(samples, 14 * w + j - 14));
        }
        lemma_lag_sum_same(samples, w, s2, w + m, a, b, 14);
    }
    assert forall|w: int| 0 <= w < m implies !#[trigger] is_voiced(s2, w) by {
        assert forall|j: int| 14 <= j < 28 implies window_sample(s2, w, j) == 0 by {
            assert(padded(s2, 14 * w + j - 14) == padded(samples, 14 * w + j - 14 - z));
        }
        lemma_silent_window(s2, w, 14);
    }
    assert(frame_count(s2.len() as int) == m + frame_count(samples.len() as int));
    lemma_same_analysis(samples, s2, m, res);
}

} // verus!
