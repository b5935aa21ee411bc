//! Tests of the BFSTM container, fed with the predictors that the coefficient analysis
//! derives from the samples (its floating-point part is outside the library, so it is
//! repeated here for the tests).
#![allow(clippy::needless_range_loop)]

use gc_dspadpcm::analysis;
use gc_dspadpcm::bfstm::build_bfstm;
use gc_dspadpcm::codec::{encode_frame, Coefs};

type TVec = [f64; 3];

// ── Internal helpers ────────────────────────────────────────────────────────

fn analyze_ranges(mtx: &mut [TVec; 3], vec_idxs_out: &mut [usize; 3]) -> bool {
    let mut recips = [0.0f64; 3];

    for x in 1..=2usize {
        let val = mtx[x][1].abs().max(mtx[x][2].abs());
        if val < f64::EPSILON {
            return true;
        }
        recips[x] = 1.0 / val;
    }

    let mut max_index = 0usize;
    for i in 1..=2usize {
        for x in 1..i {
            let mut tmp = mtx[x][i];
            for y in 1..x {
                tmp -= mtx[x][y] * mtx[y][i];
            }
            mtx[x][i] = tmp;
        }

        let mut val = 0.0f64;
        for x in i..=2usize {
            let mut tmp = mtx[x][i];
            for y in 1..i {
                tmp -= mtx[x][y] * mtx[y][i];
            }
            mtx[x][i] = tmp;
            let t = tmp.abs() * recips[x];
            if t >= val {
                val = t;
                max_index = x;
            }
        }

        if max_index != i {
            for y in 1..=2usize {
                let tmp = mtx[max_index][y];
                mtx[max_index][y] = mtx[i][y];
                mtx[i][y] = tmp;
            }
            recips[max_index] = recips[i];
        }

        vec_idxs_out[i] = max_index;

        if mtx[i][i] == 0.0 {
            return true;
        }

        if i != 2 {
            let tmp = 1.0 / mtx[i][i];
            for x in (i + 1)..=2usize {
                mtx[x][i] *= tmp;
            }
        }
    }

    let mut min = 1.0e10f64;
    let mut max = 0.0f64;
    for i in 1..=2usize {
        let tmp = mtx[i][i].abs();
        if tmp < min {
            min = tmp;
        }
        if tmp > max {
            max = tmp;
        }
    }

    if min / max < 1.0e-10 {
        return true;
    }

    false
}

fn bidirectional_filter(mtx: &mut [TVec; 3], vec_idxs: &[usize; 3], vec_out: &mut TVec) {
    let mut x = 0usize;
    for i in 1..=2usize {
        let index = vec_idxs[i];
        let mut tmp = vec_out[index];
        vec_out[index] = vec_out[i];
        if x != 0 {
            for y in x..i {
                tmp -= vec_out[y] * mtx[i][y];
            }
        } else if tmp != 0.0 {
            x = i;
        }
        vec_out[i] = tmp;
    }

    for i in (1..=2usize).rev() {
        let mut tmp = vec_out[i];
        for y in (i + 1)..=2usize {
            tmp -= vec_out[y] * mtx[i][y];
        }
        vec_out[i] = tmp / mtx[i][i];
    }

    vec_out[0] = 1.0;
}

fn quadratic_merge(in_out_vec: &mut TVec) -> bool {
    let v2 = in_out_vec[2];
    let tmp = 1.0 - v2 * v2;
    if tmp == 0.0 {
        return true;
    }
    let v0 = (in_out_vec[0] - v2 * v2) / tmp;
    let v1 = (in_out_vec[1] - in_out_vec[1] * v2) / tmp;
    in_out_vec[0] = v0;
    in_out_vec[1] = v1;
    v1.abs() > 1.0
}

fn finish_record(in_vec: &mut TVec, out: &mut TVec) {
    for z in 1..=2usize {
        if in_vec[z] >= 1.0 {
            in_vec[z] = 0.9999999999;
        } else if in_vec[z] <= -1.0 {
            in_vec[z] = -0.9999999999;
        }
    }
    out[0] = 1.0;
    out[1] = (in_vec[2] * in_vec[1]) + in_vec[1];
    out[2] = in_vec[2];
}

fn matrix_filter(src: &TVec, dst: &mut TVec) {
    let mut mtx: [TVec; 3] = [[0.0; 3]; 3];
    mtx[2][0] = 1.0;
    for i in 1..=2usize {
        mtx[2][i] = -src[i];
    }
    for i in (1..=2usize).rev() {
        let val = 1.0 - mtx[i][i] * mtx[i][i];
        for y in 1..=i {
            mtx[i - 1][y] = ((mtx[i][i] * mtx[i][y]) + mtx[i][y]) / val;
        }
    }
    dst[0] = 1.0;
    for i in 1..=2usize {
        dst[i] = 0.0;
        for y in 1..=i {
            dst[i] += mtx[i][y] * dst[i - y];
        }
    }
}

fn merge_finish_record(src: &TVec, dst: &mut TVec) {
    let mut tmp: TVec = [0.0; 3];
    let mut val = src[0];
    dst[0] = 1.0;
    for i in 1..=2usize {
        let mut v2 = 0.0f64;
        for y in 1..i {
            v2 += dst[y] * src[i - y];
        }
        dst[i] = if val > 0.0 { -(v2 + src[i]) / val } else { 0.0 };
        tmp[i] = dst[i];
        for y in 1..i {
            dst[y] += dst[i] * dst[i - y];
        }
        val *= 1.0 - dst[i] * dst[i];
    }
    finish_record(&mut tmp, dst);
}

fn contrast_vectors(source1: &TVec, source2: &TVec) -> f64 {
    let val = (source2[2] * source2[1] + -source2[1]) / (1.0 - source2[2] * source2[2]);
    let val1 = source1[0] * source1[0] + source1[1] * source1[1] + source1[2] * source1[2];
    let val2 = source1[0] * source1[1] + source1[1] * source1[2];
    let val3 = source1[0] * source1[2];
    val1 + 2.0 * val * val2 + 2.0 * (-source2[1] * val + -source2[2]) * val3
}

fn filter_records(vec_best: &mut [TVec; 8], exp: usize, records: &[TVec]) {
    let record_count = records.len();
    let mut buffer_list: [TVec; 8] = [[0.0; 3]; 8];
    let mut buffer1: [i32; 8] = [0; 8];
    let mut buffer2: TVec = [0.0; 3];

    for _x in 0..2 {
        for y in 0..exp {
            buffer1[y] = 0;
            buffer_list[y] = [0.0; 3];
        }
        for z in 0..record_count {
            let mut index = 0usize;
            let mut value = 1.0e30f64;
            for i in 0..exp {
                let temp_val = contrast_vectors(&vec_best[i], &records[z]);
                if temp_val < value {
                    value = temp_val;
                    index = i;
                }
            }
            buffer1[index] += 1;
            matrix_filter(&records[z], &mut buffer2);
            for i in 0..=2usize {
                buffer_list[index][i] += buffer2[i];
            }
        }
        for i in 0..exp {
            if buffer1[i] > 0 {
                let n = buffer1[i] as f64;
                for y in 0..=2usize {
                    buffer_list[i][y] /= n;
                }
            }
        }
        for i in 0..exp {
            let src = buffer_list[i];
            merge_finish_record(&src, &mut vec_best[i]);
        }
    }
}

// ── Public functions ─────────────────────────────────────────────────────────

/// Analyse `samples` (mono 16-bit PCM) and return 8 DSP-ADPCM coefficient pairs.
fn correlate_coefs(samples: &[i16]) -> Coefs {
    if samples.is_empty() {
        return [[0i16; 2]; 8];
    }

    // Voiced 14-sample windows and their exact autocorrelation terms.
    let mut records: Vec<TVec> = Vec::new();
    let mut vec_idxs: [usize; 3] = [0; 3];
    for c in analysis::voiced_window_correlations(samples) {
        let mut vec1: TVec = [c.vec[0] as f64, c.vec[1] as f64, c.vec[2] as f64];
        let mut mtx: [TVec; 3] = [[0.0; 3]; 3];
        for x in 0..3 {
            for y in 0..3 {
                mtx[x][y] = c.mtx[x][y] as f64;
            }
        }
        if !analyze_ranges(&mut mtx, &mut vec_idxs) {
            bidirectional_filter(&mut mtx, &vec_idxs, &mut vec1);
            if !quadratic_merge(&mut vec1) {
                let mut record: TVec = [0.0; 3];
                finish_record(&mut vec1, &mut record);
                records.push(record);
            }
        }
    }

    // Degenerate case: silence or very short input
    if records.is_empty() {
        return [[0i16; 2]; 8];
    }

    let record_count = records.len();
    let mut vec1: TVec = [1.0, 0.0, 0.0];

    let mut vec_best: [TVec; 8] = [[0.0; 3]; 8];
    let mut tmp_best: TVec = [0.0; 3];
    for z in 0..record_count {
        matrix_filter(&records[z], &mut tmp_best);
        for y in 1..=2usize {
            vec1[y] += tmp_best[y];
        }
    }
    for y in 1..=2usize {
        vec1[y] /= record_count as f64;
    }
    merge_finish_record(&vec1, &mut vec_best[0]);

    let mut exp = 1usize;
    for w in 0..3 {
        let vec2: TVec = [0.0, -1.0, 0.0];
        for i in 0..exp {
            for y in 0..=2usize {
                vec_best[exp + i][y] = 0.01 * vec2[y] + vec_best[i][y];
            }
        }
        let _ = w;
        exp = 1 << (w + 1);
        filter_records(&mut vec_best, exp, &records);
    }

    // Convert to i16 coefficient pairs
    let mut coefs: Coefs = [[0i16; 2]; 8];
    for z in 0..8usize {
        let d0 = -vec_best[z][1] * 2048.0;
        coefs[z][0] = if d0 > 32767.0 {
            32767
        } else if d0 < -32768.0 {
            -32768
        } else {
            d0.round() as i16
        };

        let d1 = -vec_best[z][2] * 2048.0;
        coefs[z][1] = if d1 > 32767.0 {
            32767
        } else if d1 < -32768.0 {
            -32768
        } else {
            d1.round() as i16
        };
    }
    coefs
}

fn bfstm_for(samples: &[i16], sample_rate: u32) -> Vec<u8> {
    let coefs = correlate_coefs(samples);
    build_bfstm(samples, sample_rate, &coefs)
}

fn read_u16_le(data: &[u8], off: usize) -> u16 {
    u16::from_le_bytes([data[off], data[off + 1]])
}
fn read_u32_le(data: &[u8], off: usize) -> u32 {
    u32::from_le_bytes([data[off], data[off + 1], data[off + 2], data[off + 3]])
}

fn make_sine(freq: f64, duration: f64, sample_rate: u32) -> Vec<i16> {
    let n = (sample_rate as f64 * duration) as usize;
    (0..n)
        .map(|i| {
            (32767.0 * (2.0 * std::f64::consts::PI * freq * i as f64 / sample_rate as f64).sin())
                as i16
        })
        .collect()
}

#[test]
fn magic_and_bom() {
    let samples = make_sine(440.0, 0.1, 22050);
    let bfstm = bfstm_for(&samples, 22050);
    assert_eq!(&bfstm[0..4], b"FSTM");
    assert_eq!(&bfstm[4..6], &[0xFF, 0xFE]);
}

#[test]
fn file_size_field_matches_actual_length() {
    let samples = make_sine(440.0, 0.5, 22050);
    let bfstm = bfstm_for(&samples, 22050);
    let field = read_u32_le(&bfstm, 0x0C);
    assert_eq!(field as usize, bfstm.len());
}

#[test]
fn section_count_is_three() {
    let samples = make_sine(440.0, 0.1, 22050);
    let bfstm = bfstm_for(&samples, 22050);
    assert_eq!(read_u16_le(&bfstm, 0x10), 3);
}

#[test]
fn sections_are_0x20_aligned() {
    let samples = make_sine(440.0, 0.5, 22050);
    let bfstm = bfstm_for(&samples, 22050);
    // Each 12-byte section ref: u16 type, u16 pad, u32 offset, u32 size.
    // Offsets: INFO=0x18, SEEK=0x24, DATA=0x30
    for slot in 0..3usize {
        let offset = read_u32_le(&bfstm, 0x18 + slot * 0x0C) as usize;
        assert_eq!(
            offset % 0x20,
            0,
            "section {slot} offset {offset:#x} not aligned"
        );
    }
}

#[test]
fn data_section_magic_and_payload_size() {
    let samples = make_sine(440.0, 0.25, 22050);
    let n = samples.len();
    let bfstm = bfstm_for(&samples, 22050);

    // DATA section offset is at 0x30 (third 12-byte ref's offset field: 0x2C+4=0x30)
    let data_off = read_u32_le(&bfstm, 0x30) as usize;
    assert_eq!(&bfstm[data_off..data_off + 4], b"DATA");

    // Payload (raw ADPCM frames): one 8-byte frame per 14 samples
    let expected_frame_bytes = ((n + 13) / 14) * 8;
    let audio_start = data_off + 0x20;
    let data_size = read_u32_le(&bfstm, data_off + 4) as usize;
    let audio_region_size = data_size - 0x20;
    // audio_region_size may be padded to 0x20, so frames must fit within it
    assert!(expected_frame_bytes <= audio_region_size);
    assert_eq!(audio_region_size % 0x20, 0);
    // The unpadded frame bytes sit at the start
    assert!(audio_start + expected_frame_bytes <= bfstm.len());
}

#[test]
fn silence_builds_without_panic() {
    let samples = vec![0i16; 22050];
    let bfstm = bfstm_for(&samples, 22050);
    assert_eq!(&bfstm[0..4], b"FSTM");
}

#[test]
fn multi_block_has_correct_seek_entry_count() {
    // 3 blocks worth of samples
    let n = 3 * 0x3800usize;
    let samples: Vec<i16> = (0..n).map(|i| ((i % 256) as i16) * 100).collect();
    let bfstm = bfstm_for(&samples, 22050);

    // SEEK section offset is at 0x24 (second 12-byte ref's offset field: 0x20+4=0x24)
    let seek_off = read_u32_le(&bfstm, 0x24) as usize;
    assert_eq!(&bfstm[seek_off..seek_off + 4], b"SEEK");
    let seek_size = read_u32_le(&bfstm, seek_off + 4) as usize;
    // 3 blocks → 3 seek entries × 4 bytes = 12 bytes payload + 8 header = 20 → padded to 32
    let expected_payload = 3 * 4;
    let expected_size = (8 + expected_payload + 0x1F) & !0x1F;
    assert_eq!(seek_size, expected_size);
}

#[test]
fn history_propagation() {
    // Build a simple ramp signal, encode two consecutive frames,
    // verify that conv_samps[14]/[15] after frame 1 become [0]/[1] before frame 2.
    let samples: Vec<i16> = (0..28).map(|i| (i as i16) * 100).collect();
    let coefs = correlate_coefs(&samples);

    let mut conv = [0i16; 16];
    // Frame 1
    for s in 0..14 {
        conv[s + 2] = samples[s];
    }
    encode_frame(&mut conv, 14, &coefs);
    let expected0 = conv[14];
    let expected1 = conv[15];

    // Advance history
    conv[0] = conv[14];
    conv[1] = conv[15];

    assert_eq!(conv[0], expected0);
    assert_eq!(conv[1], expected1);
}

#[test]
fn correlate_coefs_sine_in_range() {
    let sample_rate = 22050.0f64;
    let freq = 440.0f64;
    let samples: Vec<i16> = (0..256)
        .map(|i| {
            (32767.0 * (2.0 * std::f64::consts::PI * freq * i as f64 / sample_rate).sin()) as i16
        })
        .collect();
    let coefs = correlate_coefs(&samples);
    // All coefficient values must fit in i16 (checked by type), and first pair must be non-zero
    assert!(
        coefs[0][0] != 0 || coefs[0][1] != 0,
        "first coef pair should be non-zero for sine"
    );
}

#[test]
fn silence_coefs_do_not_panic() {
    let samples = vec![0i16; 22050];
    let coefs = correlate_coefs(&samples);
    // Should not panic; all coefs are 0 for silence
    for pair in &coefs {
        assert_eq!(*pair, [0i16, 0i16]);
    }
}

#[test]
fn analysed_coefs_are_within_the_encoder_bound() {
    let samples = make_sine(440.0, 0.5, 22050);
    let coefs = correlate_coefs(&samples);
    assert!(gc_dspadpcm::codec::coefs_in_bounds(&coefs));
    for pair in &coefs {
        assert!((pair[0] as i32).abs() <= 4096 && (pair[1] as i32).abs() <= 2048);
    }
}
