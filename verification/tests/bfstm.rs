use gc_dspadpcm::bfstm::build_bfstm;
use gc_dspadpcm::codec::{encode_all, encode_frame, Coefs};

fn u16_at(d: &[u8], off: usize) -> u16 {
    u16::from_le_bytes([d[off], d[off + 1]])
}
fn u32_at(d: &[u8], off: usize) -> u32 {
    u32::from_le_bytes([d[off], d[off + 1], d[off + 2], d[off + 3]])
}

fn test_coefs() -> Coefs {
    [[0, 0], [2048, 0], [4096, -2048], [1024, 512], [-1024, 0], [3000, -1500], [512, -256], [100, 50]]
}

#[test]
fn empty_input_layout() {
    let file = build_bfstm(&[], 22050, &test_coefs());
    // header 0x40 + INFO 0xA0 + SEEK 0x20 + DATA 0x20
    assert_eq!(file.len(), 0x40 + 0xA0 + 0x20 + 0x20);
    assert_eq!(u32_at(&file, 0x0C) as usize, file.len());
    assert_eq!(&file[0x40..0x44], b"INFO");
    assert_eq!(u32_at(&file, 0x44), 0xA0);
    assert_eq!(&file[0xE0..0xE4], b"SEEK");
    assert_eq!(u32_at(&file, 0xE4), 0x20);
    assert_eq!(&file[0x100..0x104], b"DATA");
    assert_eq!(u32_at(&file, 0x104), 0x20);
    // Stream info: codec, loop, channels, regions; rate; loop start; sample count; blocks.
    let si = 0x40 + 8 + 24;
    assert_eq!(&file[si..si + 4], &[2, 0, 1, 0]);
    assert_eq!(u32_at(&file, si + 4), 22050);
    assert_eq!(u32_at(&file, si + 12), 0);
    // No samples: no blocks, no seek entries.
    assert_eq!(u32_at(&file, si + 16), 0);
    assert_eq!(u32_at(&file, si + 40), 0);
    assert!(file[0xE8..0x100].iter().all(|&b| b == 0));
}

#[test]
fn block_count_is_the_ceiling() {
    let coefs = test_coefs();
    for (n, blocks) in [(1usize, 1u32), (0x3800, 1), (0x3801, 2), (2 * 0x3800, 2)] {
        let samples = vec![100i16; n];
        let file = build_bfstm(&samples, 22050, &coefs);
        assert_eq!(u32_at(&file, 0x70), blocks);
        assert_eq!(u32_at(&file, 0x88), 4 * blocks);
        let last = n as u32 - 0x3800 * (blocks - 1);
        assert_eq!(u32_at(&file, 0x80), last);
        let seek = u32_at(&file, 0x24) as usize;
        assert_eq!(u32_at(&file, seek + 4) as usize, (8 + 4 * blocks as usize + 0x1F) & !0x1F);
    }
}

#[test]
fn info_records_the_stream() {
    let samples: Vec<i16> = (0..20000).map(|i| ((i * 37) % 2000 - 1000) as i16).collect();
    let coefs = test_coefs();
    let file = build_bfstm(&samples, 32000, &coefs);
    let si = 0x40 + 8 + 24;
    assert_eq!(u32_at(&file, si + 4), 32000);
    assert_eq!(u32_at(&file, si + 12), 20000);
    assert_eq!(u32_at(&file, si + 16), 2); // blocks
    assert_eq!(u32_at(&file, si + 20), 0x2000);
    assert_eq!(u32_at(&file, si + 24), 0x3800);
    let last = 20000 - 0x3800;
    let last_raw = (last + 13) / 14 * 8;
    assert_eq!(u32_at(&file, si + 28), last_raw);
    assert_eq!(u32_at(&file, si + 32), last);
    assert_eq!(u32_at(&file, si + 36), (last_raw + 0x1F) & !0x1F);
    // Seek size: 4 bytes per entry, one entry per block.
    assert_eq!(u32_at(&file, si + 40), 4 * 2);
    assert_eq!(u32_at(&file, si + 44), 0x3800);
    // Coefficient table after the channel references.
    let table = si + 56 + 4 + 8 + 8;
    for (k, pair) in coefs.iter().enumerate() {
        assert_eq!(u16_at(&file, table + 4 * k) as i16, pair[0]);
        assert_eq!(u16_at(&file, table + 4 * k + 2) as i16, pair[1]);
    }
    // The start context holds the first frame's header byte.
    let (_, frames) = encode_all(&samples, &coefs);
    assert_eq!(u16_at(&file, table + 32), frames[0] as u16);
    assert_eq!(table, 0xAC);
    // Zero history, zero loop context and padding up to SEEK.
    assert!(file[0xCE..0xE0].iter().all(|&b| b == 0));
}

#[test]
fn data_holds_the_encoded_stream() {
    let samples: Vec<i16> = (0..1000).map(|i| ((i * 91) % 3000 - 1500) as i16).collect();
    let coefs = test_coefs();
    let file = build_bfstm(&samples, 22050, &coefs);
    let (_, frames) = encode_all(&samples, &coefs);
    let data_off = u32_at(&file, 0x30) as usize;
    assert_eq!(&file[data_off + 0x20..data_off + 0x20 + frames.len()], &frames[..]);
    assert!(file[data_off + 0x20 + frames.len()..].iter().all(|&b| b == 0));
}

#[test]
fn seek_entries_follow_the_blocks() {
    let n = 2 * 0x3800 + 500;
    let samples: Vec<i16> = (0..n).map(|i| ((i * 13) % 4000 - 2000) as i16).collect();
    let coefs = test_coefs();
    let file = build_bfstm(&samples, 22050, &coefs);
    let (_, frames) = encode_all(&samples, &coefs);
    // Replay the stream to get the last reconstructed sample of each block.
    let mut conv = [0i16; 16];
    let mut block_end = Vec::new();
    for p in 0..(n + 13) / 14 {
        for s in 0..14 {
            conv[s + 2] = *samples.get(p * 14 + s).unwrap_or(&0);
        }
        encode_frame(&mut conv, 14, &coefs);
        conv[0] = conv[14];
        conv[1] = conv[15];
        if (p + 1) % 1024 == 0 {
            block_end.push(conv[1]);
        }
    }
    assert_eq!(u32_at(&file, 0x60 + 16), 3);
    assert_eq!(u32_at(&file, 0x88), 4 * 3);
    let seek = u32_at(&file, 0x24) as usize;
    assert_eq!(u32_at(&file, seek + 4), 0x20);
    assert_eq!(u32_at(&file, seek + 8), 0);
    for i in 1..3 {
        assert_eq!(u16_at(&file, seek + 8 + 4 * i), frames[i * 8192] as u16);
        assert_eq!(u16_at(&file, seek + 10 + 4 * i) as i16, block_end[i - 1]);
    }
    // The section is zero after its three entries.
    assert_eq!(seek, 0xE0);
    assert!(file[seek + 8 + 12..seek + 0x20].iter().all(|&b| b == 0));
}
