use gc_dspadpcm::wav::{parse_wav, samples_from_le_bytes, samples_from_pcm16, WavError};

fn chunk(tag: &[u8; 4], body: &[u8]) -> Vec<u8> {
    let mut out = tag.to_vec();
    out.extend_from_slice(&(body.len() as u32).to_le_bytes());
    out.extend_from_slice(body);
    out
}

fn fmt_body(format: u16, channels: u16, rate: u32, bits: u16) -> Vec<u8> {
    let mut b = Vec::new();
    b.extend_from_slice(&format.to_le_bytes());
    b.extend_from_slice(&channels.to_le_bytes());
    b.extend_from_slice(&rate.to_le_bytes());
    b.extend_from_slice(&(rate * 2).to_le_bytes());
    b.extend_from_slice(&2u16.to_le_bytes());
    b.extend_from_slice(&bits.to_le_bytes());
    b
}

fn riff(chunks: &[Vec<u8>]) -> Vec<u8> {
    let body: Vec<u8> = chunks.concat();
    let mut out = b"RIFF".to_vec();
    out.extend_from_slice(&((body.len() + 4) as u32).to_le_bytes());
    out.extend_from_slice(b"WAVE");
    out.extend_from_slice(&body);
    out
}

#[test]
fn parses_rate_and_data() {
    let pcm = [1u8, 0, 0xFF, 0xFF, 0x00, 0x80];
    // An odd-sized chunk before `fmt ` is skipped with its pad byte.
    let mut odd = chunk(b"LIST", &[9, 9, 9]);
    odd.push(0);
    let wav = riff(&[odd, chunk(b"fmt ", &fmt_body(1, 1, 22050, 16)), chunk(b"data", &pcm)]);
    let (rate, data) = parse_wav(&wav).unwrap();
    assert_eq!(rate, 22050);
    assert_eq!(data, &pcm);
    assert_eq!(samples_from_le_bytes(data), vec![1, -1, -32768]);
}

#[test]
fn each_refusal_has_its_error() {
    let good_fmt = chunk(b"fmt ", &fmt_body(1, 1, 8000, 16));
    let data = chunk(b"data", &[0, 0]);
    assert_eq!(parse_wav(b"RIFF").unwrap_err(), WavError::NotWav);
    assert_eq!(parse_wav(b"RIFX\0\0\0\0WAVE").unwrap_err(), WavError::NotRiff);
    assert_eq!(parse_wav(b"RIFF\0\0\0\0AVI ").unwrap_err(), WavError::NotWave);
    assert_eq!(parse_wav(&riff(&[chunk(b"fmt ", &[1, 0, 1, 0])])).unwrap_err(), WavError::FmtTooSmall);
    assert_eq!(
        parse_wav(&riff(&[chunk(b"fmt ", &fmt_body(3, 1, 8000, 32)), data.clone()])).unwrap_err(),
        WavError::NotPcm
    );
    assert_eq!(
        parse_wav(&riff(&[chunk(b"fmt ", &fmt_body(1, 2, 8000, 16)), data.clone()])).unwrap_err(),
        WavError::NotMono
    );
    assert_eq!(
        parse_wav(&riff(&[chunk(b"fmt ", &fmt_body(1, 1, 8000, 8)), data.clone()])).unwrap_err(),
        WavError::Not16Bit
    );
    assert_eq!(parse_wav(&riff(&[data.clone(), good_fmt.clone()])).unwrap_err(), WavError::DataBeforeFmt);
    assert_eq!(parse_wav(&riff(&[good_fmt.clone()])).unwrap_err(), WavError::MissingData);
    // A data chunk that claims more bytes than there are.
    let mut short = riff(&[good_fmt.clone(), chunk(b"data", &[0, 0, 0, 0])]);
    short.truncate(short.len() - 2);
    assert_eq!(parse_wav(&short).unwrap_err(), WavError::Truncated);
    // A fmt chunk size of 16 with its fields cut off by the end of the file.
    let mut cut = riff(&[good_fmt]);
    cut.truncate(cut.len() - 4);
    assert_eq!(parse_wav(&cut).unwrap_err(), WavError::Truncated);
}

#[test]
fn error_messages() {
    assert_eq!(WavError::NotWav.message(), "Not a valid WAV file");
    assert_eq!(WavError::NotMono.message(), "Only mono WAV files are supported");
    assert_eq!(WavError::MissingData.message(), "WAV file missing data chunk");
}

#[test]
fn raw_pcm_must_have_even_length() {
    assert_eq!(samples_from_pcm16(&[1, 2, 3]), None);
    assert_eq!(samples_from_pcm16(&[0x34, 0x12, 0xCC, 0xED]), Some(vec![0x1234, -0x1234]));
    // WAV data ignores a trailing odd byte.
    assert_eq!(samples_from_le_bytes(&[0x34, 0x12, 0x99]), vec![0x1234]);
}

#[test]
fn samples_read_back_from_their_bytes() {
    for v in [i16::MIN, -1, 0, 1, 12345, i16::MAX] {
        assert_eq!(samples_from_le_bytes(&v.to_le_bytes()), vec![v]);
    }
}

#[test]
fn unknown_chunk_changes_nothing() {
    let pcm = [0x10u8, 0x20, 0x30, 0x40];
    let fmt = chunk(b"fmt ", &fmt_body(1, 1, 32000, 16));
    let plain = riff(&[fmt.clone(), chunk(b"data", &pcm)]);
    let mut odd = chunk(b"junk", &[1, 2, 3, 4, 5]);
    odd.push(0xAA);
    let with_junk = riff(&[fmt.clone(), odd.clone(), chunk(b"data", &pcm)]);
    assert_eq!(parse_wav(&plain), parse_wav(&with_junk));
    assert_eq!(parse_wav(&with_junk).unwrap(), (32000, &pcm[..]));

    // The same error comes out with or without the extra chunk.
    let stereo = chunk(b"fmt ", &fmt_body(1, 2, 32000, 16));
    let refused = riff(&[stereo.clone(), chunk(b"data", &pcm)]);
    let refused_junk = riff(&[odd, stereo, chunk(b"data", &pcm)]);
    assert_eq!(parse_wav(&refused), Err(WavError::NotMono));
    assert_eq!(parse_wav(&refused_junk), Err(WavError::NotMono));
}

#[test]
fn plain_wav_reads_back_its_pcm() {
    // The layout a typical writer produces: RIFF header, 16-byte `fmt `, then `data`.
    let pcm: Vec<u8> = (0..40u8).map(|b| b.wrapping_mul(37)).collect();
    let rate = 22050u32;
    let wav = riff(&[chunk(b"fmt ", &fmt_body(1, 1, rate, 16)), chunk(b"data", &pcm)]);
    assert_eq!(wav.len(), 44 + pcm.len());
    let (r, data) = parse_wav(&wav).unwrap();
    assert_eq!(r, rate);
    assert_eq!(data, &pcm[..]);
    assert_eq!(samples_from_le_bytes(data), samples_from_pcm16(&pcm).unwrap());
}
