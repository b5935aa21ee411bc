//! The BFSTM container: a 0x40-byte file header and three 0x20-aligned sections
//! (INFO, SEEK, DATA) around a mono DSP-ADPCM stream.
use vstd::prelude::*;

use crate::codec::{
    coefs_bounded,
    encode_frame,
    encode_stream,
    frame_bytes,
    frame_count,
    frame_input,
    lemma_stream_encodable,
    pcm_ints,
    Coefs,
};
use crate::le_bytes::{
    bits16,
    bits32,
    le16,
    le32,
    lemma_u16_field,
    lemma_u32_field,
    push_i16,
    push_i32,
    push_u16,
    push_u32,
    push_u8,
    push_zeros,
    align_to,
    patch_u32,
    round_up,
    round_up_to,
    u16_at,
    u32_at,
    zeros,
};

verus! {

broadcast use crate::le_bytes::group_le_len;

// ── Layout constants ────────────────────────────────────────────────────────

/// Bytes per block of the stream.
pub const BLOCK_SIZE: u32 = 0x2000;

/// Samples per block (1024 frames of 14 samples).
pub const BLOCK_SAMPLE_COUNT: u32 = 0x3800;

/// Samples between two seek entries: one entry per block.
pub const SEEK_INTERVAL: u32 = 0x3800;

pub const ADPCM_CODEC: u8 = 2;

/// Bytes per seek entry (mono: predictor/scale and last sample).
pub const SEEK_ENTRY_SIZE: u32 = 4;

pub const RT_STREAM_INFO_BLOCK: u16 = 0x4000;

pub const RT_STREAM_SEEK_BLOCK: u16 = 0x4001;

pub const RT_STREAM_DATA_BLOCK: u16 = 0x4002;

pub const RT_STREAM_INFO: u16 = 0x4100;

pub const RT_REF_TABLE: u16 = 0x0101;

pub const RT_CHANNEL_INFO: u16 = 0x4102;

pub const RT_GC_ADPCM_INFO: u16 = 0x0300;

pub const RT_SAMPLE_DATA: u16 = 0x1F00;

/// Size of the file header.
pub const HEADER_SIZE: u32 = 0x40;

/// Size of the INFO section, padded.
pub const INFO_SIZE: u32 = 0xA0;

// ── References ──────────────────────────────────────────────────────────────

/// A sized reference: type, padding, offset, size.
pub open spec fn section_ref(rt: int, offset: int, size: int) -> Seq<u8> {
    le16(rt) + le16(0) + le32(offset) + le32(size)
}

/// An offset reference: type, padding, offset.
pub open spec fn block_ref(rt: int, offset: int) -> Seq<u8> {
    le16(rt) + le16(0) + le32(offset)
}

/// A null reference: eight bytes, offset -1.
pub open spec fn null_ref() -> Seq<u8> {
    le32(0) + le32(bits32(-1))
}

fn push_section_ref(buf: &mut Vec<u8>, rt: u16, offset: u32, size: u32)
    ensures
        final(buf)@ == old(buf)@ + section_ref(rt as int, offset as int, size as int),
{
    push_u16(buf, rt);
    push_u16(buf, 0);
    push_u32(buf, offset);
    push_u32(buf, size);
    assert(final(buf)@ =~= old(buf)@ + section_ref(rt as int, offset as int, size as int));
}

fn push_block_ref(buf: &mut Vec<u8>, rt: u16, offset: u32)
    ensures
        final(buf)@ == old(buf)@ + block_ref(rt as int, offset as int),
{
    push_u16(buf, rt);
    push_u16(buf, 0);
    push_u32(buf, offset);
    assert(final(buf)@ =~= old(buf)@ + block_ref(rt as int, offset as int));
}

fn push_null_ref(buf: &mut Vec<u8>)
    ensures
        final(buf)@ == old(buf)@ + null_ref(),
{
    push_u32(buf, 0);
    push_i32(buf, -1);
    assert(final(buf)@ =~= old(buf)@ + null_ref());
}

fn push_tag(buf: &mut Vec<u8>, tag: [u8; 4])
    ensures
        final(buf)@ == old(buf)@ + tag@,
{
    push_u8(buf, tag[0]);
    push_u8(buf, tag[1]);
    push_u8(buf, tag[2]);
    push_u8(buf, tag[3]);
    assert(final(buf)@ =~= old(buf)@ + tag@);
}

pub open spec fn tag_fstm() -> Seq<u8> {
    seq![0x46u8, 0x53u8, 0x54u8, 0x4Du8]
}

pub open spec fn tag_info() -> Seq<u8> {
    seq![0x49u8, 0x4Eu8, 0x46u8, 0x4Fu8]
}

pub open spec fn tag_seek() -> Seq<u8> {
    seq![0x53u8, 0x45u8, 0x45u8, 0x4Bu8]
}

pub open spec fn tag_data() -> Seq<u8> {
    seq![0x44u8, 0x41u8, 0x54u8, 0x41u8]
}


// ── INFO section ────────────────────────────────────────────────────────────

/// The reference table at the start of INFO: stream info at 24, no track info, channel
/// table at 80 (offsets from the table's start).
pub open spec fn info_refs() -> Seq<u8> {
    block_ref(RT_STREAM_INFO as int, 24) + null_ref() + block_ref(RT_REF_TABLE as int, 80)
}

/// The stream-info block (56 bytes): codec, loop flag, channel count, region count, sample
/// rate, loop start, sample count, block count, block size, samples per block, last
/// block's size, sample count and padded size, seek size (4 bytes per entry, one entry per
/// block), samples per seek entry, and the reference to the sample data.
#[verifier::opaque]
pub open spec fn stream_info(
    sample_count: int,
    sample_rate: int,
    block_count: int,
    last_block_sample_count: int,
    last_block_size_raw: int,
    last_block_padded_size: int,
) -> Seq<u8> {
    seq![ADPCM_CODEC, 0u8, 1u8, 0u8] + le32(sample_rate) + le32(0) + le32(sample_count) + le32(
        block_count,
    ) + le32(BLOCK_SIZE as int) + le32(BLOCK_SAMPLE_COUNT as int) + le32(last_block_size_raw)
        + le32(last_block_sample_count) + le32(last_block_padded_size) + le32(
        SEEK_ENTRY_SIZE * block_count,
    ) + le32(SEEK_INTERVAL as int) + block_ref(RT_SAMPLE_DATA as int, 0x18)
}

/// The first `k` predictor pairs, each as two little-endian 16-bit values.
pub open spec fn coef_table(coefs: Coefs, k: nat) -> Seq<u8>
    decreases k,
{
    if k == 0 {
        Seq::empty()
    } else {
        coef_table(coefs, (k - 1) as nat) + le16(bits16(coefs[k - 1][0] as int)) + le16(
            bits16(coefs[k - 1][1] as int),
        )
    }
}

/// The DSP-ADPCM channel info: predictors, start context (predictor/scale byte, zero
/// history), zero loop context, padding.
pub open spec fn adpcm_info(coefs: Coefs, pred_scale0: int) -> Seq<u8> {
    coef_table(coefs, 8) + le16(bits16(pred_scale0)) + le16(0) + le16(0) + le16(0) + le16(0)
        + le16(0) + le16(0)
}

/// The channel-info table (66 bytes): one channel, its references, its ADPCM info.
#[verifier::opaque]
pub open spec fn channel_info(coefs: Coefs, pred_scale0: int) -> Seq<u8> {
    le32(1) + block_ref(RT_CHANNEL_INFO as int, 12) + block_ref(RT_GC_ADPCM_INFO as int, 8)
        + adpcm_info(coefs, pred_scale0)
}

/// What the INFO section records.
pub struct InfoParams<'a> {
    pub sample_count: u32,
    pub sample_rate: u32,
    pub block_count: u32,
    pub last_block_sample_count: u32,
    pub last_block_size_raw: u32,
    pub last_block_padded_size: u32,
    pub coefs: &'a Coefs,
    pub pred_scale0: i16,
}

/// The INFO section: magic, size, references, stream info, channel info, zero padding to 0xA0.
pub open spec fn info_section(p: InfoParams) -> Seq<u8> {
    tag_info() + le32(INFO_SIZE as int) + info_refs() + stream_info(
        p.sample_count as int,
        p.sample_rate as int,
        p.block_count as int,
        p.last_block_sample_count as int,
        p.last_block_size_raw as int,
        p.last_block_padded_size as int,
    ) + channel_info(*p.coefs, p.pred_scale0 as int) + zeros(6)
}

fn push_coef_table(buf: &mut Vec<u8>, coefs: &Coefs)
    ensures
        final(buf)@ == old(buf)@ + coef_table(*coefs, 8),
{
    let mut k: usize = 0;
    while k < 8
        invariant
            k <= 8,
            buf@ == old(buf)@ + coef_table(*coefs, k as nat),
        decreases 8 - k,
    {
        let ghost before = buf@;
        push_i16(buf, coefs[k][0]);
        push_i16(buf, coefs[k][1]);
        assert(buf@ =~= old(buf)@ + coef_table(*coefs, (k + 1) as nat));
        k = k + 1;
    }
}

fn push_stream_info(buf: &mut Vec<u8>, p: &InfoParams)
    requires
        p.block_count <= 0x3FFF_FFFF,
    ensures
        final(buf)@ == old(buf)@ + stream_info(
            p.sample_count as int,
            p.sample_rate as int,
            p.block_count as int,
            p.last_block_sample_count as int,
            p.last_block_size_raw as int,
            p.last_block_padded_size as int,
        ),
        final(buf)@.len() == old(buf)@.len() + 56,
{
    push_u8(buf, ADPCM_CODEC);
    push_u8(buf, 0);  // loop flag
    push_u8(buf, 1);  // channel count
    push_u8(buf, 0);  // region count
    push_u32(buf, p.sample_rate);
    push_u32(buf, 0);  // loop start
    push_u32(buf, p.sample_count);
    push_u32(buf, p.block_count);  // interleave count
    push_u32(buf, BLOCK_SIZE);  // interleave size
    push_u32(buf, BLOCK_SAMPLE_COUNT);  // samples per interleave
    push_u32(buf, p.last_block_size_raw);
    push_u32(buf, p.last_block_sample_count);
    push_u32(buf, p.last_block_padded_size);
    push_u32(buf, SEEK_ENTRY_SIZE * p.block_count);  // seek size
    push_u32(buf, SEEK_INTERVAL);  // samples per seek entry
    push_block_ref(buf, RT_SAMPLE_DATA, 0x18);
    reveal(stream_info);
    assert(final(buf)@ =~= old(buf)@ + stream_info(
        p.sample_count as int,
        p.sample_rate as int,
        p.block_count as int,
        p.last_block_sample_count as int,
        p.last_block_size_raw as int,
        p.last_block_padded_size as int,
    ));
}

fn push_channel_info(buf: &mut Vec<u8>, coefs: &Coefs, pred_scale0: i16)
    ensures
        final(buf)@ == old(buf)@ + channel_info(*coefs, pred_scale0 as int),
        final(buf)@.len() == old(buf)@.len() + 66,
{
    proof {
        lemma_coef_table_len(*coefs, 8);
    }
    push_u32(buf, 1);  // channel count
    push_block_ref(buf, RT_CHANNEL_INFO, 12);
    push_block_ref(buf, RT_GC_ADPCM_INFO, 8);
    let ghost before_table = buf@;
    push_coef_table(buf, coefs);
    push_i16(buf, pred_scale0);  // start context
    push_i16(buf, 0);
    push_i16(buf, 0);
    push_i16(buf, 0);  // loop context
    push_i16(buf, 0);
    push_i16(buf, 0);
    push_u16(buf, 0);  // padding
    assert(buf@ =~= before_table + adpcm_info(*coefs, pred_scale0 as int));
    reveal(channel_info);
    assert(final(buf)@ =~= old(buf)@ + channel_info(*coefs, pred_scale0 as int));
}

proof fn lemma_coef_table_len(coefs: Coefs, k: nat)
    ensures
        coef_table(coefs, k).len() == 4 * k,
    decreases k,
{
    if k > 0 {
        lemma_coef_table_len(coefs, (k - 1) as nat);
    }
}

/// Build the INFO section. The block count must leave the seek size (four bytes per block)
/// within 32 bits.
fn build_info_section(p: InfoParams) -> (sec: Vec<u8>)
    requires
        p.block_count <= 0x3FFF_FFFF,
    ensures
        sec@ == info_section(p),
        sec@.len() == INFO_SIZE,
{
    let mut sec: Vec<u8> = Vec::new();
    push_tag(&mut sec, [0x49u8, 0x4Eu8, 0x46u8, 0x4Fu8]);
    push_u32(&mut sec, 0);  // size, filled in below
    let ghost head = sec@;
    push_block_ref(&mut sec, RT_STREAM_INFO, 24);
    push_null_ref(&mut sec);
    push_block_ref(&mut sec, RT_REF_TABLE, 80);
    push_stream_info(&mut sec, &p);
    push_channel_info(&mut sec, p.coefs, p.pred_scale0);
    proof {
        lemma_coef_table_len(*p.coefs, 8);
    }
    let ghost body = sec@;
    align_to(&mut sec, 0x20);
    assert(body.len() == 154);
    assert(sec@.len() == 160);
    let section_size = sec.len() as u32;
    patch_u32(&mut sec, 4, section_size);
    assert(sec@ =~= info_section(p));
    sec
}


// ── The file ────────────────────────────────────────────────────────────────

/// The sample count the file records: the length as a 32-bit field.
pub open spec fn sample_count_of(samples: Seq<i16>) -> int {
    (samples.len() as u32) as int
}

/// Number of blocks: `ceil(n / BLOCK_SAMPLE_COUNT)`, zero for an empty stream.
pub open spec fn block_count_for(n: int) -> int {
    (n + BLOCK_SAMPLE_COUNT - 1) / (BLOCK_SAMPLE_COUNT as int)
}

pub open spec fn last_block_samples(n: int) -> int {
    if n == 0 {
        0
    } else if n % (BLOCK_SAMPLE_COUNT as int) == 0 {
        BLOCK_SAMPLE_COUNT as int
    } else {
        n % (BLOCK_SAMPLE_COUNT as int)
    }
}

pub open spec fn last_block_raw(n: int) -> int {
    frame_count(last_block_samples(n)) * 8
}

pub open spec fn last_block_padded(n: int) -> int {
    round_up_to(last_block_raw(n), 0x20)
}

/// The ADPCM frames of the file: `frame_count(n)` frames of the (padded) input.
#[verifier::opaque]
pub open spec fn stream_frames(samples: Seq<i16>, coefs: Coefs) -> Seq<u8> {
    encode_stream(samples, coefs, frame_count(sample_count_of(samples)) as nat).0
}

/// The predictor/scale byte of the first frame, zero for an empty stream.
pub open spec fn first_pred_scale(frames: Seq<u8>) -> int {
    if frames.len() == 0 {
        0
    } else {
        frames[0] as int
    }
}

/// Seek entry `i`: the predictor/scale byte of block `i`'s first frame and the last
/// reconstructed sample of block `i - 1`; entry 0 is zero.
pub open spec fn seek_entry(samples: Seq<i16>, coefs: Coefs, i: int) -> (int, int) {
    let frames = stream_frames(samples, coefs);
    let fc = frame_count(sample_count_of(samples));
    if i == 0 {
        (0, 0)
    } else {
        (
            if i * 8192 < frames.len() {
                frames[i * 8192] as int
            } else {
                0
            },
            if i * 1024 <= fc {
                encode_stream(samples, coefs, (i * 1024) as nat).2
            } else {
                0
            },
        )
    }
}

/// The first `k` seek entries, four bytes each.
pub open spec fn seek_payload(samples: Seq<i16>, coefs: Coefs, k: nat) -> Seq<u8>
    decreases k,
{
    if k == 0 {
        Seq::empty()
    } else {
        let e = seek_entry(samples, coefs, k - 1);
        seek_payload(samples, coefs, (k - 1) as nat) + le16(bits16(e.0)) + le16(bits16(e.1))
    }
}

pub open spec fn seek_size_for(n: int) -> int {
    round_up_to(8 + 4 * block_count_for(n), 0x20)
}

pub open spec fn data_size_for(frames_len: int) -> int {
    0x20 + round_up_to(frames_len, 0x20)
}

/// The INFO section of the file.
#[verifier::opaque]
pub open spec fn file_info(samples: Seq<i16>, sample_rate: int, coefs: Coefs) -> Seq<u8> {
    let n = sample_count_of(samples);
    tag_info() + le32(INFO_SIZE as int) + info_refs() + stream_info(
        n,
        sample_rate,
        block_count_for(n),
        last_block_samples(n),
        last_block_raw(n),
        last_block_padded(n),
    ) + channel_info(coefs, first_pred_scale(stream_frames(samples, coefs))) + zeros(6)
}

/// The SEEK section: magic, size, one entry per block, zero padding.
#[verifier::opaque]
pub open spec fn seek_section(samples: Seq<i16>, coefs: Coefs) -> Seq<u8> {
    let n = sample_count_of(samples);
    let bc = block_count_for(n);
    tag_seek() + le32(seek_size_for(n)) + seek_payload(samples, coefs, bc as nat) + zeros(
        seek_size_for(n) - 8 - 4 * bc,
    )
}

/// The DATA section: magic, size, padding to 0x20, the frames, zero padding.
#[verifier::opaque]
pub open spec fn data_section(frames: Seq<u8>) -> Seq<u8> {
    tag_data() + le32(data_size_for(frames.len() as int)) + zeros(0x18) + frames + zeros(
        round_up_to(frames.len() as int, 0x20) - frames.len(),
    )
}

/// The file header: magic, byte-order mark, header size, version, file size, section
/// count, and the three section references, padded to 0x40.
#[verifier::opaque]
pub open spec fn file_header(seek_size: int, data_size: int) -> Seq<u8> {
    let info_offset = HEADER_SIZE as int;
    let seek_offset = info_offset + INFO_SIZE;
    let data_offset = seek_offset + seek_size;
    tag_fstm() + le16(0xFEFF) + le16(0x40) + le32(0x00040006) + le32(
        data_offset + data_size,
    ) + le16(3) + le16(0) + section_ref(RT_STREAM_INFO_BLOCK as int, info_offset, INFO_SIZE as int)
        + section_ref(RT_STREAM_SEEK_BLOCK as int, seek_offset, seek_size) + section_ref(
        RT_STREAM_DATA_BLOCK as int,
        data_offset,
        data_size,
    ) + zeros(8)
}

/// The complete BFSTM file for `samples` encoded with `coefs`.
#[verifier::opaque]
pub open spec fn bfstm_file(samples: Seq<i16>, sample_rate: int, coefs: Coefs) -> Seq<u8> {
    let n = sample_count_of(samples);
    let frames = stream_frames(samples, coefs);
    file_header(seek_size_for(n), data_size_for(frames.len() as int)) + file_info(
        samples,
        sample_rate,
        coefs,
    ) + seek_section(samples, coefs) + data_section(frames)
}


/// Frames per block.
const FRAMES_PER_BLOCK: usize = 1024;

/// Encode `packet_count` frames of `samples`, and record the last reconstructed sample
/// at the end of each full block.
fn encode_blocks(samples: &[i16], packet_count: usize, coefs: &Coefs) -> (res: (Vec<u8>, Vec<i16>))
    requires
        coefs_bounded(*coefs),
        packet_count <= 306783379,
    ensures
        res.0@ == encode_stream(samples@, *coefs, packet_count as nat).0,
        res.1@.len() == packet_count / 1024,
        forall|k: int|
            0 <= k < res.1@.len() ==> (#[trigger] res.1@[k]) as int == encode_stream(
                samples@,
                *coefs,
                ((k + 1) * 1024) as nat,
            ).2,
{
    let len = samples.len();
    let mut adpcm_frames: Vec<u8> = Vec::new();
    let mut conv_samps = [0i16; 16];
    let mut block_end_hist1: Vec<i16> = Vec::new();
    let mut p: usize = 0;
    while p < packet_count
        invariant
            p <= packet_count <= 306783379,
            len == samples@.len(),
            coefs_bounded(*coefs),
            adpcm_frames@ == encode_stream(samples@, *coefs, p as nat).0,
            conv_samps@[0] as int == encode_stream(samples@, *coefs, p as nat).1,
            conv_samps@[1] as int == encode_stream(samples@, *coefs, p as nat).2,
            block_end_hist1@.len() == p / 1024,
            forall|k: int|
                0 <= k < block_end_hist1@.len() ==> (#[trigger] block_end_hist1@[k]) as int
                    == encode_stream(samples@, *coefs, ((k + 1) * 1024) as nat).2,
        decreases packet_count - p,
    {
        proof {
            lemma_stream_encodable(samples@, *coefs, p as nat);
        }
        let ghost st = encode_stream(samples@, *coefs, p as nat);
        let base = p * 14;
        let mut s: usize = 0;
        while s < 14
            invariant
                s <= 14,
                base == p * 14,
                p < packet_count <= 306783379,
                len == samples@.len(),
                conv_samps@[0] as int == st.1,
                conv_samps@[1] as int == st.2,
                forall|j: int|
                    2 <= j < s + 2 ==> conv_samps@[j] as int == #[trigger] frame_input(
                        samples@,
                        p as int,
                        st.1,
                        st.2,
                    )[j],
            decreases 14 - s,
        {
            conv_samps[s + 2] = if base < len && s < len - base {
                samples[base + s]
            } else {
                0
            };
            s = s + 1;
        }
        let ghost input = frame_input(samples@, p as int, st.1, st.2);
        assert(pcm_ints(conv_samps@) =~= input);
        let frame = encode_frame(&mut conv_samps, 14, coefs);
        adpcm_frames.extend_from_slice(&frame);
        conv_samps[0] = conv_samps[14];
        conv_samps[1] = conv_samps[15];
        proof {
            assert(adpcm_frames@ =~= st.0 + frame_bytes(input, 14, *coefs));
        }
        let ghost old_hist = block_end_hist1@;
        if (p + 1) % FRAMES_PER_BLOCK == 0 {
            block_end_hist1.push(conv_samps[1]);
            proof {
                let k = old_hist.len() as int;
                assert((k + 1) * 1024 == p + 1 && (p + 1) / 1024 == k + 1) by (nonlinear_arith)
                    requires
                        k == p / 1024,
                        (p + 1) % 1024 == 0,
                ;
                assert forall|i: int| 0 <= i < block_end_hist1@.len() implies (
                #[trigger] block_end_hist1@[i]) as int == encode_stream(
                    samples@,
                    *coefs,
                    ((i + 1) * 1024) as nat,
                ).2 by {
                    if i < k {
                        assert(block_end_hist1@[i] == old_hist[i]);
                    }
                }
            }
        } else {
            assert((p + 1) / 1024 == p / 1024) by (nonlinear_arith)
                requires
                    (p + 1) % 1024 != 0,
                    p >= 0,
            ;
        }
        p = p + 1;
    }
    (adpcm_frames, block_end_hist1)
}


proof fn lemma_div_ceil(v: int, d: int)
    requires
        v >= 0,
        d > 0,
    ensures
        v / d + (if v % d != 0 {
            1int
        } else {
            0
        }) == (v + d - 1) / d,
{
    assert(v / d + (if v % d != 0 {
        1int
    } else {
        0
    }) == (v + d - 1) / d) by (nonlinear_arith)
        requires
            v >= 0,
            d > 0,
    ;
}

proof fn lemma_round_up_bounds(v: int, a: int)
    requires
        v >= 0,
        a > 0,
    ensures
        v <= round_up_to(v, a) <= v + a - 1,
        round_up_to(v, a) % a == 0,
{
    assert(v <= ((v + a - 1) / a) * a <= v + a - 1) by (nonlinear_arith)
        requires
            v >= 0,
            a > 0,
    ;
    assert((((v + a - 1) / a) * a) % a == 0) by (nonlinear_arith)
        requires
            a > 0,
    ;
}

/// Write the 0x40-byte file header.
fn push_file_header(file: &mut Vec<u8>, seek_size: u32, data_size: u32)
    requires
        HEADER_SIZE + INFO_SIZE + seek_size + data_size <= u32::MAX,
        old(file)@.len() == 0,
    ensures
        final(file)@ == file_header(seek_size as int, data_size as int),
        final(file)@.len() == HEADER_SIZE,
{
    let info_offset = HEADER_SIZE;
    let seek_offset = info_offset + INFO_SIZE;
    let data_offset = seek_offset + seek_size;
    let file_size = data_offset + data_size;
    push_tag(file, [0x46u8, 0x53u8, 0x54u8, 0x4Du8]);
    push_u16(file, 0xFEFF);  // byte-order mark
    push_u16(file, 0x0040);  // header size
    push_u32(file, 0x00040006);  // version
    push_u32(file, file_size);
    push_u16(file, 3);  // section count
    push_u16(file, 0);
    push_section_ref(file, RT_STREAM_INFO_BLOCK, info_offset, INFO_SIZE);
    push_section_ref(file, RT_STREAM_SEEK_BLOCK, seek_offset, seek_size);
    push_section_ref(file, RT_STREAM_DATA_BLOCK, data_offset, data_size);
    assert(file@.len() == 56);
    let header_pad = (HEADER_SIZE as usize) - file.len();
    push_zeros(file, header_pad);
    reveal(file_header);
    assert(final(file)@ =~= file_header(seek_size as int, data_size as int));
}

/// Four bytes per entry: predictor/scale, then last sample, each little-endian 16-bit.
pub open spec fn entries_payload(entries: Seq<(i16, i16)>, k: nat) -> Seq<u8>
    decreases k,
{
    if k == 0 {
        Seq::empty()
    } else {
        entries_payload(entries, (k - 1) as nat) + le16(bits16(entries[k - 1].0 as int)) + le16(
            bits16(entries[k - 1].1 as int),
        )
    }
}

proof fn lemma_entries_payload(entries: Seq<(i16, i16)>, samples: Seq<i16>, coefs: Coefs, k: nat)
    requires
        k <= entries.len(),
        forall|j: int|
            0 <= j < k ==> (#[trigger] entries[j]).0 as int == seek_entry(samples, coefs, j).0
                && entries[j].1 as int == seek_entry(samples, coefs, j).1,
    ensures
        entries_payload(entries, k) == seek_payload(samples, coefs, k),
        seek_payload(samples, coefs, k).len() == 4 * k,
    decreases k,
{
    if k > 0 {
        lemma_entries_payload(entries, samples, coefs, (k - 1) as nat);
    }
}

/// The derived block layout of `sample_count` samples: frame count, block count, and the
/// last block's sample count, raw size and padded size.
fn block_layout(sample_count: u32) -> (res: (usize, u32, u32, u32, u32))
    ensures
        res.0 as int == frame_count(sample_count as int),
        res.0 <= 306783379,
        res.1 as int == block_count_for(sample_count as int),
        res.1 <= 299594,
        res.2 as int == last_block_samples(sample_count as int),
        res.3 as int == last_block_raw(sample_count as int),
        res.4 as int == last_block_padded(sample_count as int),
{
    let n = sample_count;
    let packet_count = (n / 14 + if n % 14 != 0 {
        1
    } else {
        0
    }) as usize;
    let block_count = n / BLOCK_SAMPLE_COUNT + if n % BLOCK_SAMPLE_COUNT != 0 {
        1
    } else {
        0
    };
    let last_block_sample_count: u32 = if n == 0 {
        0
    } else {
        let r = n % BLOCK_SAMPLE_COUNT;
        if r == 0 {
            BLOCK_SAMPLE_COUNT
        } else {
            r
        }
    };
    let last_block_frames = last_block_sample_count / 14 + if last_block_sample_count % 14 != 0 {
        1
    } else {
        0
    };
    let last_block_size_raw = last_block_frames * 8;
    proof {
        lemma_div_ceil(n as int, 14);
        lemma_div_ceil(n as int, 0x3800);
        lemma_div_ceil(last_block_sample_count as int, 14);
        lemma_round_up_bounds(last_block_size_raw as int, 0x20);
    }
    let last_block_padded_size = round_up(last_block_size_raw, 0x20);
    (packet_count, block_count, last_block_sample_count, last_block_size_raw, last_block_padded_size)
}

/// The seek entries, one per block: zero for block 0, then for each later block the
/// predictor/scale byte of its first frame and the last reconstructed sample before it.
fn seek_entries_for(adpcm_frames: &Vec<u8>, block_end_hist1: &Vec<i16>, block_count: u32) -> (res:
    Vec<(i16, i16)>)
    requires
        block_count <= 299594,
    ensures
        res@.len() == block_count,
        block_count > 0 ==> res@[0] == (0i16, 0i16),
        forall|i: int|
            1 <= i < block_count ==> (#[trigger] res@[i]).0 as int == (if i * 8192
                < adpcm_frames@.len() {
                adpcm_frames@[i * 8192] as int
            } else {
                0
            }) && res@[i].1 as int == (if i - 1 < block_end_hist1@.len() {
                block_end_hist1@[i - 1] as int
            } else {
                0
            }),
{
    let mut seek_entries: Vec<(i16, i16)> = Vec::new();
    if block_count == 0 {
        return seek_entries;
    }
    seek_entries.push((0, 0));
    let mut i: usize = 1;
    while i < block_count as usize
        invariant
            1 <= i <= block_count <= 299594,
            seek_entries@.len() == i,
            seek_entries@[0] == (0i16, 0i16),
            forall|k: int|
                1 <= k < i ==> (#[trigger] seek_entries@[k]).0 as int == (if k * 8192
                    < adpcm_frames@.len() {
                    adpcm_frames@[k * 8192] as int
                } else {
                    0
                }) && seek_entries@[k].1 as int == (if k - 1 < block_end_hist1@.len() {
                    block_end_hist1@[k - 1] as int
                } else {
                    0
                }),
        decreases block_count - i,
    {
        let pos = i * 8192;
        let pred_scale: i16 = if pos < adpcm_frames.len() {
            adpcm_frames[pos] as i16
        } else {
            0
        };
        let hist1: i16 = if i - 1 < block_end_hist1.len() {
            block_end_hist1[i - 1]
        } else {
            0
        };
        let ghost before = seek_entries@;
        seek_entries.push((pred_scale, hist1));
        assert forall|k: int| 1 <= k < i + 1 implies (#[trigger] seek_entries@[k]).0 as int == (
        if k * 8192 < adpcm_frames@.len() {
            adpcm_frames@[k * 8192] as int
        } else {
            0
        }) && seek_entries@[k].1 as int == (if k - 1 < block_end_hist1@.len() {
            block_end_hist1@[k - 1] as int
        } else {
            0
        }) by {
            if k < i {
                assert(seek_entries@[k] == before[k]);
            }
        }
        i = i + 1;
    }
    seek_entries
}

/// Append the SEEK section: magic, size, entries, zero padding up to `seek_size`.
fn push_seek_section(file: &mut Vec<u8>, seek_entries: &Vec<(i16, i16)>, seek_size: u32)
    requires
        8 + 4 * seek_entries@.len() <= seek_size,
        old(file)@.len() + seek_size <= u32::MAX,
    ensures
        final(file)@ == old(file)@ + tag_seek() + le32(seek_size as int) + entries_payload(
            seek_entries@,
            seek_entries@.len(),
        ) + zeros(seek_size - 8 - 4 * seek_entries@.len()),
{
    let start = file.len();
    push_tag(file, [0x53u8, 0x45u8, 0x45u8, 0x4Bu8]);
    push_u32(file, seek_size);
    let ghost head = file@;
    let mut k: usize = 0;
    while k < seek_entries.len()
        invariant
            k <= seek_entries@.len(),
            file@ == head + entries_payload(seek_entries@, k as nat),
            file@.len() == head.len() + 4 * k,
        decreases seek_entries@.len() - k,
    {
        let (pred_scale, hist1) = seek_entries[k];
        push_i16(file, pred_scale);
        push_i16(file, hist1);
        assert(file@ =~= head + entries_payload(seek_entries@, (k + 1) as nat));
        k = k + 1;
    }
    let ghost body = file@;
    let end = start + seek_size as usize;
    while file.len() < end
        invariant
            end == start + seek_size,
            body.len() <= file@.len() <= end,
            file@ == body + zeros(file@.len() - body.len()),
        decreases end - file.len(),
    {
        file.push(0);
        assert(file@ =~= body + zeros(file@.len() - body.len()));
    }
    assert(final(file)@ =~= old(file)@ + tag_seek() + le32(seek_size as int) + entries_payload(
        seek_entries@,
        seek_entries@.len(),
    ) + zeros(seek_size - 8 - 4 * seek_entries@.len()));
}

/// Append the DATA section: magic, size, padding to 0x20, the frames, zero padding up to `data_size`.
fn push_data_section(file: &mut Vec<u8>, adpcm_frames: &Vec<u8>, data_size: u32)
    requires
        data_size == data_size_for(adpcm_frames@.len() as int),
        old(file)@.len() + data_size <= u32::MAX,
    ensures
        final(file)@ == old(file)@ + data_section(adpcm_frames@),
{
    reveal(data_section);
    proof {
        lemma_round_up_bounds(adpcm_frames@.len() as int, 0x20);
    }
    let start = file.len();
    push_tag(file, [0x44u8, 0x41u8, 0x54u8, 0x41u8]);
    push_u32(file, data_size);
    push_zeros(file, 0x18);
    file.extend_from_slice(adpcm_frames.as_slice());
    let ghost body = file@;
    let end = start + data_size as usize;
    while file.len() < end
        invariant
            end == start + data_size,
            body.len() <= file@.len() <= end,
            file@ == body + zeros(file@.len() - body.len()),
        decreases end - file.len(),
    {
        file.push(0);
        assert(file@ =~= body + zeros(file@.len() - body.len()));
    }
    assert(final(file)@ =~= old(file)@ + data_section(adpcm_frames@));
}

proof fn lemma_seek_entries_match(
    samples: Seq<i16>,
    coefs: Coefs,
    frames: Seq<u8>,
    hist: Seq<i16>,
    entries: Seq<(i16, i16)>,
    fc: int,
    block_count: int,
)
    requires
        fc == frame_count(sample_count_of(samples)),
        fc >= 0,
        frames == stream_frames(samples, coefs),
        hist.len() == fc / 1024,
        forall|k: int|
            0 <= k < hist.len() ==> (#[trigger] hist[k]) as int == encode_stream(
                samples,
                coefs,
                ((k + 1) * 1024) as nat,
            ).2,
        0 <= block_count,
        entries.len() == block_count,
        block_count > 0 ==> entries[0] == (0i16, 0i16),
        forall|i: int|
            1 <= i < block_count ==> (#[trigger] entries[i]).0 as int == (if i * 8192
                < frames.len() {
                frames[i * 8192] as int
            } else {
                0
            }) && entries[i].1 as int == (if i - 1 < hist.len() {
                hist[i - 1] as int
            } else {
                0
            }),
    ensures
        entries_payload(entries, block_count as nat) == seek_payload(
            samples,
            coefs,
            block_count as nat,
        ),
        seek_payload(samples, coefs, block_count as nat).len() == 4 * block_count,
{
    assert forall|j: int| 0 <= j < block_count implies (#[trigger] entries[j]).0 as int
        == seek_entry(samples, coefs, j).0 && entries[j].1 as int == seek_entry(
        samples,
        coefs,
        j,
    ).1 by {
        if j >= 1 {
            assert((j - 1 < fc / 1024) == (j * 1024 <= fc)) by (nonlinear_arith)
                requires
                    j >= 1,
                    fc >= 0,
            ;
            if j - 1 < hist.len() {
                assert(((j - 1) + 1) * 1024 == j * 1024);
            }
        }
    }
    lemma_entries_payload(entries, samples, coefs, block_count as nat);
}

/// Build a complete BFSTM file from mono 16-bit PCM samples and the predictors to encode
/// them with.
///
/// The file records `samples.len()` as a 32-bit sample count and holds
/// `ceil(count / 14)` frames, the last one padded with zero samples; blocks are 0x3800
/// samples, with one seek entry per block. The layout is exactly `bfstm_file`.
pub fn build_bfstm(samples: &[i16], sample_rate: u32, coefs: &Coefs) -> (file: Vec<u8>)
    requires
        coefs_bounded(*coefs),
    ensures
        file@ == bfstm_file(samples@, sample_rate as int, *coefs),
{
    proof {
        reveal(bfstm_file);
        reveal(file_info);
        reveal(seek_section);
    }
    let sample_count = samples.len() as u32;
    let ghost n = sample_count as int;
    assert(n == sample_count_of(samples@));
    let (
        packet_count,
        block_count,
        last_block_sample_count,
        last_block_size_raw,
        last_block_padded_size,
    ) = block_layout(sample_count);

    // ── Encode ──────────────────────────────────────────────────────────────
    let (adpcm_frames, block_end_hist1) = encode_blocks(samples, packet_count, coefs);
    let ghost frames = adpcm_frames@;
    proof {
        lemma_stream_encodable(samples@, *coefs, packet_count as nat);
        reveal(stream_frames);
        assert(frames == stream_frames(samples@, *coefs));
    }
    let pred_scale0: i16 = if adpcm_frames.len() == 0 {
        0
    } else {
        adpcm_frames[0] as i16
    };

    // ── Seek entries ────────────────────────────────────────────────────────
    let seek_entries = seek_entries_for(&adpcm_frames, &block_end_hist1, block_count);
    proof {
        lemma_seek_entries_match(
            samples@,
            *coefs,
            adpcm_frames@,
            block_end_hist1@,
            seek_entries@,
            packet_count as int,
            block_count as int,
        );
    }

    // ── Sections ────────────────────────────────────────────────────────────
    let info_section = build_info_section(
        InfoParams {
            sample_count,
            sample_rate,
            block_count,
            last_block_sample_count,
            last_block_size_raw,
            last_block_padded_size,
            coefs,
            pred_scale0,
        },
    );
    let info_size = info_section.len() as u32;
    let seek_payload_bytes = (seek_entries.len() as u32) * 4;
    proof {
        lemma_round_up_bounds(8 + seek_payload_bytes as int, 0x20);
        lemma_round_up_bounds(frames.len() as int, 0x20);
    }
    let seek_size = round_up(8 + seek_payload_bytes, 0x20);
    let audio_data_size = round_up(adpcm_frames.len() as u32, 0x20);
    let data_size: u32 = 0x20 + audio_data_size;
    assert(seek_size as int == seek_size_for(n));
    assert(data_size as int == data_size_for(frames.len() as int));

    // ── Assemble ────────────────────────────────────────────────────────────
    let ghost header = file_header(seek_size as int, data_size as int);
    let ghost info = file_info(samples@, sample_rate as int, *coefs);
    assert(info_section@ == info);
    let mut file: Vec<u8> = Vec::new();
    push_file_header(&mut file, seek_size, data_size);
    file.extend_from_slice(info_section.as_slice());
    assert(file@ =~= header + info);
    push_seek_section(&mut file, &seek_entries, seek_size);
    assert(file@ == header + info + seek_section(samples@, *coefs));
    push_data_section(&mut file, &adpcm_frames, data_size);
    assert(file@ == header + info + seek_section(samples@, *coefs) + data_section(frames));
    file
}


// ── Laws of the layout ──────────────────────────────────────────────────────

/// Offset of the SEEK section.
pub open spec fn seek_offset() -> int {
    HEADER_SIZE + INFO_SIZE
}

/// Offset of the DATA section.
pub open spec fn data_offset_for(n: int) -> int {
    seek_offset() + seek_size_for(n)
}

/// Reading inside a prefix is unaffected by what follows it.
proof fn lemma_u32_in_prefix(a: Seq<u8>, b: Seq<u8>, off: int)
    requires
        0 <= off,
        off + 4 <= a.len(),
    ensures
        u32_at(a + b, off) == u32_at(a, off),
{
}

proof fn lemma_u16_in_prefix(a: Seq<u8>, b: Seq<u8>, off: int)
    requires
        0 <= off,
        off + 2 <= a.len(),
    ensures
        u16_at(a + b, off) == u16_at(a, off),
{
}

/// The magic, byte-order mark, file size and section count of the file header.
proof fn lemma_header_start(seek_size: int, data_size: int)
    requires
        0 <= seek_size,
        0 <= data_size,
        seek_offset() + seek_size + data_size <= u32::MAX,
    ensures
        file_header(seek_size, data_size).len() == HEADER_SIZE,
        file_header(seek_size, data_size).subrange(0, 4) == tag_fstm(),
        file_header(seek_size, data_size)[4] == 0xFFu8,
        file_header(seek_size, data_size)[5] == 0xFEu8,
        u32_at(file_header(seek_size, data_size), 0x0C) == Some(
            seek_offset() + seek_size + data_size,
        ),
        u16_at(file_header(seek_size, data_size), 0x10) == Some(3int),
{
    reveal(file_header);
    let seek_off = seek_offset();
    let data_off = seek_off + seek_size;
    let fs = data_off + data_size;
    let p0 = tag_fstm() + le16(0xFEFF) + le16(0x40) + le32(0x00040006);
    let r1 = section_ref(RT_STREAM_INFO_BLOCK as int, HEADER_SIZE as int, INFO_SIZE as int);
    let r2 = section_ref(RT_STREAM_SEEK_BLOCK as int, seek_off, seek_size);
    let r3 = section_ref(RT_STREAM_DATA_BLOCK as int, data_off, data_size);
    let tail = r1 + r2 + r3 + zeros(8);
    let h = file_header(seek_size, data_size);
    assert(h =~= p0 + le32(fs) + (le16(3) + le16(0) + tail));
    lemma_u32_field(p0, fs, le16(3) + le16(0) + tail);
    assert(h =~= p0 + le32(fs) + le16(3) + (le16(0) + tail));
    lemma_u16_field(p0 + le32(fs), 3, le16(0) + tail);
    assert(h.subrange(0, 4) =~= tag_fstm());
    reveal(le16);
    assert(h[4] == le16(0xFEFF)[0] && h[5] == le16(0xFEFF)[1]);
}

/// The three section references of the file header.
proof fn lemma_header_refs(seek_size: int, data_size: int)
    requires
        0 <= seek_size,
        0 <= data_size,
        seek_offset() + seek_size + data_size <= u32::MAX,
    ensures
        u32_at(file_header(seek_size, data_size), 0x18) == Some(HEADER_SIZE as int),
        u32_at(file_header(seek_size, data_size), 0x1C) == Some(INFO_SIZE as int),
        u32_at(file_header(seek_size, data_size), 0x24) == Some(seek_offset()),
        u32_at(file_header(seek_size, data_size), 0x28) == Some(seek_size),
        u32_at(file_header(seek_size, data_size), 0x30) == Some(
            seek_offset() + seek_size,
        ),
        u32_at(file_header(seek_size, data_size), 0x34) == Some(data_size),
{
    reveal(file_header);
    let info_offset = HEADER_SIZE as int;
    let seek_off = seek_offset();
    let data_off = seek_off + seek_size;
    let p1 = tag_fstm() + le16(0xFEFF) + le16(0x40) + le32(0x00040006) + le32(data_off + data_size)
        + le16(3) + le16(0);
    let r1 = section_ref(RT_STREAM_INFO_BLOCK as int, info_offset, INFO_SIZE as int);
    let r2 = section_ref(RT_STREAM_SEEK_BLOCK as int, seek_off, seek_size);
    let r3 = section_ref(RT_STREAM_DATA_BLOCK as int, data_off, data_size);
    let h = file_header(seek_size, data_size);
    let pre1 = p1 + le16(RT_STREAM_INFO_BLOCK as int) + le16(0);
    assert(h =~= pre1 + le32(info_offset) + (le32(INFO_SIZE as int) + r2 + r3 + zeros(8)));
    lemma_u32_field(pre1, info_offset, le32(INFO_SIZE as int) + r2 + r3 + zeros(8));
    assert(h =~= pre1 + le32(info_offset) + le32(INFO_SIZE as int) + (r2 + r3 + zeros(8)));
    lemma_u32_field(pre1 + le32(info_offset), INFO_SIZE as int, r2 + r3 + zeros(8));
    let pre2 = p1 + r1 + le16(RT_STREAM_SEEK_BLOCK as int) + le16(0);
    assert(h =~= pre2 + le32(seek_off) + (le32(seek_size) + r3 + zeros(8)));
    lemma_u32_field(pre2, seek_off, le32(seek_size) + r3 + zeros(8));
    assert(h =~= pre2 + le32(seek_off) + le32(seek_size) + (r3 + zeros(8)));
    lemma_u32_field(pre2 + le32(seek_off), seek_size, r3 + zeros(8));
    let pre3 = p1 + r1 + r2 + le16(RT_STREAM_DATA_BLOCK as int) + le16(0);
    assert(h =~= pre3 + le32(data_off) + (le32(data_size) + zeros(8)));
    lemma_u32_field(pre3, data_off, le32(data_size) + zeros(8));
    assert(h =~= pre3 + le32(data_off) + le32(data_size) + zeros(8));
    lemma_u32_field(pre3 + le32(data_off), data_size, zeros(8));
}


proof fn lemma_seek_payload_len(samples: Seq<i16>, coefs: Coefs, k: nat)
    ensures
        seek_payload(samples, coefs, k).len() == 4 * k,
    decreases k,
{
    if k > 0 {
        lemma_seek_payload_len(samples, coefs, (k - 1) as nat);
    }
}

proof fn lemma_file_info_len(samples: Seq<i16>, sample_rate: int, coefs: Coefs)
    ensures
        file_info(samples, sample_rate, coefs).len() == INFO_SIZE,
{
    reveal(file_info);
    reveal(stream_info);
    reveal(channel_info);
    lemma_coef_table_len(coefs, 8);
}

/// Sizes of the parts of the file, and that they fit the 32-bit fields.
proof fn lemma_file_sizes(samples: Seq<i16>, sample_rate: int, coefs: Coefs)
    requires
        coefs_bounded(coefs),
    ensures
        ({
            let n = sample_count_of(samples);
            let frames = stream_frames(samples, coefs);
            &&& 0 <= n <= u32::MAX
            &&& frames.len() == 8 * frame_count(n)
            &&& 0 <= block_count_for(n) <= 299594
            &&& seek_size_for(n) % 0x20 == 0
            &&& 8 + 4 * block_count_for(n) <= seek_size_for(n) <= 8 + 4 * block_count_for(n) + 0x1F
            &&& round_up_to(frames.len() as int, 0x20) % 0x20 == 0
            &&& frames.len() <= round_up_to(frames.len() as int, 0x20) <= frames.len() + 0x1F
            &&& data_offset_for(n) + data_size_for(frames.len() as int) <= u32::MAX
            &&& file_info(samples, sample_rate, coefs).len() == INFO_SIZE
            &&& seek_section(samples, coefs).len() == seek_size_for(n)
            &&& data_section(frames).len() == data_size_for(frames.len() as int)
            &&& bfstm_file(samples, sample_rate, coefs).len() == data_offset_for(n) + data_size_for(
                frames.len() as int,
            )
        }),
{
    reveal(stream_frames);
    reveal(file_info);
    reveal(seek_section);
    reveal(data_section);
    reveal(bfstm_file);
    let n = sample_count_of(samples);
    let fc = frame_count(n);
    let frames = stream_frames(samples, coefs);
    lemma_stream_encodable(samples, coefs, fc as nat);
    assert(0 <= fc <= 306783379);
    assert(block_count_for(n) <= 299594);
    let bc = block_count_for(n);
    lemma_round_up_bounds(8 + 4 * bc, 0x20);
    lemma_round_up_bounds(frames.len() as int, 0x20);
    lemma_file_info_len(samples, sample_rate, coefs);
    lemma_seek_payload_len(samples, coefs, bc as nat);
    lemma_header_start(seek_size_for(n), data_size_for(frames.len() as int));
}

/// The file header: magic `FSTM`, byte-order mark `FF FE`, the file-size field equal to
/// the file's length, three sections, and the section references at 0x18, 0x24 and 0x30
/// pointing at 0x20-aligned offsets.
#[verifier::spinoff_prover]
#[verifier::rlimit(40)]
pub proof fn lemma_bfstm_header(samples: Seq<i16>, sample_rate: int, coefs: Coefs)
    requires
        coefs_bounded(coefs),
    ensures
        ({
            let f = bfstm_file(samples, sample_rate, coefs);
            let n = sample_count_of(samples);
            &&& f.subrange(0, 4) == tag_fstm()
            &&& f[4] == 0xFFu8 && f[5] == 0xFEu8
            &&& u32_at(f, 0x0C) == Some(f.len() as int)
            &&& u16_at(f, 0x10) == Some(3int)
            &&& u32_at(f, 0x18) == Some(HEADER_SIZE as int)
            &&& u32_at(f, 0x24) == Some(seek_offset())
            &&& u32_at(f, 0x30) == Some(data_offset_for(n))
            &&& (HEADER_SIZE as int) % 0x20 == 0
            &&& seek_offset() % 0x20 == 0
            &&& data_offset_for(n) % 0x20 == 0
        }),
{
    reveal(bfstm_file);
    let n = sample_count_of(samples);
    let frames = stream_frames(samples, coefs);
    lemma_file_sizes(samples, sample_rate, coefs);
    let ss = seek_size_for(n);
    let ds = data_size_for(frames.len() as int);
    lemma_header_start(ss, ds);
    lemma_header_refs(ss, ds);
    let h = file_header(ss, ds);
    let info = file_info(samples, sample_rate, coefs);
    let seek = seek_section(samples, coefs);
    let data = data_section(frames);
    let f = bfstm_file(samples, sample_rate, coefs);
    assert(f == h + info + seek + data);
    lemma_reads_in_head(h, info, seek, data, 0x0C);
    lemma_reads_in_head(h, info, seek, data, 0x18);
    lemma_reads_in_head(h, info, seek, data, 0x24);
    lemma_reads_in_head(h, info, seek, data, 0x30);
    lemma_reads_in_head(h, info, seek, data, 0x10);
    lemma_reads_in_head(h, info, seek, data, 4);
    assert(f.subrange(0, 4) =~= h.subrange(0, 4));
}

/// Reads inside `a` are the same in `a + b + c + d`.
proof fn lemma_reads_in_head(a: Seq<u8>, b: Seq<u8>, c: Seq<u8>, d: Seq<u8>, off: int)
    requires
        0 <= off,
        off + 4 <= a.len(),
    ensures
        u32_at(a + b + c + d, off) == u32_at(a, off),
        u16_at(a + b + c + d, off) == u16_at(a, off),
        (a + b + c + d)[off] == a[off],
        (a + b + c + d)[off + 1] == a[off + 1],
{
    lemma_u32_in_prefix(a, b, off);
    lemma_u32_in_prefix(a + b, c, off);
    lemma_u32_in_prefix(a + b + c, d, off);
    lemma_u16_in_prefix(a, b, off);
    lemma_u16_in_prefix(a + b, c, off);
    lemma_u16_in_prefix(a + b + c, d, off);
}

/// The INFO section starts at 0x40 with its magic and the size 0xA0.
pub proof fn lemma_bfstm_info_section(samples: Seq<i16>, sample_rate: int, coefs: Coefs)
    requires
        coefs_bounded(coefs),
    ensures
        bfstm_file(samples, sample_rate, coefs).subrange(0x40, 0x44) == tag_info(),
        u32_at(bfstm_file(samples, sample_rate, coefs), 0x44) == Some(INFO_SIZE as int),
{
    reveal(bfstm_file);
    reveal(file_info);
    let n = sample_count_of(samples);
    let frames = stream_frames(samples, coefs);
    lemma_file_sizes(samples, sample_rate, coefs);
    let h = file_header(seek_size_for(n), data_size_for(frames.len() as int));
    let f = bfstm_file(samples, sample_rate, coefs);
    let info_rest = info_refs() + stream_info(
        n,
        sample_rate,
        block_count_for(n),
        last_block_samples(n),
        last_block_raw(n),
        last_block_padded(n),
    ) + channel_info(coefs, first_pred_scale(frames)) + zeros(6) + seek_section(samples, coefs)
        + data_section(frames);
    assert(f =~= h + tag_info() + le32(INFO_SIZE as int) + info_rest);
    assert(f.subrange(0x40, 0x44) =~= tag_info());
    lemma_u32_field(h + tag_info(), INFO_SIZE as int, info_rest);
}

/// The SEEK section follows INFO: its magic, and its size field
/// `round_up(8 + 4 * block_count, 0x20)`, one 4-byte entry per block.
pub proof fn lemma_bfstm_seek_section(samples: Seq<i16>, sample_rate: int, coefs: Coefs)
    requires
        coefs_bounded(coefs),
    ensures
        ({
            let f = bfstm_file(samples, sample_rate, coefs);
            let n = sample_count_of(samples);
            let so = seek_offset();
            &&& f.subrange(so, so + 4) == tag_seek()
            &&& u32_at(f, so + 4) == Some(round_up_to(8 + 4 * block_count_for(n), 0x20))
        }),
{
    reveal(bfstm_file);
    reveal(seek_section);
    let n = sample_count_of(samples);
    let frames = stream_frames(samples, coefs);
    lemma_file_sizes(samples, sample_rate, coefs);
    let ss = seek_size_for(n);
    let h = file_header(ss, data_size_for(frames.len() as int));
    let info = file_info(samples, sample_rate, coefs);
    let f = bfstm_file(samples, sample_rate, coefs);
    let so = seek_offset();
    let bc = block_count_for(n);
    let seek_rest = seek_payload(samples, coefs, bc as nat) + zeros(ss - 8 - 4 * bc)
        + data_section(frames);
    assert(f =~= h + info + tag_seek() + le32(ss) + seek_rest);
    assert(f.subrange(so, so + 4) =~= tag_seek());
    lemma_u32_field(h + info + tag_seek(), ss, seek_rest);
}

/// The DATA section follows SEEK: its magic, its size field (0x20 more than the frames
/// rounded up to 0x20), and the frames, 8 bytes per 14 samples, from 0x20 into it; the
/// file ends with the section.
pub proof fn lemma_bfstm_data_section(samples: Seq<i16>, sample_rate: int, coefs: Coefs)
    requires
        coefs_bounded(coefs),
    ensures
        ({
            let f = bfstm_file(samples, sample_rate, coefs);
            let n = sample_count_of(samples);
            let frames = stream_frames(samples, coefs);
            let d = data_offset_for(n);
            &&& f.subrange(d, d + 4) == tag_data()
            &&& u32_at(f, d + 4) == Some(data_size_for(frames.len() as int))
            &&& frames.len() == 8 * frame_count(n)
            &&& frames.len() <= data_size_for(frames.len() as int) - 0x20
            &&& (data_size_for(frames.len() as int) - 0x20) % 0x20 == 0
            &&& f.subrange(d + 0x20, d + 0x20 + frames.len() as int) == frames
            &&& f.len() == d + data_size_for(frames.len() as int)
        }),
{
    reveal(bfstm_file);
    let n = sample_count_of(samples);
    let frames = stream_frames(samples, coefs);
    lemma_file_sizes(samples, sample_rate, coefs);
    let ds = data_size_for(frames.len() as int);
    let h = file_header(seek_size_for(n), ds);
    let front = h + file_info(samples, sample_rate, coefs) + seek_section(samples, coefs);
    let data = data_section(frames);
    let f = bfstm_file(samples, sample_rate, coefs);
    let d = data_offset_for(n);
    assert(front.len() == d);
    assert(f == front + data);
    lemma_data_section_fields(frames);
    lemma_shift_subrange(front, data, 0, 4);
    lemma_shift_subrange(front, data, 0x20, 0x20 + frames.len() as int);
    lemma_shift_u32(front, data, 4);
}

/// The fields of a DATA section, relative to its start.
proof fn lemma_data_section_fields(frames: Seq<u8>)
    requires
        frames.len() <= u32::MAX,
        data_size_for(frames.len() as int) <= u32::MAX,
    ensures
        data_section(frames).subrange(0, 4) == tag_data(),
        u32_at(data_section(frames), 4) == Some(data_size_for(frames.len() as int)),
        data_section(frames).subrange(0x20, 0x20 + frames.len() as int) == frames,
{
    reveal(data_section);
    lemma_round_up_bounds(frames.len() as int, 0x20);
    let ds = data_size_for(frames.len() as int);
    let rest = zeros(0x18) + frames + zeros(round_up_to(frames.len() as int, 0x20) - frames.len());
    let data = data_section(frames);
    assert(data =~= tag_data() + le32(ds) + rest);
    assert(data.subrange(0, 4) =~= tag_data());
    lemma_u32_field(tag_data(), ds, rest);
    assert(data.subrange(0x20, 0x20 + frames.len() as int) =~= frames);
}

proof fn lemma_shift_subrange(a: Seq<u8>, b: Seq<u8>, i: int, j: int)
    requires
        0 <= i <= j <= b.len(),
    ensures
        (a + b).subrange(a.len() + i, a.len() + j) == b.subrange(i, j),
{
    assert((a + b).subrange(a.len() + i, a.len() + j) =~= b.subrange(i, j));
}

proof fn lemma_shift_u32(a: Seq<u8>, b: Seq<u8>, off: int)
    requires
        0 <= off,
    ensures
        u32_at(a + b, a.len() + off) == u32_at(b, off),
{
}

proof fn lemma_shift_u16(a: Seq<u8>, b: Seq<u8>, off: int)
    requires
        0 <= off,
    ensures
        u16_at(a + b, a.len() + off) == u16_at(b, off),
{
}

/// Where seek entry `i` sits in the file.
pub open spec fn seek_entry_at(i: int) -> int {
    0xE8 + 4 * i
}

/// Both values of a seek entry are 16-bit samples.
proof fn lemma_seek_entry_i16(samples: Seq<i16>, coefs: Coefs, i: int)
    requires
        coefs_bounded(coefs),
        0 <= i,
    ensures
        -32768 <= seek_entry(samples, coefs, i).0 <= 32767,
        -32768 <= seek_entry(samples, coefs, i).1 <= 32767,
{
    if i > 0 {
        lemma_stream_encodable(samples, coefs, (i * 1024) as nat);
    }
}

/// Entry `i` of a seek payload sits at `4 i`: its two values as 16-bit little-endian fields.
proof fn lemma_seek_payload_reads(samples: Seq<i16>, coefs: Coefs, k: nat)
    requires
        coefs_bounded(coefs),
    ensures
        seek_payload(samples, coefs, k).len() == 4 * k,
        forall|i: int|
            0 <= i < k ==> u16_at(seek_payload(samples, coefs, k), 4 * i) == Some(
                bits16(seek_entry(samples, coefs, i).0),
            ) && u16_at(seek_payload(samples, coefs, k), 4 * i + 2) == Some(
                bits16(seek_entry(samples, coefs, i).1),
            ),
    decreases k,
{
    broadcast use crate::le_bytes::group_le_len;

    if k > 0 {
        let j = k - 1;
        lemma_seek_payload_reads(samples, coefs, j as nat);
        let prev = seek_payload(samples, coefs, j as nat);
        let e = seek_entry(samples, coefs, j);
        lemma_seek_entry_i16(samples, coefs, j);
        let a = le16(bits16(e.0));
        let b = le16(bits16(e.1));
        let cur = seek_payload(samples, coefs, k);
        assert(cur == prev + a + b);
        assert forall|i: int| 0 <= i < k implies u16_at(cur, 4 * i) == Some(
            bits16(seek_entry(samples, coefs, i).0),
        ) && u16_at(cur, 4 * i + 2) == Some(bits16(seek_entry(samples, coefs, i).1)) by {
            if i < j {
                assert(cur =~= prev + (a + b));
                lemma_u16_in_prefix(prev, a + b, 4 * i);
                lemma_u16_in_prefix(prev, a + b, 4 * i + 2);
            } else {
                lemma_u16_field(prev, bits16(e.0), b);
                assert(cur =~= (prev + a) + b + Seq::<u8>::empty());
                lemma_u16_field(prev + a, bits16(e.1), Seq::<u8>::empty());
            }
        }
    }
}

/// The SEEK entries in the file: entry `i` (one per block) at `0xE8 + 4 i`, its predictor/
/// scale value then its history sample, as 16-bit little-endian fields. Entry 0 is zero;
/// entry `i >= 1` holds the predictor/scale byte of the first frame of block `i` and the
/// last reconstructed sample of block `i - 1`. The rest of the section is zero.
pub proof fn lemma_bfstm_seek_entries(samples: Seq<i16>, sample_rate: int, coefs: Coefs)
    requires
        coefs_bounded(coefs),
    ensures
        ({
            let f = bfstm_file(samples, sample_rate, coefs);
            let n = sample_count_of(samples);
            let bc = block_count_for(n);
            let frames = stream_frames(samples, coefs);
            &&& 1 <= bc ==> u16_at(f, 0xE8int) == Some(0int) && u16_at(f, 0xEAint) == Some(0int)
            &&& forall|i: int|
                1 <= i < bc ==> u16_at(f, #[trigger] seek_entry_at(i)) == Some(
                    frames[i * 8192] as int,
                ) && u16_at(f, seek_entry_at(i) + 2) == Some(
                    bits16(encode_stream(samples, coefs, (i * 1024) as nat).2),
                )
            &&& forall|j: int| 0xE8 + 4 * bc <= j < 0xE0 + seek_size_for(n) ==> f[j] == 0u8
        }),
{
    reveal(bfstm_file);
    reveal(seek_section);
    let n = sample_count_of(samples);
    let frames = stream_frames(samples, coefs);
    lemma_file_sizes(samples, sample_rate, coefs);
    let bc = block_count_for(n);
    let ss = seek_size_for(n);
    let h = file_header(ss, data_size_for(frames.len() as int));
    let info = file_info(samples, sample_rate, coefs);
    let f = bfstm_file(samples, sample_rate, coefs);
    let payload = seek_payload(samples, coefs, bc as nat);
    let pad = zeros(ss - 8 - 4 * bc);
    let rest = pad + data_section(frames);
    let a = h + info + tag_seek() + le32(ss);
    lemma_seek_payload_reads(samples, coefs, bc as nat);
    assert(a.len() == 0xE8) by {
        lemma_header_start(ss, data_size_for(frames.len() as int));
        reveal(le32);
    }
    assert(f =~= a + (payload + rest));
    assert forall|off: int| 0 <= off && off + 2 <= 4 * bc implies u16_at(f, 0xE8 + off)
        == u16_at(payload, off) by {
        lemma_shift_u16(a, payload + rest, off);
        lemma_u16_in_prefix(payload, rest, off);
    }
    if 1 <= bc {
        assert(seek_entry(samples, coefs, 0) == (0int, 0int));
        assert(u16_at(f, 0xE8int) == u16_at(payload, 0int));
        assert(u16_at(f, 0xE8int + 2) == u16_at(payload, 2int));
    }
    assert forall|i: int| 1 <= i < bc implies u16_at(f, #[trigger] seek_entry_at(i)) == Some(
        frames[i * 8192] as int,
    ) && u16_at(f, seek_entry_at(i) + 2) == Some(
        bits16(encode_stream(samples, coefs, (i * 1024) as nat).2),
    ) by {
        lemma_seek_entries_from_stream(samples, coefs, i);
        assert(u16_at(f, 0xE8 + 4 * i) == u16_at(payload, 4 * i));
        assert(u16_at(f, 0xE8 + (4 * i + 2)) == u16_at(payload, 4 * i + 2));
    }
    assert forall|j: int| 0xE8 + 4 * bc <= j < 0xE0 + ss implies f[j] == 0u8 by {
        assert(f[j] == (payload + rest)[j - 0xE8]);
        assert(rest[j - 0xE8 - 4 * bc] == pad[j - 0xE8 - 4 * bc]);
    }
}

/// Where predictor pair `z` sits in the file.
pub open spec fn coef_pair_at(z: int) -> int {
    0xAC + 4 * z
}

/// Pair `z` of a coefficient table sits at `4 z`, as two 16-bit little-endian fields.
proof fn lemma_coef_table_reads(coefs: Coefs, k: nat)
    requires
        k <= 8,
    ensures
        coef_table(coefs, k).len() == 4 * k,
        forall|z: int|
            0 <= z < k ==> u16_at(coef_table(coefs, k), 4 * z) == Some(
                bits16(#[trigger] coefs[z][0] as int),
            ) && u16_at(coef_table(coefs, k), 4 * z + 2) == Some(bits16(coefs[z][1] as int)),
    decreases k,
{
    broadcast use crate::le_bytes::group_le_len;

    if k > 0 {
        let j = k - 1;
        lemma_coef_table_reads(coefs, j as nat);
        let prev = coef_table(coefs, j as nat);
        let a = le16(bits16(coefs[j][0] as int));
        let b = le16(bits16(coefs[j][1] as int));
        let cur = coef_table(coefs, k);
        assert(cur == prev + a + b);
        assert forall|z: int| 0 <= z < k implies u16_at(cur, 4 * z) == Some(
            bits16(#[trigger] coefs[z][0] as int),
        ) && u16_at(cur, 4 * z + 2) == Some(bits16(coefs[z][1] as int)) by {
            if z < j {
                assert(cur =~= prev + (a + b));
                lemma_u16_in_prefix(prev, a + b, 4 * z);
                lemma_u16_in_prefix(prev, a + b, 4 * z + 2);
            } else {
                lemma_u16_field(prev, bits16(coefs[j][0] as int), b);
                assert(cur =~= (prev + a) + b + Seq::<u8>::empty());
                lemma_u16_field(prev + a, bits16(coefs[j][1] as int), Seq::<u8>::empty());
            }
        }
    }
}

/// The channel info in the file: the eight predictor pairs from 0xAC, four bytes each (two
/// 16-bit little-endian fields); at 0xCC the predictor/scale byte of the first frame (zero
/// for an empty stream); then zero history, zero loop context and padding up to 0xE0.
#[verifier::spinoff_prover]
#[verifier::rlimit(40)]
pub proof fn lemma_bfstm_channel_info(samples: Seq<i16>, sample_rate: int, coefs: Coefs)
    requires
        coefs_bounded(coefs),
    ensures
        ({
            let f = bfstm_file(samples, sample_rate, coefs);
            let frames = stream_frames(samples, coefs);
            &&& forall|z: int|
                0 <= z < 8 ==> u16_at(f, #[trigger] coef_pair_at(z)) == Some(
                    bits16(coefs[z][0] as int),
                ) && u16_at(f, coef_pair_at(z) + 2) == Some(bits16(coefs[z][1] as int))
            &&& u16_at(f, 0xCCint) == Some(first_pred_scale(frames))
            &&& f.subrange(0xCE, 0xE0) == zeros(18)
        }),
{
    broadcast use crate::le_bytes::group_le_len;

    reveal(bfstm_file);
    reveal(file_info);
    reveal(channel_info);
    let n = sample_count_of(samples);
    let frames = stream_frames(samples, coefs);
    lemma_file_sizes(samples, sample_rate, coefs);
    let ss = seek_size_for(n);
    let h = file_header(ss, data_size_for(frames.len() as int));
    lemma_header_start(ss, data_size_for(frames.len() as int));
    let si = stream_info(
        n,
        sample_rate,
        block_count_for(n),
        last_block_samples(n),
        last_block_raw(n),
        last_block_padded(n),
    );
    assert(si.len() == 56) by {
        reveal(stream_info);
    }
    let a = h + tag_info() + le32(INFO_SIZE as int) + info_refs() + si + le32(1) + block_ref(
        RT_CHANNEL_INFO as int,
        12,
    ) + block_ref(RT_GC_ADPCM_INFO as int, 8);
    assert(a.len() == 0xAC);
    let ct = coef_table(coefs, 8);
    lemma_coef_table_reads(coefs, 8);
    let ps = first_pred_scale(frames);
    let tailz = le16(0) + le16(0) + le16(0) + le16(0) + le16(0) + le16(0) + zeros(6);
    let sd = seek_section(samples, coefs) + data_section(frames);
    let rest = tailz + sd;
    let f = bfstm_file(samples, sample_rate, coefs);
    assert(f =~= a + (ct + (le16(bits16(ps)) + rest)));
    assert forall|z: int| 0 <= z < 8 implies u16_at(f, #[trigger] coef_pair_at(z)) == Some(
        bits16(coefs[z][0] as int),
    ) && u16_at(f, coef_pair_at(z) + 2) == Some(bits16(coefs[z][1] as int)) by {
        lemma_shift_u16(a, ct + (le16(bits16(ps)) + rest), 4 * z);
        lemma_shift_u16(a, ct + (le16(bits16(ps)) + rest), 4 * z + 2);
        lemma_u16_in_prefix(ct, le16(bits16(ps)) + rest, 4 * z);
        lemma_u16_in_prefix(ct, le16(bits16(ps)) + rest, 4 * z + 2);
    }
    assert(f =~= (a + ct) + le16(bits16(ps)) + rest);
    lemma_u16_field(a + ct, bits16(ps), rest);
    let front = a + ct + le16(bits16(ps));
    assert(f =~= front + rest);
    assert(front.len() == 0xCE);
    lemma_shift_subrange(front, rest, 0, 18);
    assert(rest.subrange(0, 18) =~= zeros(18)) by {
        reveal(le16);
    }
}

/// Reads inside `x` are the same in `a + x + c`, moved by `a.len()`.
proof fn lemma_reads_inside(a: Seq<u8>, x: Seq<u8>, c: Seq<u8>, off: int)
    requires
        0 <= off,
        off + 2 <= x.len(),
    ensures
        u16_at(a + x + c, a.len() + off) == u16_at(x, off),
        off + 4 <= x.len() ==> u32_at(a + x + c, a.len() + off) == u32_at(x, off),
        (a + x + c)[a.len() + off] == x[off],
{
    lemma_u16_in_prefix(a + x, c, a.len() + off);
    lemma_shift_u16(a, x, off);
    if off + 4 <= x.len() {
        lemma_u32_in_prefix(a + x, c, a.len() + off);
        lemma_shift_u32(a, x, off);
    }
}

/// The bytes of the INFO reference table.
proof fn lemma_info_refs_bytes()
    ensures
        info_refs() == seq![
            0x00u8, 0x41, 0, 0, 24, 0, 0, 0,
            0, 0, 0, 0, 0xFF, 0xFF, 0xFF, 0xFF,
            0x01, 0x01, 0, 0, 80, 0, 0, 0,
        ],
{
    reveal(le16);
    reveal(le32);
    assert(info_refs() =~= seq![
        0x00u8, 0x41, 0, 0, 24, 0, 0, 0,
        0, 0, 0, 0, 0xFF, 0xFF, 0xFF, 0xFF,
        0x01, 0x01, 0, 0, 80, 0, 0, 0,
    ]);
}

/// The bytes of the channel table before the DSP-ADPCM info: one channel and its references.
proof fn lemma_channel_refs_bytes()
    ensures
        le32(1) + block_ref(RT_CHANNEL_INFO as int, 12) + block_ref(RT_GC_ADPCM_INFO as int, 8)
            == seq![
            1u8, 0, 0, 0, 0x02, 0x41, 0, 0,
            12, 0, 0, 0, 0x00, 0x03, 0, 0,
            8, 0, 0, 0,
        ],
{
    reveal(le16);
    reveal(le32);
    assert(le32(1) + block_ref(RT_CHANNEL_INFO as int, 12) + block_ref(RT_GC_ADPCM_INFO as int, 8)
        =~= seq![
        1u8, 0, 0, 0, 0x02, 0x41, 0, 0,
        12, 0, 0, 0, 0x00, 0x03, 0, 0,
        8, 0, 0, 0,
    ]);
}

/// Where the INFO reference table and the channel table's references sit in the file.
proof fn lemma_info_tables_in_file(samples: Seq<i16>, sample_rate: int, coefs: Coefs)
    requires
        coefs_bounded(coefs),
    ensures
        ({
            let f = bfstm_file(samples, sample_rate, coefs);
            &&& f.len() > 0xAC
            &&& f.subrange(0x48, 0x60) == info_refs()
            &&& f[0x60] == 2u8
            &&& f.subrange(0x98, 0xAC) == le32(1) + block_ref(RT_CHANNEL_INFO as int, 12)
                + block_ref(RT_GC_ADPCM_INFO as int, 8)
        }),
{
    broadcast use crate::le_bytes::group_le_len;

    reveal(bfstm_file);
    reveal(file_info);
    reveal(channel_info);
    let n = sample_count_of(samples);
    let frames = stream_frames(samples, coefs);
    lemma_file_sizes(samples, sample_rate, coefs);
    let ss = seek_size_for(n);
    let h = file_header(ss, data_size_for(frames.len() as int));
    lemma_header_start(ss, data_size_for(frames.len() as int));
    let si = stream_info(
        n,
        sample_rate,
        block_count_for(n),
        last_block_samples(n),
        last_block_raw(n),
        last_block_padded(n),
    );
    assert(si.len() == 56 && si[0] == 2u8) by {
        reveal(stream_info);
    }
    let cr = le32(1) + block_ref(RT_CHANNEL_INFO as int, 12) + block_ref(
        RT_GC_ADPCM_INFO as int,
        8,
    );
    assert(cr.len() == 20);
    let ai = adpcm_info(coefs, first_pred_scale(frames));
    let sd = seek_section(samples, coefs) + data_section(frames);
    let f = bfstm_file(samples, sample_rate, coefs);
    let refs = info_refs();
    let a0 = h + tag_info() + le32(INFO_SIZE as int);
    assert(a0.len() == 0x48);
    let a2 = a0 + refs + si;
    assert(f =~= a0 + refs + (si + cr + ai + zeros(6) + sd));
    lemma_shift_subrange(a0, refs + (si + cr + ai + zeros(6) + sd), 0, 24);
    assert((refs + (si + cr + ai + zeros(6) + sd)).subrange(0, 24) =~= refs);
    assert(f[0x60] == 2u8) by {
        assert(f =~= (a0 + refs) + si + (cr + ai + zeros(6) + sd));
        lemma_reads_inside(a0 + refs, si, cr + ai + zeros(6) + sd, 0);
    }
    assert(f =~= a2 + (cr + (ai + zeros(6) + sd)));
    lemma_shift_subrange(a2, cr + (ai + zeros(6) + sd), 0, 20);
    assert((cr + (ai + zeros(6) + sd)).subrange(0, 20) =~= cr);
}

/// The references of the INFO section lead to its blocks. The reference table at 0x48
/// points, relative to 0x48, at the stream-info block at 0x60 (which starts with the codec
/// byte 2), has a null track-info entry, and points at the channel-info table at 0x98, which
/// records one channel. That channel's reference, relative to 0x98, leads to 0xA4, whose
/// reference, relative to 0xA4, leads to the DSP-ADPCM info (the predictor table) at 0xAC.
pub proof fn lemma_bfstm_info_references(samples: Seq<i16>, sample_rate: int, coefs: Coefs)
    requires
        coefs_bounded(coefs),
    ensures
        ({
            let f = bfstm_file(samples, sample_rate, coefs);
            &&& u16_at(f, 0x48) == Some(0x4100int)
            &&& u32_at(f, 0x4C) == Some(0x60 - 0x48)
            &&& f[0x60] == 2u8
            &&& u32_at(f, 0x50) == Some(0int)
            &&& u32_at(f, 0x54) == Some(0xFFFF_FFFFint)
            &&& u16_at(f, 0x58) == Some(0x0101int)
            &&& u32_at(f, 0x5C) == Some(0x98 - 0x48)
            &&& u32_at(f, 0x98) == Some(1int)
            &&& u16_at(f, 0x9C) == Some(0x4102int)
            &&& u32_at(f, 0xA0) == Some(0xA4 - 0x98)
            &&& u16_at(f, 0xA4) == Some(0x0300int)
            &&& u32_at(f, 0xA8) == Some(0xAC - 0xA4)
        }),
{
    let f = bfstm_file(samples, sample_rate, coefs);
    lemma_info_tables_in_file(samples, sample_rate, coefs);
    lemma_info_refs_bytes();
    lemma_channel_refs_bytes();
    let r = f.subrange(0x48, 0x60);
    let c = f.subrange(0x98, 0xAC);
    assert forall|k: int| 0 <= k < 24 implies f[0x48 + k] == r[k] by {}
    assert forall|k: int| 0 <= k < 20 implies f[0x98 + k] == c[k] by {}
    assert(f[0x48int + 0] == r[0] && f[0x48int + 1] == r[1]);
    assert(f[0x48int + 4] == r[4] && f[0x48int + 5] == r[5] && f[0x48int + 6] == r[6]
        && f[0x48int + 7] == r[7]);
    assert(f[0x48int + 8] == r[8] && f[0x48int + 9] == r[9] && f[0x48int + 10] == r[10]
        && f[0x48int + 11] == r[11]);
    assert(f[0x48int + 12] == r[12] && f[0x48int + 13] == r[13] && f[0x48int + 14] == r[14]
        && f[0x48int + 15] == r[15]);
    assert(f[0x48int + 16] == r[16] && f[0x48int + 17] == r[17]);
    assert(f[0x48int + 20] == r[20] && f[0x48int + 21] == r[21] && f[0x48int + 22] == r[22]
        && f[0x48int + 23] == r[23]);
    assert(f[0x98int + 0] == c[0] && f[0x98int + 1] == c[1] && f[0x98int + 2] == c[2]
        && f[0x98int + 3] == c[3]);
    assert(f[0x98int + 4] == c[4] && f[0x98int + 5] == c[5]);
    assert(f[0x98int + 8] == c[8] && f[0x98int + 9] == c[9] && f[0x98int + 10] == c[10]
        && f[0x98int + 11] == c[11]);
    assert(f[0x98int + 12] == c[12] && f[0x98int + 13] == c[13]);
    assert(f[0x98int + 16] == c[16] && f[0x98int + 17] == c[17] && f[0x98int + 18] == c[18]
        && f[0x98int + 19] == c[19]);
}
/// The last-block fields of the stream info agree with each other and with the sample
/// count `n`. For a non-empty stream the last block holds `1..=0x3800` samples and the
/// blocks before it are full (`n == 0x3800 * (blocks - 1) + last`); an empty stream has no
/// block and no last samples. The last block's size is 8 bytes per started frame of 14
/// samples, and its padded size is the least multiple of 0x20 that is at least that size,
/// never more than the block size 0x2000.
pub proof fn lemma_bfstm_last_block(samples: Seq<i16>, sample_rate: int, coefs: Coefs)
    requires
        coefs_bounded(coefs),
        0 <= sample_rate <= u32::MAX,
    ensures
        ({
            let f = bfstm_file(samples, sample_rate, coefs);
            let n = sample_count_of(samples);
            let blocks = u32_at(f, 0x70).unwrap();
            let raw = u32_at(f, 0x7C).unwrap();
            let last = u32_at(f, 0x80).unwrap();
            let padded_size = u32_at(f, 0x84).unwrap();
            &&& u32_at(f, 0x70) is Some && u32_at(f, 0x7C) is Some
            &&& u32_at(f, 0x80) is Some && u32_at(f, 0x84) is Some
            &&& u32_at(f, 0x6C) == Some(n)
            &&& n == 0 ==> blocks == 0 && last == 0
            &&& n > 0 ==> 1 <= last <= 0x3800 && n == 0x3800 * (blocks - 1) + last
            &&& raw == 8 * ((last + 13) / 14)
            &&& padded_size % 0x20 == 0
            &&& raw <= padded_size < raw + 0x20
            &&& padded_size <= 0x2000
        }),
{
    lemma_bfstm_stream_info(samples, sample_rate, coefs);
    let n = sample_count_of(samples);
    let b = block_count_for(n);
    let l = last_block_samples(n);
    let r = last_block_raw(n);
    let p = last_block_padded(n);
    assert(0 <= n <= u32::MAX);
    lemma_round_up_bounds(r, 0x20);
    if n > 0 {
        assert(n == 0x3800 * (b - 1) + l && 1 <= l <= 0x3800) by (nonlinear_arith)
            requires
                n > 0,
                b == (n + 0x3800 - 1) / 0x3800,
                l == (if n % 0x3800 == 0 {
                    0x3800
                } else {
                    n % 0x3800
                }),
        ;
    }
    assert(r <= 0x2000);
}


/// Every seek entry after the first is taken from the stream itself: the predictor/scale
/// byte of the first frame of block `i` and the last reconstructed sample of block `i - 1`
/// (both always exist; neither falls back to zero).
pub proof fn lemma_seek_entries_from_stream(samples: Seq<i16>, coefs: Coefs, i: int)
    requires
        coefs_bounded(coefs),
        1 <= i < block_count_for(sample_count_of(samples)),
    ensures
        ({
            let frames = stream_frames(samples, coefs);
            &&& i * 8192 < frames.len()
            &&& i * 1024 <= frame_count(sample_count_of(samples))
            &&& seek_entry(samples, coefs, i) == (
                frames[i * 8192] as int,
                encode_stream(samples, coefs, (i * 1024) as nat).2,
            )
        }),
{
    reveal(stream_frames);
    let n = sample_count_of(samples);
    let fc = frame_count(n);
    lemma_stream_encodable(samples, coefs, fc as nat);
    assert(i * 1024 < fc) by (nonlinear_arith)
        requires
            1 <= i,
            i < (n + 0x3800 - 1) / 0x3800,
            fc == (n + 13) / 14,
            n >= 0,
    ;
}

} // verus!

verus! {

/// The counts recorded in the stream-info block, relative to its start.
proof fn lemma_stream_info_counts(
    n: int,
    rate: int,
    bc: int,
    last_count: int,
    last_raw: int,
    last_padded: int,
)
    requires
        0 <= n <= u32::MAX,
        0 <= rate <= u32::MAX,
        0 <= bc <= 299594,
    ensures
        stream_info(n, rate, bc, last_count, last_raw, last_padded).subrange(0, 4) == seq![
            ADPCM_CODEC,
            0u8,
            1u8,
            0u8,
        ],
        u32_at(stream_info(n, rate, bc, last_count, last_raw, last_padded), 4) == Some(rate),
        u32_at(stream_info(n, rate, bc, last_count, last_raw, last_padded), 8) == Some(0int),
        u32_at(stream_info(n, rate, bc, last_count, last_raw, last_padded), 12) == Some(n),
        u32_at(stream_info(n, rate, bc, last_count, last_raw, last_padded), 16) == Some(bc),
        u32_at(stream_info(n, rate, bc, last_count, last_raw, last_padded), 20) == Some(
            BLOCK_SIZE as int,
        ),
        u32_at(stream_info(n, rate, bc, last_count, last_raw, last_padded), 24) == Some(
            BLOCK_SAMPLE_COUNT as int,
        ),
{
    reveal(stream_info);
    let si = stream_info(n, rate, bc, last_count, last_raw, last_padded);
    let c = seq![ADPCM_CODEC, 0u8, 1u8, 0u8];
    let tail = le32(last_raw) + le32(last_count) + le32(last_padded) + le32(SEEK_ENTRY_SIZE * bc)
        + le32(SEEK_INTERVAL as int) + block_ref(RT_SAMPLE_DATA as int, 0x18);
    assert(si =~= c + le32(rate) + (le32(0) + le32(n) + le32(bc) + le32(BLOCK_SIZE as int) + le32(
        BLOCK_SAMPLE_COUNT as int,
    ) + tail));
    lemma_u32_field(c, rate, le32(0) + le32(n) + le32(bc) + le32(BLOCK_SIZE as int) + le32(
        BLOCK_SAMPLE_COUNT as int,
    ) + tail);
    let p1 = c + le32(rate);
    assert(si =~= p1 + le32(0) + (le32(n) + le32(bc) + le32(BLOCK_SIZE as int) + le32(
        BLOCK_SAMPLE_COUNT as int,
    ) + tail));
    lemma_u32_field(p1, 0, le32(n) + le32(bc) + le32(BLOCK_SIZE as int) + le32(
        BLOCK_SAMPLE_COUNT as int,
    ) + tail);
    let p2 = p1 + le32(0);
    assert(si =~= p2 + le32(n) + (le32(bc) + le32(BLOCK_SIZE as int) + le32(
        BLOCK_SAMPLE_COUNT as int,
    ) + tail));
    lemma_u32_field(p2, n, le32(bc) + le32(BLOCK_SIZE as int) + le32(BLOCK_SAMPLE_COUNT as int)
        + tail);
    let p3 = p2 + le32(n);
    assert(si =~= p3 + le32(bc) + (le32(BLOCK_SIZE as int) + le32(BLOCK_SAMPLE_COUNT as int)
        + tail));
    lemma_u32_field(p3, bc, le32(BLOCK_SIZE as int) + le32(BLOCK_SAMPLE_COUNT as int) + tail);
    let p4 = p3 + le32(bc);
    assert(si =~= p4 + le32(BLOCK_SIZE as int) + (le32(BLOCK_SAMPLE_COUNT as int) + tail));
    lemma_u32_field(p4, BLOCK_SIZE as int, le32(BLOCK_SAMPLE_COUNT as int) + tail);
    let p5 = p4 + le32(BLOCK_SIZE as int);
    assert(si =~= p5 + le32(BLOCK_SAMPLE_COUNT as int) + tail);
    lemma_u32_field(p5, BLOCK_SAMPLE_COUNT as int, tail);
    assert(si.subrange(0, 4) =~= c);
}

/// The last-block fields, the seek size and the seek interval of the stream-info block,
/// relative to its start.
proof fn lemma_stream_info_tail(
    n: int,
    rate: int,
    bc: int,
    last_count: int,
    last_raw: int,
    last_padded: int,
)
    requires
        0 <= bc <= 299594,
        0 <= last_count <= u32::MAX,
        0 <= last_raw <= u32::MAX,
        0 <= last_padded <= u32::MAX,
    ensures
        u32_at(stream_info(n, rate, bc, last_count, last_raw, last_padded), 28) == Some(last_raw),
        u32_at(stream_info(n, rate, bc, last_count, last_raw, last_padded), 32) == Some(
            last_count,
        ),
        u32_at(stream_info(n, rate, bc, last_count, last_raw, last_padded), 36) == Some(
            last_padded,
        ),
        u32_at(stream_info(n, rate, bc, last_count, last_raw, last_padded), 40) == Some(4 * bc),
        u32_at(stream_info(n, rate, bc, last_count, last_raw, last_padded), 44) == Some(
            SEEK_INTERVAL as int,
        ),
{
    reveal(stream_info);
    let si = stream_info(n, rate, bc, last_count, last_raw, last_padded);
    let head = seq![ADPCM_CODEC, 0u8, 1u8, 0u8] + le32(rate) + le32(0) + le32(n) + le32(bc) + le32(
        BLOCK_SIZE as int,
    ) + le32(BLOCK_SAMPLE_COUNT as int);
    let r = block_ref(RT_SAMPLE_DATA as int, 0x18);
    let sk = SEEK_ENTRY_SIZE * bc;
    let iv = SEEK_INTERVAL as int;
    assert(si =~= head + le32(last_raw) + (le32(last_count) + le32(last_padded) + le32(sk) + le32(iv)
        + r));
    lemma_u32_field(head, last_raw, le32(last_count) + le32(last_padded) + le32(sk) + le32(iv) + r);
    let q1 = head + le32(last_raw);
    assert(si =~= q1 + le32(last_count) + (le32(last_padded) + le32(sk) + le32(iv) + r));
    lemma_u32_field(q1, last_count, le32(last_padded) + le32(sk) + le32(iv) + r);
    let q2 = q1 + le32(last_count);
    assert(si =~= q2 + le32(last_padded) + (le32(sk) + le32(iv) + r));
    lemma_u32_field(q2, last_padded, le32(sk) + le32(iv) + r);
    let q3 = q2 + le32(last_padded);
    assert(si =~= q3 + le32(sk) + (le32(iv) + r));
    lemma_u32_field(q3, sk, le32(iv) + r);
    let q4 = q3 + le32(sk);
    assert(si =~= q4 + le32(iv) + r);
    lemma_u32_field(q4, iv, r);
}

/// The stream-info block at 0x60 records: codec 2, no loop, one channel, no regions; the
/// sample rate; loop start 0; the sample count; the block count `ceil(n / 0x3800)` (zero
/// for an empty stream); block size 0x2000 and 0x3800 samples per block; the last block's
/// size in bytes, its sample count and its padded size; the seek size, 4 bytes per block;
/// and 0x3800 samples per seek entry.
pub proof fn lemma_bfstm_stream_info(samples: Seq<i16>, sample_rate: int, coefs: Coefs)
    requires
        coefs_bounded(coefs),
        0 <= sample_rate <= u32::MAX,
    ensures
        ({
            let f = bfstm_file(samples, sample_rate, coefs);
            let n = sample_count_of(samples);
            let bc = (n + 0x3800 - 1) / 0x3800;
            &&& f.subrange(0x60, 0x64) == seq![2u8, 0u8, 1u8, 0u8]
            &&& u32_at(f, 0x64) == Some(sample_rate)
            &&& u32_at(f, 0x68) == Some(0int)
            &&& u32_at(f, 0x6C) == Some(n)
            &&& u32_at(f, 0x70) == Some(bc)
            &&& u32_at(f, 0x74) == Some(0x2000int)
            &&& u32_at(f, 0x78) == Some(0x3800int)
            &&& u32_at(f, 0x7C) == Some(last_block_raw(n))
            &&& u32_at(f, 0x80) == Some(last_block_samples(n))
            &&& u32_at(f, 0x84) == Some(last_block_padded(n))
            &&& u32_at(f, 0x88) == Some(4 * bc)
            &&& u32_at(f, 0x8C) == Some(0x3800int)
        }),
{
    reveal(bfstm_file);
    reveal(file_info);
    let n = sample_count_of(samples);
    let frames = stream_frames(samples, coefs);
    lemma_file_sizes(samples, sample_rate, coefs);
    let bc = block_count_for(n);
    let lc = last_block_samples(n);
    let lr = last_block_raw(n);
    let lp = last_block_padded(n);
    lemma_round_up_bounds(lr, 0x20);
    let h = file_header(seek_size_for(n), data_size_for(frames.len() as int));
    let si = stream_info(n, sample_rate, bc, lc, lr, lp);
    let a = h + tag_info() + le32(INFO_SIZE as int) + info_refs();
    let r = channel_info(coefs, first_pred_scale(frames)) + zeros(6) + seek_section(samples, coefs)
        + data_section(frames);
    let f = bfstm_file(samples, sample_rate, coefs);
    assert(a.len() == 0x60);
    assert(f =~= a + (si + r));
    lemma_stream_info_counts(n, sample_rate, bc, lc, lr, lp);
    lemma_stream_info_tail(n, sample_rate, bc, lc, lr, lp);
    reveal(stream_info);
    assert(si.len() == 56);
    assert forall|off: int| 0 <= off <= 44 implies u32_at(f, 0x60 + off) == u32_at(si, off) by {
        lemma_shift_u32(a, si + r, off);
        lemma_u32_in_prefix(si, r, off);
    }
    assert(u32_at(f, 0x60int + 4) == u32_at(si, 4));
    assert(u32_at(f, 0x60int + 8) == u32_at(si, 8));
    assert(u32_at(f, 0x60int + 12) == u32_at(si, 12));
    assert(u32_at(f, 0x60int + 16) == u32_at(si, 16));
    assert(u32_at(f, 0x60int + 20) == u32_at(si, 20));
    assert(u32_at(f, 0x60int + 24) == u32_at(si, 24));
    assert(u32_at(f, 0x60int + 28) == u32_at(si, 28));
    assert(u32_at(f, 0x60int + 32) == u32_at(si, 32));
    assert(u32_at(f, 0x60int + 36) == u32_at(si, 36));
    assert(u32_at(f, 0x60int + 40) == u32_at(si, 40));
    assert(u32_at(f, 0x60int + 44) == u32_at(si, 44));
    lemma_shift_subrange(a, si + r, 0, 4);
    assert((si + r).subrange(0, 4) =~= si.subrange(0, 4));
}

} // verus!
