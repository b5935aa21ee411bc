//! Reading mono 16-bit PCM input: raw little-endian sample bytes and minimal RIFF/WAVE files.
use vstd::prelude::*;

use crate::le_bytes::{le16, le32, lemma_u16_field, lemma_u32_field, u16_at, u32_at};

verus! {

/// Why a WAV file was refused.
#[derive(Clone, Copy, Debug, PartialEq, Eq, Structural)]
pub enum WavError {
    /// Shorter than the 12-byte RIFF header.
    NotWav,
    /// Does not start with `RIFF`.
    NotRiff,
    /// The RIFF form is not `WAVE`.
    NotWave,
    /// A field or the data chunk runs past the end of the file.
    Truncated,
    /// The `fmt ` chunk is shorter than 16 bytes.
    FmtTooSmall,
    /// The format tag is not 1 (integer PCM).
    NotPcm,
    /// More than one channel.
    NotMono,
    /// Not 16 bits per sample.
    Not16Bit,
    /// A `data` chunk before any `fmt ` chunk.
    DataBeforeFmt,
    /// No `data` chunk.
    MissingData,
}

impl WavError {
    /// The message the error is reported with.
    pub fn message(&self) -> (msg: &'static str)
        ensures
            msg@ == match self {
                WavError::NotWav => "Not a valid WAV file"@,
                WavError::NotRiff => "Not a valid RIFF file"@,
                WavError::NotWave => "Not a valid WAVE file"@,
                WavError::Truncated => "WAV data truncated"@,
                WavError::FmtTooSmall => "fmt chunk too small"@,
                WavError::NotPcm => "Only PCM (format=1) WAV files are supported"@,
                WavError::NotMono => "Only mono WAV files are supported"@,
                WavError::Not16Bit => "Only 16-bit WAV files are supported"@,
                WavError::DataBeforeFmt => "WAV data chunk before fmt chunk"@,
                WavError::MissingData => "WAV file missing data chunk"@,
            },
    {
        match self {
            WavError::NotWav => "Not a valid WAV file",
            WavError::NotRiff => "Not a valid RIFF file",
            WavError::NotWave => "Not a valid WAVE file",
            WavError::Truncated => "WAV data truncated",
            WavError::FmtTooSmall => "fmt chunk too small",
            WavError::NotPcm => "Only PCM (format=1) WAV files are supported",
            WavError::NotMono => "Only mono WAV files are supported",
            WavError::Not16Bit => "Only 16-bit WAV files are supported",
            WavError::DataBeforeFmt => "WAV data chunk before fmt chunk",
            WavError::MissingData => "WAV file missing data chunk",
        }
    }
}

// ── Model ───────────────────────────────────────────────────────────────────

/// The signed 16-bit value of two little-endian bytes.
pub open spec fn sample_of(lo: u8, hi: u8) -> int {
    let u = lo as int + 256 * hi as int;
    if u >= 32768 {
        u - 65536
    } else {
        u
    }
}

/// The samples of consecutive little-endian byte pairs; a trailing odd byte is ignored.
pub open spec fn le_samples(bytes: Seq<u8>) -> Seq<int> {
    Seq::new(bytes.len() / 2, |i: int| sample_of(bytes[2 * i], bytes[2 * i + 1]))
}

pub open spec fn has_tag(d: Seq<u8>, off: int, a: u8, b: u8, c: u8, e: u8) -> bool {
    d[off] == a && d[off + 1] == b && d[off + 2] == c && d[off + 3] == e
}

pub open spec fn is_fmt_tag(d: Seq<u8>, off: int) -> bool {
    has_tag(d, off, 0x66, 0x6D, 0x74, 0x20)
}

pub open spec fn is_data_tag(d: Seq<u8>, off: int) -> bool {
    has_tag(d, off, 0x64, 0x61, 0x74, 0x61)
}

/// What the `fmt ` chunk whose body starts at `body` says: the sample rate, or why the
/// file is refused.
pub open spec fn fmt_result(d: Seq<u8>, body: int, size: int) -> Result<int, WavError> {
    if size < 16 {
        Err(WavError::FmtTooSmall)
    } else if u16_at(d, body) is None {
        Err(WavError::Truncated)
    } else if u16_at(d, body).unwrap() != 1 {
        Err(WavError::NotPcm)
    } else if u16_at(d, body + 2) is None {
        Err(WavError::Truncated)
    } else if u16_at(d, body + 2).unwrap() != 1 {
        Err(WavError::NotMono)
    } else if u32_at(d, body + 4) is None {
        Err(WavError::Truncated)
    } else if u16_at(d, body + 14) is None {
        Err(WavError::Truncated)
    } else if u16_at(d, body + 14).unwrap() != 16 {
        Err(WavError::Not16Bit)
    } else {
        Ok(u32_at(d, body + 4).unwrap())
    }
}

/// Walking the chunks from `pos`, with the sample rate and whether a `fmt ` chunk was
/// accepted so far: the sample rate and the byte range of the `data` chunk, or the error.
pub open spec fn walk_chunks(d: Seq<u8>, pos: int, rate: int, fmt_ok: bool) -> Result<
    (int, int, int),
    WavError,
>
    decreases (if pos <= d.len() {
        d.len() - pos
    } else {
        0
    }),
{
    if pos < 0 || pos + 8 > d.len() {
        Err(WavError::MissingData)
    } else {
        let size = u32_at(d, pos + 4).unwrap();
        let body = pos + 8;
        let next = body + size + (if size % 2 != 0 {
            1int
        } else {
            0
        });
        if is_fmt_tag(d, pos) {
            match fmt_result(d, body, size) {
                Err(e) => Err(e),
                Ok(r) => walk_chunks(d, next, r, true),
            }
        } else if is_data_tag(d, pos) {
            if !fmt_ok {
                Err(WavError::DataBeforeFmt)
            } else if body + size > d.len() {
                Err(WavError::Truncated)
            } else {
                Ok((rate, body, body + size))
            }
        } else {
            walk_chunks(d, next, rate, fmt_ok)
        }
    }
}

/// A minimal WAV reading: the sample rate and the byte range of the PCM data.
pub open spec fn wav_layout(d: Seq<u8>) -> Result<(int, int, int), WavError> {
    if d.len() < 12 {
        Err(WavError::NotWav)
    } else if !has_tag(d, 0, 0x52, 0x49, 0x46, 0x46) {
        Err(WavError::NotRiff)
    } else if !has_tag(d, 8, 0x57, 0x41, 0x56, 0x45) {
        Err(WavError::NotWave)
    } else {
        walk_chunks(d, 12, 0, false)
    }
}

// ── Chunks the reading passes over ──────────────────────────────────────────

/// Whether the chunk walk from `pos` with state (`rate`, `fmt_ok`) passes over whole chunks
/// (no `data` chunk, every `fmt ` chunk accepted) and arrives at `b` with state (`rb`, `fb`).
pub open spec fn walk_reaches(
    d: Seq<u8>,
    pos: int,
    rate: int,
    fmt_ok: bool,
    b: int,
    rb: int,
    fb: bool,
) -> bool
    decreases (if pos <= b {
        b - pos
    } else {
        0
    }),
{
    if pos == b {
        rate == rb && fmt_ok == fb
    } else if pos > b || pos < 0 || pos + 8 > d.len() {
        false
    } else {
        let size = u32_at(d, pos + 4).unwrap();
        let next = pos + 8 + size + (if size % 2 != 0 {
            1int
        } else {
            0
        });
        if is_fmt_tag(d, pos) {
            match fmt_result(d, pos + 8, size) {
                Err(_) => false,
                Ok(r) => walk_reaches(d, next, r, true, b, rb, fb),
            }
        } else if is_data_tag(d, pos) {
            false
        } else {
            walk_reaches(d, next, rate, fmt_ok, b, rb, fb)
        }
    }
}

/// An offset inside `d` at which a chunk starts that the reading of `d` walks through before
/// it meets the `data` chunk (or the end).
pub open spec fn is_chunk_boundary(d: Seq<u8>, b: int) -> bool {
    b <= d.len() && exists|rb: int, fb: bool| #[trigger] walk_reaches(d, 12, 0, false, b, rb, fb)
}

/// The bytes of a chunk: its tag, the body's length as 32 bits little-endian, the body, and
/// one pad byte after a body of odd length.
pub open spec fn chunk_bytes(tag: Seq<u8>, body: Seq<u8>, pad: u8) -> Seq<u8> {
    tag + le32(body.len() as int) + body + (if body.len() % 2 != 0 {
        seq![pad]
    } else {
        Seq::<u8>::empty()
    })
}

/// `d` with the bytes `c` inserted at offset `b`.
pub open spec fn insert_at(d: Seq<u8>, b: int, c: Seq<u8>) -> Seq<u8> {
    d.subrange(0, b) + c + d.subrange(b, d.len() as int)
}

/// A reading result with its byte range moved `k` bytes later.
pub open spec fn shift_layout(res: Result<(int, int, int), WavError>, k: int) -> Result<
    (int, int, int),
    WavError,
> {
    match res {
        Ok((rate, start, end)) => Ok((rate, start + k, end + k)),
        Err(e) => Err(e),
    }
}

/// A walk that passes over whole chunks to `b` ends as the walk from `b` does.
proof fn lemma_walk_through(d: Seq<u8>, pos: int, rate: int, fmt_ok: bool, b: int, rb: int, fb: bool)
    requires
        walk_reaches(d, pos, rate, fmt_ok, b, rb, fb),
    ensures
        pos <= b,
        walk_chunks(d, pos, rate, fmt_ok) == walk_chunks(d, b, rb, fb),
    decreases (if pos <= b {
        b - pos
    } else {
        0
    }),
{
    if pos != b {
        let size = u32_at(d, pos + 4).unwrap();
        let next = pos + 8 + size + (if size % 2 != 0 {
            1int
        } else {
            0
        });
        if is_fmt_tag(d, pos) {
            let r = fmt_result(d, pos + 8, size).unwrap();
            lemma_walk_through(d, next, r, true, b, rb, fb);
        } else {
            lemma_walk_through(d, next, rate, fmt_ok, b, rb, fb);
        }
    }
}

/// The walk up to `b` reads only bytes before `b`, so it is the same in any `d2` that
/// agrees with `d` there.
proof fn lemma_reaches_prefix(
    d: Seq<u8>,
    d2: Seq<u8>,
    pos: int,
    rate: int,
    fmt_ok: bool,
    b: int,
    rb: int,
    fb: bool,
)
    requires
        walk_reaches(d, pos, rate, fmt_ok, b, rb, fb),
        b <= d.len(),
        b <= d2.len(),
        forall|i: int| 0 <= i < b ==> d2[i] == d[i],
    ensures
        walk_reaches(d2, pos, rate, fmt_ok, b, rb, fb),
    decreases (if pos <= b {
        b - pos
    } else {
        0
    }),
{
    if pos != b {
        let size = u32_at(d, pos + 4).unwrap();
        let next = pos + 8 + size + (if size % 2 != 0 {
            1int
        } else {
            0
        });
        if is_fmt_tag(d, pos) {
            let r = fmt_result(d, pos + 8, size).unwrap();
            lemma_walk_through(d, next, r, true, b, rb, fb);
            assert(size >= 16);
            assert(u32_at(d2, pos + 4) == u32_at(d, pos + 4));
            assert(is_fmt_tag(d2, pos));
            assert(fmt_result(d2, pos + 8, size) == fmt_result(d, pos + 8, size));
            lemma_reaches_prefix(d, d2, next, r, true, b, rb, fb);
        } else {
            lemma_walk_through(d, next, rate, fmt_ok, b, rb, fb);
            assert(u32_at(d2, pos + 4) == u32_at(d, pos + 4));
            assert(!is_fmt_tag(d2, pos) && !is_data_tag(d2, pos));
            lemma_reaches_prefix(d, d2, next, rate, fmt_ok, b, rb, fb);
        }
    }
}

/// Reading `q + s` from `q.len() + x` is reading `s` from `x`, with offsets moved by `q.len()`.
proof fn lemma_walk_suffix(q: Seq<u8>, s: Seq<u8>, x: int, rate: int, fmt_ok: bool)
    requires
        0 <= x,
    ensures
        walk_chunks(q + s, q.len() + x, rate, fmt_ok) == shift_layout(
            walk_chunks(s, x, rate, fmt_ok),
            q.len() as int,
        ),
    decreases (if x <= s.len() {
        s.len() - x
    } else {
        0
    }),
{
    let d = q + s;
    let k = q.len() as int;
    if x + 8 <= s.len() {
        let size = u32_at(s, x + 4).unwrap();
        let next = x + 8 + size + (if size % 2 != 0 {
            1int
        } else {
            0
        });
        assert(u32_at(d, k + x + 4) == u32_at(s, x + 4));
        assert(is_fmt_tag(d, k + x) == is_fmt_tag(s, x));
        assert(is_data_tag(d, k + x) == is_data_tag(s, x));
        let body = x + 8;
        assert(u16_at(d, k + body) == u16_at(s, body));
        assert(u16_at(d, k + body + 2) == u16_at(s, body + 2));
        assert(u32_at(d, k + body + 4) == u32_at(s, body + 4));
        assert(u16_at(d, k + body + 14) == u16_at(s, body + 14));
        assert(fmt_result(d, k + body, size) == fmt_result(s, body, size));
        if is_fmt_tag(s, x) {
            if let Ok(r) = fmt_result(s, body, size) {
                lemma_walk_suffix(q, s, next, r, true);
            }
        } else if !is_data_tag(s, x) {
            lemma_walk_suffix(q, s, next, rate, fmt_ok);
        }
    }
}

/// A successful walk from `pos >= 0` finds its data inside `d`.
proof fn lemma_walk_range(d: Seq<u8>, pos: int, rate: int, fmt_ok: bool)
    ensures
        walk_chunks(d, pos, rate, fmt_ok) matches Ok((_, start, end)) ==> 0 <= start <= end
            <= d.len(),
    decreases (if pos <= d.len() {
        d.len() - pos
    } else {
        0
    }),
{
    if 0 <= pos && pos + 8 <= d.len() {
        let size = u32_at(d, pos + 4).unwrap();
        let next = pos + 8 + size + (if size % 2 != 0 {
            1int
        } else {
            0
        });
        if is_fmt_tag(d, pos) {
            if let Ok(r) = fmt_result(d, pos + 8, size) {
                lemma_walk_range(d, next, r, true);
            }
        } else if !is_data_tag(d, pos) {
            lemma_walk_range(d, next, rate, fmt_ok);
        }
    }
}

/// The walk passes over a chunk whose tag is neither `fmt ` nor `data`.
proof fn lemma_skip_inserted(
    p: Seq<u8>,
    tag: Seq<u8>,
    body: Seq<u8>,
    pad: u8,
    s: Seq<u8>,
    rate: int,
    fmt_ok: bool,
)
    requires
        tag.len() == 4,
        !is_fmt_tag(tag, 0),
        !is_data_tag(tag, 0),
        body.len() <= u32::MAX,
    ensures
        walk_chunks(p + chunk_bytes(tag, body, pad) + s, p.len() as int, rate, fmt_ok)
            == walk_chunks(
            p + chunk_bytes(tag, body, pad) + s,
            (p.len() + chunk_bytes(tag, body, pad).len()) as int,
            rate,
            fmt_ok,
        ),
{
    broadcast use crate::le_bytes::group_le_len;

    let n = body.len() as int;
    let padding = if n % 2 != 0 {
        seq![pad]
    } else {
        Seq::<u8>::empty()
    };
    let c = chunk_bytes(tag, body, pad);
    let d = p + c + s;
    let b = p.len() as int;
    assert(c.len() == 8 + n + (if n % 2 != 0 {
        1int
    } else {
        0
    }));
    let rest = body + padding + s;
    assert(d =~= (p + tag) + le32(n) + rest);
    lemma_u32_field(p + tag, n, rest);
    assert forall|j: int| 0 <= j < 4 implies d[b + j] == tag[j] by {
        assert(d[b + j] == (p + tag)[b + j]);
    }
    assert(!is_fmt_tag(d, b));
    assert(!is_data_tag(d, b));
}

/// Unknown chunks are skipped. Inserting, at a chunk boundary that the reading passes
/// before the `data` chunk, a chunk whose tag is neither `fmt ` nor `data` leaves the
/// reading unchanged: the same error, or the same sample rate and the same PCM bytes (found
/// as many bytes later as were inserted).
#[verifier::rlimit(60)]
pub proof fn lemma_unknown_chunk_skipped(d: Seq<u8>, b: int, tag: Seq<u8>, body: Seq<u8>, pad: u8)
    requires
        d.len() >= 12,
        is_chunk_boundary(d, b),
        tag.len() == 4,
        !is_fmt_tag(tag, 0),
        !is_data_tag(tag, 0),
        body.len() <= u32::MAX,
    ensures
        ({
            let c = chunk_bytes(tag, body, pad);
            let d2 = insert_at(d, b, c);
            match wav_layout(d) {
                Ok((rate, start, end)) => wav_layout(d2) == Ok::<(int, int, int), WavError>(
                    (rate, start + c.len(), end + c.len()),
                ) && d2.subrange(start + c.len(), end + c.len()) == d.subrange(start, end),
                Err(e) => wav_layout(d2) == Err::<(int, int, int), WavError>(e),
            }
        }),
{
    broadcast use crate::le_bytes::group_le_len;

    let (rb, fb) = choose|rb: int, fb: bool| walk_reaches(d, 12, 0, false, b, rb, fb);
    let c = chunk_bytes(tag, body, pad);
    let ins = c.len() as int;
    let d2 = insert_at(d, b, c);
    let p = d.subrange(0, b);
    let s = d.subrange(b, d.len() as int);
    let w = walk_chunks(s, 0, rb, fb);
    assert(12 <= b) by {
        lemma_walk_through(d, 12, 0, false, b, rb, fb);
    }
    assert(d == p + s) by {
        assert(d =~= p + s);
    }
    assert(d2 == p + c + s);

    // Before the insertion point nothing moved.
    assert(forall|i: int| 0 <= i < b ==> d2[i] == d[i]) by {
        assert forall|i: int| 0 <= i < b implies d2[i] == d[i] by {
            assert((p + c)[i] == p[i]);
        }
    }

    // The walk through `d` reaches `b`, then reads `s`.
    assert(walk_chunks(d, 12, 0, false) == shift_layout(w, b)) by {
        lemma_walk_through(d, 12, 0, false, b, rb, fb);
        lemma_walk_suffix(p, s, 0, rb, fb);
    }
    // The walk through `d2` reaches `b` the same way, passes over the inserted chunk, then
    // reads `s`.
    assert(walk_chunks(d2, 12, 0, false) == shift_layout(w, b + ins)) by {
        lemma_reaches_prefix(d, d2, 12, 0, false, b, rb, fb);
        lemma_walk_through(d2, 12, 0, false, b, rb, fb);
        lemma_skip_inserted(p, tag, body, pad, s, rb, fb);
        lemma_walk_suffix(p + c, s, 0, rb, fb);
    }
    assert(has_tag(d2, 0, 0x52, 0x49, 0x46, 0x46) == has_tag(d, 0, 0x52, 0x49, 0x46, 0x46));
    assert(has_tag(d2, 8, 0x57, 0x41, 0x56, 0x45) == has_tag(d, 8, 0x57, 0x41, 0x56, 0x45));
    assert(d2.len() == d.len() + ins);

    lemma_walk_range(s, 0, rb, fb);
    if let Ok((rate, start, end)) = w {
        assert(d2.subrange(b + ins + start, b + ins + end) =~= s.subrange(start, end));
        assert(d.subrange(b + start, b + end) =~= s.subrange(start, end));
    }
}

// ── What a reading accepts ──────────────────────────────────────────────────

/// At `q` stands a `fmt ` chunk of at least 16 bytes that says integer PCM (format 1), one
/// channel, sample rate `rate` and 16 bits per sample.
pub open spec fn pcm16_mono_fmt_at(d: Seq<u8>, q: int, rate: int) -> bool {
    &&& 0 <= q
    &&& q + 24 <= d.len()
    &&& d[q] == 0x66u8 && d[q + 1] == 0x6Du8 && d[q + 2] == 0x74u8 && d[q + 3] == 0x20u8
    &&& u32_at(d, q + 4).unwrap() >= 16
    &&& u16_at(d, q + 8) == Some(1int)
    &&& u16_at(d, q + 10) == Some(1int)
    &&& u32_at(d, q + 12) == Some(rate)
    &&& u16_at(d, q + 22) == Some(16int)
}

/// A walk that ends in success found a 16-bit mono PCM `fmt ` chunk before the data.
proof fn lemma_walk_accepts_pcm16(d: Seq<u8>, pos: int, rate: int, fmt_ok: bool)
    requires
        fmt_ok ==> exists|q: int| #[trigger] pcm16_mono_fmt_at(d, q, rate) && q + 24 <= pos,
    ensures
        walk_chunks(d, pos, rate, fmt_ok) matches Ok((r, start, end)) ==> exists|q: int|
            #[trigger] pcm16_mono_fmt_at(d, q, r) && q + 24 <= start,
    decreases (if pos <= d.len() {
        d.len() - pos
    } else {
        0
    }),
{
    if 0 <= pos && pos + 8 <= d.len() {
        let size = u32_at(d, pos + 4).unwrap();
        let next = pos + 8 + size + (if size % 2 != 0 {
            1int
        } else {
            0
        });
        if is_fmt_tag(d, pos) {
            if let Ok(r) = fmt_result(d, pos + 8, size) {
                assert(pcm16_mono_fmt_at(d, pos, r));
                lemma_walk_accepts_pcm16(d, next, r, true);
                assert(walk_chunks(d, pos, rate, fmt_ok) == walk_chunks(d, next, r, true));
            }
        } else if is_data_tag(d, pos) {
            if fmt_ok {
                let q = choose|q: int| #[trigger] pcm16_mono_fmt_at(d, q, rate) && q + 24 <= pos;
                assert(pcm16_mono_fmt_at(d, q, rate) && q + 24 <= pos + 8);
                assert(walk_chunks(d, pos, rate, fmt_ok) matches Ok((r, start, end)) ==> r == rate
                    && start == pos + 8);
            }
        } else {
            if fmt_ok {
                let q = choose|q: int| #[trigger] pcm16_mono_fmt_at(d, q, rate) && q + 24 <= pos;
                assert(pcm16_mono_fmt_at(d, q, rate) && q + 24 <= next);
            }
            lemma_walk_accepts_pcm16(d, next, rate, fmt_ok);
            assert(walk_chunks(d, pos, rate, fmt_ok) == walk_chunks(d, next, rate, fmt_ok));
        }
    }
}

/// Only 16-bit mono PCM is read: a file is accepted only if it holds, before its `data`
/// chunk, a `fmt ` chunk of at least 16 bytes saying format 1 (integer PCM), one channel
/// and 16 bits per sample, whose sample rate is the one returned.
pub proof fn lemma_accepts_only_pcm16_mono(d: Seq<u8>)
    ensures
        wav_layout(d) matches Ok((rate, start, end)) ==> exists|q: int|
            #[trigger] pcm16_mono_fmt_at(d, q, rate) && q + 24 <= start,
{
    lemma_walk_accepts_pcm16(d, 12, 0, false);
}

/// Everything but 16-bit mono integer PCM is refused. When the reading reaches a `fmt `
/// chunk (the first chunk, at 12, is always reached) whose 16 format bytes lie in the file:
/// a chunk shorter than 16 bytes is refused as too small; a format other than 1 as not
/// PCM; more or fewer than one channel as not mono; and any bits-per-sample value other
/// than 16 (8, 24, 32, ...) as not 16-bit.
pub proof fn lemma_unsupported_formats_refused(d: Seq<u8>, q: int)
    requires
        d.len() >= 12,
        has_tag(d, 0, 0x52, 0x49, 0x46, 0x46),
        has_tag(d, 8, 0x57, 0x41, 0x56, 0x45),
        is_chunk_boundary(d, q),
        q + 24 <= d.len(),
        d[q] == 0x66u8 && d[q + 1] == 0x6Du8 && d[q + 2] == 0x74u8 && d[q + 3] == 0x20u8,
    ensures
        u32_at(d, q + 4).unwrap() < 16 ==> wav_layout(d) == Err::<(int, int, int), WavError>(
            WavError::FmtTooSmall,
        ),
        u32_at(d, q + 4).unwrap() >= 16 && u16_at(d, q + 8) != Some(1int) ==> wav_layout(d)
            == Err::<(int, int, int), WavError>(WavError::NotPcm),
        u32_at(d, q + 4).unwrap() >= 16 && u16_at(d, q + 8) == Some(1int) && u16_at(d, q + 10)
            != Some(1int) ==> wav_layout(d) == Err::<(int, int, int), WavError>(
            WavError::NotMono,
        ),
        u32_at(d, q + 4).unwrap() >= 16 && u16_at(d, q + 8) == Some(1int) && u16_at(d, q + 10)
            == Some(1int) && u16_at(d, q + 22) != Some(16int) ==> wav_layout(d) == Err::<
            (int, int, int),
            WavError,
        >(WavError::Not16Bit),
{
    let (rb, fb) = choose|rb: int, fb: bool| walk_reaches(d, 12, 0, false, q, rb, fb);
    lemma_walk_through(d, 12, 0, false, q, rb, fb);
    assert(is_fmt_tag(d, q));
}

/// The first chunk, at 12, is where every reading starts.
pub proof fn lemma_first_chunk_is_boundary(d: Seq<u8>)
    requires
        d.len() >= 12,
    ensures
        is_chunk_boundary(d, 12),
{
    assert(walk_reaches(d, 12, 0, false, 12, 0, false));
}

// ── The plainest WAV file ───────────────────────────────────────────────────

/// A mono 16-bit PCM WAV file in its plainest form, as common writers produce it: the RIFF
/// header, a 16-byte `fmt ` chunk, then the `data` chunk holding `pcm`.
pub open spec fn plain_wav(rate: int, pcm: Seq<u8>) -> Seq<u8> {
    seq![0x52u8, 0x49, 0x46, 0x46] + le32(36 + pcm.len() as int) + seq![0x57u8, 0x41, 0x56, 0x45]
        + seq![0x66u8, 0x6D, 0x74, 0x20] + le32(16) + le16(1) + le16(1) + le32(rate) + le32(
        2 * rate,
    ) + le16(2) + le16(16) + seq![0x64u8, 0x61, 0x74, 0x61] + le32(pcm.len() as int) + pcm
}

/// The pieces of a plain WAV file before each of its fields.
spec fn plain_wav_prefix(rate: int, pcm: Seq<u8>, field: int) -> Seq<u8> {
    let n = pcm.len() as int;
    let p12 = seq![0x52u8, 0x49, 0x46, 0x46] + le32(36 + n) + seq![0x57u8, 0x41, 0x56, 0x45];
    let p16 = p12 + seq![0x66u8, 0x6D, 0x74, 0x20];
    let p20 = p16 + le32(16);
    let p22 = p20 + le16(1);
    let p24 = p22 + le16(1);
    let p28 = p24 + le32(rate);
    let p32 = p28 + le32(2 * rate);
    let p34 = p32 + le16(2);
    let p36 = p34 + le16(16);
    let p40 = p36 + seq![0x64u8, 0x61, 0x74, 0x61];
    if field == 12 {
        p12
    } else if field == 16 {
        p16
    } else if field == 20 {
        p20
    } else if field == 22 {
        p22
    } else if field == 24 {
        p24
    } else if field == 34 {
        p34
    } else if field == 36 {
        p36
    } else if field == 40 {
        p40
    } else {
        p40 + le32(n)
    }
}

/// The fields of the `fmt ` chunk of a plain WAV file.
proof fn lemma_plain_wav_fmt_fields(rate: int, pcm: Seq<u8>)
    requires
        0 <= rate,
        2 * rate <= u32::MAX,
        36 + pcm.len() <= u32::MAX,
    ensures
        u32_at(plain_wav(rate, pcm), 16) == Some(16int),
        u16_at(plain_wav(rate, pcm), 20) == Some(1int),
        u16_at(plain_wav(rate, pcm), 22) == Some(1int),
        u32_at(plain_wav(rate, pcm), 24) == Some(rate),
        u16_at(plain_wav(rate, pcm), 34) == Some(16int),
{
    broadcast use crate::le_bytes::group_le_len;

    let n = pcm.len() as int;
    let d = plain_wav(rate, pcm);
    let tail34 = seq![0x64u8, 0x61, 0x74, 0x61] + le32(n) + pcm;
    let tail28 = le16(2) + le16(16) + tail34;
    let tail24 = le32(2 * rate) + tail28;
    let tail20 = le16(1) + le32(rate) + tail24;
    assert(u32_at(d, 16) == Some(16int)) by {
        let p16 = plain_wav_prefix(rate, pcm, 16);
        assert(d =~= p16 + le32(16) + (le16(1) + tail20));
        lemma_u32_field(p16, 16, le16(1) + tail20);
    }
    assert(u16_at(d, 20) == Some(1int)) by {
        let p20 = plain_wav_prefix(rate, pcm, 20);
        assert(d =~= p20 + le16(1) + tail20);
        lemma_u16_field(p20, 1, tail20);
    }
    assert(u16_at(d, 22) == Some(1int)) by {
        let p22 = plain_wav_prefix(rate, pcm, 22);
        assert(d =~= p22 + le16(1) + (le32(rate) + tail24));
        lemma_u16_field(p22, 1, le32(rate) + tail24);
    }
    assert(u32_at(d, 24) == Some(rate)) by {
        let p24 = plain_wav_prefix(rate, pcm, 24);
        assert(d =~= p24 + le32(rate) + tail24);
        lemma_u32_field(p24, rate, tail24);
    }
    assert(u16_at(d, 34) == Some(16int)) by {
        let p34 = plain_wav_prefix(rate, pcm, 34);
        assert(d =~= p34 + le16(16) + tail34);
        lemma_u16_field(p34, 16, tail34);
    }
}

/// The tags, the data chunk's size and the PCM bytes of a plain WAV file.
proof fn lemma_plain_wav_frame(rate: int, pcm: Seq<u8>)
    requires
        0 <= rate,
        2 * rate <= u32::MAX,
        36 + pcm.len() <= u32::MAX,
    ensures
        plain_wav(rate, pcm).len() == 44 + pcm.len(),
        has_tag(plain_wav(rate, pcm), 0, 0x52, 0x49, 0x46, 0x46),
        has_tag(plain_wav(rate, pcm), 8, 0x57, 0x41, 0x56, 0x45),
        is_fmt_tag(plain_wav(rate, pcm), 12),
        is_data_tag(plain_wav(rate, pcm), 36),
        u32_at(plain_wav(rate, pcm), 40) == Some(pcm.len() as int),
        plain_wav(rate, pcm).subrange(44, 44 + pcm.len() as int) == pcm,
{
    broadcast use crate::le_bytes::group_le_len;

    let n = pcm.len() as int;
    let d = plain_wav(rate, pcm);
    let p12 = plain_wav_prefix(rate, pcm, 12);
    let p16 = plain_wav_prefix(rate, pcm, 16);
    let p40 = plain_wav_prefix(rate, pcm, 40);
    let p44 = plain_wav_prefix(rate, pcm, 44);
    assert(d == p44 + pcm);
    assert(p44.len() == 44);
    assert(d[0] == p12[0] && d[1] == p12[1] && d[2] == p12[2] && d[3] == p12[3]);
    assert(d[8] == p12[8] && d[9] == p12[9] && d[10] == p12[10] && d[11] == p12[11]);
    assert(d[12] == p16[12] && d[13] == p16[13] && d[14] == p16[14] && d[15] == p16[15]);
    assert(d[36] == p40[36] && d[37] == p40[37] && d[38] == p40[38] && d[39] == p40[39]);
    lemma_u32_field(p40, n, pcm);
    assert(d.subrange(44, 44 + n) =~= pcm);
}

/// A plain WAV file reads back as its sample rate and exactly its PCM bytes, so encoding the
/// file and encoding those bytes at that rate start from the same samples.
pub proof fn lemma_plain_wav_reads_back(rate: int, pcm: Seq<u8>)
    requires
        0 <= rate,
        2 * rate <= u32::MAX,
        36 + pcm.len() <= u32::MAX,
    ensures
        wav_layout(plain_wav(rate, pcm)) == Ok::<(int, int, int), WavError>(
            (rate, 44, 44 + pcm.len() as int),
        ),
        plain_wav(rate, pcm).subrange(44, 44 + pcm.len() as int) == pcm,
{
    let d = plain_wav(rate, pcm);
    let n = pcm.len() as int;
    lemma_plain_wav_fmt_fields(rate, pcm);
    lemma_plain_wav_frame(rate, pcm);
    assert(fmt_result(d, 20, 16) == Ok::<int, WavError>(rate));
    assert(walk_chunks(d, 36, rate, true) == Ok::<(int, int, int), WavError>((rate, 44, 44 + n)));
}

// ── Executable ──────────────────────────────────────────────────────────────

/// The little-endian 16-bit value at `base + delta`, if it lies inside `d`.
fn read_u16(d: &[u8], base: usize, delta: usize) -> (r: Option<u16>)
    ensures
        r matches Some(v) ==> u16_at(d@, base + delta) == Some(v as int),
        r is None ==> u16_at(d@, base + delta) is None,
{
    if base <= d.len() && d.len() - base >= delta && d.len() - base - delta >= 2 {
        let off = base + delta;
        Some(d[off] as u16 + 256 * (d[off + 1] as u16))
    } else {
        None
    }
}

/// The little-endian 32-bit value at `base + delta`, if it lies inside `d`.
fn read_u32(d: &[u8], base: usize, delta: usize) -> (r: Option<u32>)
    ensures
        r matches Some(v) ==> u32_at(d@, base + delta) == Some(v as int),
        r is None ==> u32_at(d@, base + delta) is None,
{
    if base <= d.len() && d.len() - base >= delta && d.len() - base - delta >= 4 {
        let off = base + delta;
        Some(
            d[off] as u32 + 256 * (d[off + 1] as u32) + 65536 * (d[off + 2] as u32) + 16777216 * (
            d[off + 3] as u32),
        )
    } else {
        None
    }
}

fn tag_is(d: &[u8], off: usize, a: u8, b: u8, c: u8, e: u8) -> (r: bool)
    requires
        off + 4 <= d@.len(),
    ensures
        r == has_tag(d@, off as int, a, b, c, e),
{
    d[off] == a && d[off + 1] == b && d[off + 2] == c && d[off + 3] == e
}

/// Read a `fmt ` chunk whose body starts at `body`.
fn read_fmt(data: &[u8], body: usize, size: u32) -> (r: Result<u32, WavError>)
    ensures
        r matches Ok(v) ==> fmt_result(data@, body as int, size as int) == Ok::<int, WavError>(
            v as int,
        ),
        r matches Err(e) ==> fmt_result(data@, body as int, size as int) == Err::<int, WavError>(
            e,
        ),
{
    if size < 16 {
        return Err(WavError::FmtTooSmall);
    }
    let format = match read_u16(data, body, 0) {
        Some(v) => v,
        None => return Err(WavError::Truncated),
    };
    if format != 1 {
        return Err(WavError::NotPcm);
    }
    let channels = match read_u16(data, body, 2) {
        Some(v) => v,
        None => return Err(WavError::Truncated),
    };
    if channels != 1 {
        return Err(WavError::NotMono);
    }
    let sample_rate = match read_u32(data, body, 4) {
        Some(v) => v,
        None => return Err(WavError::Truncated),
    };
    let bits_per_sample = match read_u16(data, body, 14) {
        Some(v) => v,
        None => return Err(WavError::Truncated),
    };
    if bits_per_sample != 16 {
        return Err(WavError::Not16Bit);
    }
    Ok(sample_rate)
}


/// Read a minimal PCM WAV file (mono, 16-bit, any sample rate): check the RIFF/WAVE
/// header, walk the chunks (word-aligned), take the sample rate from the `fmt ` chunk and
/// return it with the bytes of the `data` chunk. Exactly `wav_layout` decides the outcome.
pub fn parse_wav(data: &[u8]) -> (res: Result<(u32, &[u8]), WavError>)
    ensures
        match wav_layout(data@) {
            Ok((rate, start, end)) => res matches Ok((r, pcm)) && r == rate && pcm@
                == data@.subrange(start, end),
            Err(e) => res == Err::<(u32, &[u8]), WavError>(e),
        },
{
    if data.len() < 12 {
        return Err(WavError::NotWav);
    }
    if !tag_is(data, 0, 0x52, 0x49, 0x46, 0x46) {
        return Err(WavError::NotRiff);
    }
    if !tag_is(data, 8, 0x57, 0x41, 0x56, 0x45) {
        return Err(WavError::NotWave);
    }
    let len = data.len();
    let mut pos: usize = 12;
    let mut sample_rate: u32 = 0;
    let mut fmt_ok = false;
    while pos <= len && len - pos >= 8
        invariant
            len == data@.len(),
            12 <= pos <= len,
            walk_chunks(data@, pos as int, sample_rate as int, fmt_ok) == wav_layout(data@),
        decreases len - pos,
    {
        let chunk_size = match read_u32(data, pos, 4) {
            Some(v) => v,
            None => return Err(WavError::Truncated),
        };
        let body = pos + 8;
        let size = chunk_size as usize;
        if tag_is(data, pos, 0x66, 0x6D, 0x74, 0x20) {
            match read_fmt(data, body, chunk_size) {
                Err(e) => {
                    return Err(e);
                },
                Ok(r) => {
                    sample_rate = r;
                    fmt_ok = true;
                },
            }
        } else if tag_is(data, pos, 0x64, 0x61, 0x74, 0x61) {
            if !fmt_ok {
                return Err(WavError::DataBeforeFmt);
            }
            if size > len - body {
                return Err(WavError::Truncated);
            }
            return Ok((sample_rate, vstd::slice::slice_subrange(data, body, body + size)));
        }
        if size >= len - body {
            let ghost next = body + size + (if size % 2 != 0 {
                1int
            } else {
                0
            });
            assert(walk_chunks(data@, next, sample_rate as int, fmt_ok) == Err::<
                (int, int, int),
                WavError,
            >(WavError::MissingData));
            return Err(WavError::MissingData);
        }
        pos = body + size;
        if chunk_size % 2 != 0 {
            pos = pos + 1;
        }
    }
    Err(WavError::MissingData)
}

/// Samples from consecutive little-endian byte pairs; a trailing odd byte is ignored.
pub fn samples_from_le_bytes(bytes: &[u8]) -> (samples: Vec<i16>)
    ensures
        samples@.len() == bytes@.len() / 2,
        forall|i: int|
            0 <= i < samples@.len() ==> (#[trigger] samples@[i]) as int == le_samples(bytes@)[i],
{
    let mut samples: Vec<i16> = Vec::new();
    let len = bytes.len();
    let n = len / 2;
    let mut i: usize = 0;
    while i < n
        invariant
            i <= n,
            len == bytes@.len(),
            n == len / 2,
            samples@.len() == i,
            forall|k: int|
                0 <= k < i ==> (#[trigger] samples@[k]) as int == le_samples(bytes@)[k],
        decreases n - i,
    {
        let lo = bytes[2 * i];
        let hi = bytes[2 * i + 1];
        let u: i32 = lo as i32 + 256 * (hi as i32);
        let v: i16 = if u >= 32768 {
            (u - 65536) as i16
        } else {
            u as i16
        };
        samples.push(v);
        i = i + 1;
    }
    samples
}

/// Samples from raw little-endian PCM bytes; `None` when the length is odd.
pub fn samples_from_pcm16(pcm_data: &[u8]) -> (res: Option<Vec<i16>>)
    ensures
        pcm_data@.len() % 2 != 0 <==> res is None,
        res matches Some(samples) ==> samples@.len() == pcm_data@.len() / 2 && forall|i: int|
            0 <= i < samples@.len() ==> (#[trigger] samples@[i]) as int == le_samples(pcm_data@)[i],
{
    if pcm_data.len() % 2 != 0 {
        None
    } else {
        Some(samples_from_le_bytes(pcm_data))
    }
}


/// Reading back a 16-bit sample written little-endian gives the sample.
pub proof fn lemma_sample_roundtrip(v: int)
    requires
        -32768 <= v <= 32767,
    ensures
        sample_of(
            crate::le_bytes::le16(crate::le_bytes::bits16(v))[0],
            crate::le_bytes::le16(crate::le_bytes::bits16(v))[1],
        ) == v,
{
    reveal(crate::le_bytes::le16);
    let u = crate::le_bytes::bits16(v);
    assert((u % 256) + 256 * ((u / 256) % 256) == u) by (nonlinear_arith)
        requires
            0 <= u < 65536,
    ;
}

} // verus!
