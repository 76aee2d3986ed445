//! The persistent JSON-lines worker: one request per line, answered with events.
//!
//! Reading and writing JSON, and generating the audio, is left to the caller.

use crate::engine::Transcript;
use crate::path::UnixPath;
use crate::pcm::{i16_bytes, pcm_bytes};
use crate::rounding::{lemma_nearest_float_error, nearest_single};
use crate::sample::{Double, Sample};
use crate::scaling::to_symmetric_i16;
use crate::text::{self, trimmed};
use base64::Engine;
use vstd::arithmetic::power2::pow2;
use vstd::prelude::*;

verus! {

// ---------------------------------------------------------------------------
// Base64
// ---------------------------------------------------------------------------

/// The characters of the standard base64 alphabet, by their value.
pub const BASE64_ALPHABET: &'static str =
    "ABCDEFGHIJKLMNOPQRSTUVWXYZabcdefghijklmnopqrstuvwxyz0123456789+/";

/// Bytes in base64, with padding: every three bytes are four characters of six
/// bits each, and `=` fills up what is missing at the end.
pub open spec fn base64_text(bytes: Seq<u8>) -> Seq<char>
    decreases bytes.len(),
{
    let a = BASE64_ALPHABET@;
    let x = bytes[0] as int;
    let y = bytes[1] as int;
    let z = bytes[2] as int;
    if bytes.len() == 0 {
        Seq::empty()
    } else if bytes.len() == 1 {
        seq![a[x / 4], a[x % 4 * 16], '=', '=']
    } else if bytes.len() == 2 {
        seq![a[x / 4], a[x % 4 * 16 + y / 16], a[y % 16 * 4], '=']
    } else {
        seq![a[x / 4], a[x % 4 * 16 + y / 16], a[y % 16 * 4 + z / 64], a[z % 64]] + base64_text(
            bytes.skip(3),
        )
    }
}

/// The six bits that a character of the standard base64 alphabet stands for.
pub open spec fn base64_value(c: char) -> int {
    if 'A' <= c <= 'Z' {
        c as int - 'A' as int
    } else if 'a' <= c <= 'z' {
        c as int - 'a' as int + 26
    } else if '0' <= c <= '9' {
        c as int - '0' as int + 52
    } else if c == '+' {
        62
    } else {
        63
    }
}

proof fn lemma_base64_values(i: int)
    requires
        0 <= i < 64,
    ensures
        base64_value(BASE64_ALPHABET@[i]) == i,
        BASE64_ALPHABET@[i] != '=',
{
    reveal_strlit("ABCDEFGHIJKLMNOPQRSTUVWXYZabcdefghijklmnopqrstuvwxyz0123456789+/");
}

/// Different bytes have different texts: what was encoded can be told from it.
pub proof fn base64_is_faithful(a: Seq<u8>, b: Seq<u8>)
    requires
        base64_text(a) == base64_text(b),
    ensures
        a == b,
    decreases a.len(),
{
    lemma_base64_front(a);
    lemma_base64_front(b);
    if a.len() >= 3 && b.len() >= 3 {
        let s = base64_text(a);
        let t = base64_text(b);
        assert(s.skip(4) =~= base64_text(a.skip(3)));
        assert(t.skip(4) =~= base64_text(b.skip(3)));
        base64_is_faithful(a.skip(3), b.skip(3));
        assert(a =~= seq![a[0], a[1], a[2]] + a.skip(3));
        assert(b =~= seq![b[0], b[1], b[2]] + b.skip(3));
    } else {
        assert(a =~= b);
    }
}

/// The first four characters give the first three bytes, and tell how many there
/// are.
proof fn lemma_base64_front(bytes: Seq<u8>)
    ensures
        ({
            let s = base64_text(bytes);
            &&& bytes.len() == 0 <==> s.len() == 0
            &&& bytes.len() > 0 ==> {
                &&& s.len() >= 4
                &&& bytes[0] == base64_value(s[0]) * 4 + base64_value(s[1]) / 16
                &&& (s[2] == '=') == (bytes.len() == 1)
                &&& (s[3] == '=') == (bytes.len() <= 2)
            }
            &&& bytes.len() > 1 ==> bytes[1] == base64_value(s[1]) % 16 * 16 + base64_value(
                s[2],
            ) / 4
            &&& bytes.len() > 2 ==> bytes[2] == base64_value(s[2]) % 4 * 64 + base64_value(s[3])
            &&& 0 < bytes.len() <= 2 ==> s.len() == 4
        }),
{
    if bytes.len() > 0 {
        let x = bytes[0] as int;
        lemma_base64_values(x / 4);
        if bytes.len() == 1 {
            lemma_base64_values(x % 4 * 16);
        } else {
            let y = bytes[1] as int;
            lemma_base64_values(x % 4 * 16 + y / 16);
            if bytes.len() == 2 {
                lemma_base64_values(y % 16 * 4);
            } else {
                let z = bytes[2] as int;
                lemma_base64_values(y % 16 * 4 + z / 64);
                lemma_base64_values(z % 64);
            }
        }
    }
}

/// `encode` of the `base64` crate's standard engine: the standard alphabet, with
/// padding. The text has to fit into memory.
#[verifier::external_body]
fn encode_base64(bytes: &[u8]) -> (r: String)
    requires
        (bytes@.len() + 2) / 3 * 4 <= isize::MAX,
    ensures
        r@ == base64_text(bytes@),
{
    base64::engine::general_purpose::STANDARD.encode(bytes)
}

// ---------------------------------------------------------------------------
// Requests
// ---------------------------------------------------------------------------

/// What the worker was started with.
#[derive(Debug)]
pub struct JsonWorkerArgs {
    /// Reference transcript.
    pub ref_text: Option<String>,
    /// File containing the reference transcript.
    pub ref_text_file: Option<UnixPath>,
    /// Target language.
    pub language: String,
    /// Sampling temperature.
    pub temperature: Double,
    /// Top-k sampling.
    pub top_k: i64,
    /// Maximum generated codec frames.
    pub max_codes: i64,
    /// PCM output sample rate.
    pub output_sample_rate: u32,
    /// Output chunk size in samples.
    pub blocksize: usize,
}

/// A request; what it leaves out is taken from what the worker was started with.
#[derive(Debug)]
pub struct Request {
    pub text: String,
    pub language: Option<String>,
    pub temperature: Option<Double>,
    pub top_k: Option<i64>,
    pub max_codes: Option<i64>,
}

/// What is generated for a request.
#[derive(Debug)]
pub struct Generation {
    pub text: String,
    pub language: String,
    pub temperature: Double,
    pub top_k: i64,
    pub max_codes: i64,
}

/// A request without text.
#[derive(Clone, Copy, Debug, PartialEq, Eq, Structural)]
pub struct EmptyText;

impl EmptyText {
    /// The message.
    pub fn message(&self) -> (r: String)
        ensures
            r@ == "empty text"@,
    {
        "empty text".to_owned()
    }
}

/// Neither a transcript nor a file with one was given.
#[derive(Clone, Copy, Debug, PartialEq, Eq, Structural)]
pub struct NoTranscript;

impl NoTranscript {
    /// The message.
    pub fn message(&self) -> (r: String)
        ensures
            r@ == "provide --ref-text or --ref-text-file"@,
    {
        "provide --ref-text or --ref-text-file".to_owned()
    }
}

/// Where the reference transcript comes from: a file comes first, then text; there
/// has to be one.
pub fn load_ref_text(args: &JsonWorkerArgs) -> (r: Result<Transcript, NoTranscript>)
    ensures
        match args.ref_text_file {
            Some(file) => r matches Ok(Transcript::File(path)) && path@ == file@,
            None => match args.ref_text {
                Some(given) => r matches Ok(Transcript::Text(t)) && t@ == trimmed(given@),
                None => r is Err,
            },
        },
{
    if let Some(file) = &args.ref_text_file {
        return Ok(Transcript::File(file.copied()));
    }
    if let Some(given) = &args.ref_text {
        return Ok(Transcript::Text(text::trim(given.as_str()).to_owned()));
    }
    Err(NoTranscript)
}

/// Whether a line holds no request.
pub fn is_blank(line: &str) -> (r: bool)
    ensures
        r == (trimmed(line@).len() == 0),
{
    text::trim(line).is_empty()
}

/// What is generated for a request.
pub fn handle(args: &JsonWorkerArgs, request: &Request) -> (r: Result<Generation, EmptyText>)
    ensures
        r is Ok <==> trimmed(request.text@).len() > 0,
        r matches Ok(g) ==> {
            &&& g.text@ == trimmed(request.text@)
            &&& g.language@ == (match request.language {
                Some(language) => language@,
                None => args.language@,
            })
            &&& g.temperature == (match request.temperature {
                Some(temperature) => temperature,
                None => args.temperature,
            })
            &&& g.top_k == (match request.top_k {
                Some(top_k) => top_k,
                None => args.top_k,
            })
            &&& g.max_codes == (match request.max_codes {
                Some(max_codes) => max_codes,
                None => args.max_codes,
            })
        },
{
    let bare: &str = text::trim(request.text.as_str());
    if bare.is_empty() {
        return Err(EmptyText);
    }
    Ok(
        Generation {
            text: bare.to_owned(),
            language: match &request.language {
                Some(language) => language.clone(),
                None => args.language.clone(),
            },
            temperature: match request.temperature {
                Some(temperature) => temperature,
                None => args.temperature,
            },
            top_k: match request.top_k {
                Some(top_k) => top_k,
                None => args.top_k,
            },
            max_codes: match request.max_codes {
                Some(max_codes) => max_codes,
                None => args.max_codes,
            },
        },
    )
}

// ---------------------------------------------------------------------------
// Audio
// ---------------------------------------------------------------------------

/// Samples as 16-bit PCM on a symmetric scale.
pub open spec fn symmetric_pcm_of(samples: Seq<Sample>) -> Seq<i16> {
    samples.map_values(|s: Sample| s.symmetric_pcm() as i16)
}

/// Samples as bytes of 16-bit PCM.
pub fn samples_to_pcm_bytes(samples: &[Sample]) -> (r: Vec<u8>)
    ensures
        r@ == pcm_bytes(symmetric_pcm_of(samples@)),
{
    let mut pcm: Vec<i16> = Vec::new();
    let mut i: usize = 0;
    while i < samples.len()
        invariant
            i <= samples@.len(),
            pcm@ == symmetric_pcm_of(samples@.take(i as int)),
        decreases samples@.len() - i,
    {
        pcm.push(to_symmetric_i16(samples[i]));
        assert(pcm@ =~= symmetric_pcm_of(samples@.take(i + 1)));
        i += 1;
    }
    assert(samples@.take(samples@.len() as int) =~= samples@);
    i16_bytes(pcm.as_slice())
}

/// The samples in chunks of `n`, the last of which may be shorter.
pub open spec fn chunks_of(samples: Seq<Sample>, n: int) -> Seq<Seq<Sample>>
    decreases samples.len(),
{
    if samples.len() == 0 || n < 1 {
        Seq::empty()
    } else if samples.len() <= n {
        seq![samples]
    } else {
        seq![samples.take(n)] + chunks_of(samples.skip(n), n)
    }
}

/// The data of the audio events: each chunk as 16-bit PCM in base64.
pub open spec fn chunk_data(samples: Seq<Sample>, n: int) -> Seq<Seq<char>> {
    chunks_of(samples, n).map_values(
        |chunk: Seq<Sample>| base64_text(pcm_bytes(symmetric_pcm_of(chunk))),
    )
}

/// The data of the audio events for generated samples.
pub fn audio_chunks(samples: &Vec<Sample>, blocksize: usize) -> (r: Vec<String>)
    requires
        blocksize > 0,
        samples@.len() <= isize::MAX / 4,
    ensures
        r@.map_values(|data: String| data@) == chunk_data(samples@, blocksize as int),
{
    let mut r: Vec<String> = Vec::new();
    let mut from: usize = 0;
    let ghost all = chunk_data(samples@, blocksize as int);
    assert(samples@.skip(0) =~= samples@);
    assert(all =~= r@.map_values(|data: String| data@) + all);
    while from < samples.len()
        invariant
            blocksize > 0,
            samples@.len() <= isize::MAX / 4,
            from <= samples@.len(),
            all == r@.map_values(|data: String| data@) + chunk_data(
                samples@.skip(from as int),
                blocksize as int,
            ),
        decreases samples@.len() - from,
    {
        let to: usize = if samples.len() - from <= blocksize {
            samples.len()
        } else {
            from + blocksize
        };
        let chunk: &[Sample] = vstd::slice::slice_subrange(samples.as_slice(), from, to);
        let bytes: Vec<u8> = samples_to_pcm_bytes(chunk);
        let data: String = encode_base64(bytes.as_slice());
        proof {
            let rest = samples@.skip(from as int);
            let n = blocksize as int;
            let chunks = chunks_of(rest, n);
            assert(rest.skip(to - from) =~= samples@.skip(to as int));
            if rest.len() <= n {
                assert(chunk@ =~= rest);
                assert(chunks_of(rest.skip(to - from), n) =~= Seq::empty());
            } else {
                assert(chunk@ =~= rest.take(n));
            }
            assert(chunks =~= seq![chunk@] + chunks_of(rest.skip(to - from), n));
            assert(chunk_data(rest, n) =~= seq![data@] + chunk_data(rest.skip(to - from), n));
            assert(r@.push(data).map_values(|data: String| data@) =~= r@.map_values(
                |data: String| data@,
            ).push(data@));
            assert(all =~= r@.push(data).map_values(|data: String| data@) + chunk_data(
                samples@.skip(to as int),
                n,
            ));
        }
        r.push(data);
        from = to;
    }
    assert(chunk_data(samples@.skip(from as int), blocksize as int) =~= Seq::empty());
    assert(r@.map_values(|data: String| data@) =~= all);
    r
}

/// An event that answers a request. The caller adds the request's id and the
/// figures.
#[derive(Debug)]
pub enum Event {
    /// Audio has been generated.
    Ttfa,
    /// A chunk of audio.
    AudioChunk { data: String },
    /// All audio has been sent.
    Generated,
    /// The request is done.
    RequestDone,
}

/// Whether `events` answer a request with audio chunks of the given data: the first
/// audio is announced, the chunks follow in order, then what was generated, and the
/// request is done.
pub open spec fn is_answer(events: Seq<Event>, data: Seq<Seq<char>>) -> bool {
    let n = data.len() as int;
    &&& events.len() == n + 3
    &&& events[0] is Ttfa
    &&& forall|i: int|
        1 <= i <= n ==> (#[trigger] events[i] matches Event::AudioChunk { data: d } && d@
            == data[i - 1])
    &&& events[n + 1] is Generated
    &&& events[n + 2] is RequestDone
}

/// The events that answer a request for which `samples` were generated.
pub fn events(samples: &Vec<Sample>, blocksize: usize) -> (r: Vec<Event>)
    requires
        blocksize > 0,
        samples@.len() <= isize::MAX / 4,
    ensures
        is_answer(r@, chunk_data(samples@, blocksize as int)),
{
    let chunks: Vec<String> = audio_chunks(samples, blocksize);
    let ghost data = chunk_data(samples@, blocksize as int);
    let mut r: Vec<Event> = Vec::new();
    r.push(Event::Ttfa);
    let mut i: usize = 0;
    while i < chunks.len()
        invariant
            i <= chunks@.len(),
            data == chunks@.map_values(|data: String| data@),
            r@.len() == i + 1,
            r@[0] is Ttfa,
            forall|j: int|
                1 <= j <= i ==> (#[trigger] r@[j] matches Event::AudioChunk { data: d } && d@
                    == data[j - 1]),
        decreases chunks@.len() - i,
    {
        assert(data[i as int] == chunks@[i as int]@);
        r.push(Event::AudioChunk { data: chunks[i].clone() });
        i += 1;
    }
    r.push(Event::Generated);
    r.push(Event::RequestDone);
    r
}

/// Every chunk but the last has the one size, and the last is neither empty nor
/// longer.
pub proof fn chunks_have_one_size(samples: Seq<Sample>, n: int, i: int)
    requires
        n >= 1,
        0 <= i < chunks_of(samples, n).len(),
    ensures
        i < chunks_of(samples, n).len() - 1 ==> chunks_of(samples, n)[i].len() == n,
        1 <= chunks_of(samples, n)[i].len() <= n,
    decreases samples.len(),
{
    if samples.len() > n && i > 0 {
        chunks_have_one_size(samples.skip(n), n, i - 1);
    }
}

/// The bytes that stand for the chunks, one after the other, are those that stand
/// for the samples.
pub proof fn chunks_carry_the_audio(samples: Seq<Sample>, n: int)
    requires
        n >= 1,
    ensures
        chunks_of(samples, n).map_values(
            |chunk: Seq<Sample>| pcm_bytes(symmetric_pcm_of(chunk)),
        ).flatten() == pcm_bytes(symmetric_pcm_of(samples)),
    decreases samples.len(),
{
    let f = |chunk: Seq<Sample>| pcm_bytes(symmetric_pcm_of(chunk));
    let chunks = chunks_of(samples, n);
    let bytes = chunks.map_values(f);
    reveal_with_fuel(Seq::flatten, 2);
    if samples.len() == 0 {
        assert(bytes.flatten() =~= pcm_bytes(symmetric_pcm_of(samples)));
    } else if samples.len() <= n {
        assert(bytes.drop_first() =~= Seq::empty());
        assert(bytes.flatten() =~= pcm_bytes(symmetric_pcm_of(samples)));
    } else {
        let head = samples.take(n);
        let tail = samples.skip(n);
        chunks_carry_the_audio(tail, n);
        assert(bytes.drop_first() =~= chunks_of(tail, n).map_values(f));
        assert(bytes.first() == f(head));
        assert(samples =~= head + tail);
        assert(pcm_bytes(symmetric_pcm_of(samples)) =~= f(head) + f(tail));
        assert(bytes.flatten() =~= f(head) + f(tail));
    }
}

/// The chunks, one after the other, are the samples.
pub proof fn chunks_lose_nothing(samples: Seq<Sample>, n: int)
    requires
        n >= 1,
    ensures
        chunks_of(samples, n).flatten() == samples,
    decreases samples.len(),
{
    let chunks = chunks_of(samples, n);
    reveal_with_fuel(Seq::flatten, 2);
    if samples.len() == 0 {
        assert(chunks.flatten() =~= samples);
    } else if samples.len() <= n {
        assert(chunks.drop_first() =~= Seq::empty());
        assert(chunks.flatten() =~= samples);
    } else {
        chunks_lose_nothing(samples.skip(n), n);
        assert(chunks.drop_first() =~= chunks_of(samples.skip(n), n));
        assert(chunks.first() == samples.take(n));
        assert(chunks.flatten() =~= samples.take(n) + samples.skip(n));
        assert(samples.take(n) + samples.skip(n) =~= samples);
    }
}

/// A request is answered in order: first audio once, then one chunk after the other,
/// then what was generated once, and last that it is done. There are three events more
/// than chunks.
pub proof fn answers_are_in_order(events: Seq<Event>, data: Seq<Seq<char>>, i: int)
    requires
        is_answer(events, data),
        0 <= i < events.len(),
    ensures
        events.len() == data.len() + 3,
        events[i] is Ttfa <==> i == 0,
        events[i] is Generated <==> i == events.len() - 2,
        events[i] is RequestDone <==> i == events.len() - 1,
        events[i] is AudioChunk <==> 0 < i < events.len() - 2,
        events[i] matches Event::AudioChunk { data: d } ==> d@ == data[i - 1],
{
}

/// Chunk `i` holds the samples from `i` times the size on, no more than the size, as
/// PCM in base64.
pub proof fn chunk_data_is_in_order(samples: Seq<Sample>, n: int, i: int)
    requires
        n >= 1,
        0 <= i,
        i * n < samples.len(),
    ensures
        ({
            let to = if i * n + n < samples.len() {
                i * n + n
            } else {
                samples.len() as int
            };
            &&& i < chunk_data(samples, n).len()
            &&& chunk_data(samples, n)[i] == base64_text(
                pcm_bytes(
                    samples.subrange(i * n, to).map_values(|s: Sample| s.symmetric_pcm() as i16),
                ),
            )
        }),
        chunk_data(samples, n).len() * n < samples.len() + n,
{
    lemma_chunk(samples, n, i);
}

proof fn lemma_chunk(samples: Seq<Sample>, n: int, i: int)
    requires
        n >= 1,
        0 <= i,
        i * n < samples.len(),
    ensures
        ({
            let to = if i * n + n < samples.len() {
                i * n + n
            } else {
                samples.len() as int
            };
            &&& i < chunks_of(samples, n).len()
            &&& chunks_of(samples, n)[i] == samples.subrange(i * n, to)
        }),
        chunks_of(samples, n).len() * n < samples.len() + n,
    decreases samples.len(),
{
    if samples.len() <= n {
        assert(i == 0) by (nonlinear_arith)
            requires
                i * n < samples.len(),
                samples.len() <= n,
                0 <= i,
                n >= 1,
        ;
        assert(0 * n == 0);
        assert(samples.subrange(0, samples.len() as int) =~= samples);
        assert(1 * n == n);
    } else {
        let rest = samples.skip(n);
        let c = chunks_of(rest, n);
        if i == 0 {
            assert(0 * n == 0);
            assert(samples.subrange(0, n) =~= samples.take(n));
            lemma_chunk(rest, n, 0);
        } else {
            assert((i - 1) * n == i * n - n) by (nonlinear_arith);
            assert((i - 1) * n >= 0) by (nonlinear_arith)
                requires
                    i >= 1,
                    n >= 1,
            ;
            lemma_chunk(rest, n, i - 1);
            let to = if i * n + n < samples.len() {
                i * n + n
            } else {
                samples.len() as int
            };
            assert(rest.subrange(i * n - n, to - n) =~= samples.subrange(i * n, to));
        }
        assert((c.len() + 1) * n == c.len() * n + n) by (nonlinear_arith);
    }
}

/// Symmetric PCM of a sample: its sign, full scale from one on, nothing for what is not
/// a number; below one, 32767 times the magnitude to within one step.
pub proof fn symmetric_pcm_is_scaled(s: Sample)
    ensures
        ({
            let m = s.bits as int % 0x8000_0000;
            let p = s.symmetric_pcm();
            let size = if s.bits < 0x8000_0000 {
                p
            } else {
                -p
            };
            &&& m > 0x7f80_0000 ==> p == 0
            &&& 0x3f80_0000 <= m <= 0x7f80_0000 ==> size == 32767
            &&& m < 0x3f80_0000 ==> 0 <= size && (size - 1) * pow2(149) <= 32767 * s.units() <= (
            size + 2) * pow2(149)
        }),
{
    let one = pow2(149) as int;
    let u = s.units() as int;
    if s.bits as int % 0x8000_0000 < 0x3f80_0000 {
        let v = nearest_single((u * 32767) as nat, 1) as int;
        let q = v / one;
        vstd::arithmetic::power2::lemma_pow2_pos(149);
        vstd::arithmetic::power2::lemma2_to64();
        vstd::arithmetic::power2::lemma_pow2_adds(23, 126);
        vstd::arithmetic::power2::lemma_pow2_strictly_increases(64, 149);
        crate::sample::lemma_units_increase(s, Sample { bits: 0x3f80_0000 });
        assert((Sample { bits: 0x3f80_0000 }).units() == 0x80_0000 * pow2(126));
        assert(u < one);
        lemma_nearest_float_error((u * 32767) as nat, 1, 0x80_0000);
        let off = v - u * 32767;
        assert(-one <= 100 * off <= one) by (nonlinear_arith)
            requires
                2 * off <= 1 || (2 * off) * 0x80_0000 <= u * 32767,
                -2 * off <= 1 || (-2 * off) * 0x80_0000 <= u * 32767,
                0 <= u < one,
                one > 0x1_0000_0000_0000_0000,
        ;
        vstd::arithmetic::div_mod::lemma_fundamental_div_mod(v, one);
        vstd::arithmetic::div_mod::lemma_div_pos_is_pos(v, one);
        assert((q - 1) * one == one * q - one && (q + 2) * one == one * q + 2 * one)
            by (nonlinear_arith);
    }
}

} // verus!
