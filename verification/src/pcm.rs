//! The stream of 16-bit PCM that a request is answered with.
//!
//! Samples arrive in chunks of any size and leave in blocks of one fixed size.
//! Silence before the first audible sample is dropped, but for a short preroll.

use crate::gating::{blocks_are_five_ms, five_ms, quiet_tail_is_found, quiet_tail_is_maximal};
use crate::postprocess::{block_len, block_size, count_quiet_tail, divisor, quiet_tail};
use crate::sample::{pcm_of, samples_to_i16, Sample};
use crate::seconds::Seconds;
use vstd::prelude::*;

verus! {

/// Samples above this magnitude are audible: 0.005 of full scale. The level is
/// low because a soft unvoiced plosive at the start of an utterance sits well
/// below the level of typical speech.
pub const AUDIBLE: i16 = 163;

/// Longer than any tail worth reporting, short enough to stay cheap.
pub const TAIL_SECONDS: u64 = 30;

/// Samples up to this magnitude are not speech: 0.02 of full scale.
pub const PCM_SPEECH_LEVEL: u32 = 655;

// ---------------------------------------------------------------------------
// Bytes
// ---------------------------------------------------------------------------

/// A 16-bit sample as the number that its two bytes stand for.
pub open spec fn unsigned16(sample: i16) -> int {
    if sample < 0 {
        sample + 0x1_0000
    } else {
        sample as int
    }
}

/// Samples as bytes, least significant first.
pub open spec fn pcm_bytes(samples: Seq<i16>) -> Seq<u8> {
    Seq::new(
        2 * samples.len(),
        |k: int|
            if k % 2 == 0 {
                (unsigned16(samples[k / 2]) % 256) as u8
            } else {
                (unsigned16(samples[k / 2]) / 256) as u8
            },
    )
}

/// Samples as bytes, least significant first.
pub fn i16_bytes(samples: &[i16]) -> (r: Vec<u8>)
    ensures
        r@ == pcm_bytes(samples@),
{
    let mut r: Vec<u8> = Vec::new();
    let mut i: usize = 0;
    while i < samples.len()
        invariant
            0 <= i <= samples@.len(),
            r@ == pcm_bytes(samples@.take(i as int)),
        decreases samples@.len() - i,
    {
        let sample: i16 = samples[i];
        let n: u32 = if sample < 0 {
            (sample as i32 + 0x1_0000) as u32
        } else {
            sample as u32
        };
        r.push((n % 256) as u8);
        r.push((n / 256) as u8);
        assert(r@ =~= pcm_bytes(samples@.take(i + 1)));
        i += 1;
    }
    assert(samples@.take(samples@.len() as int) =~= samples@);
    r
}

/// The bytes of PCM determine the samples.
pub proof fn pcm_bytes_are_faithful(a: Seq<i16>, b: Seq<i16>)
    requires
        pcm_bytes(a) == pcm_bytes(b),
    ensures
        a == b,
{
    assert(pcm_bytes(a).len() == 2 * a.len());
    assert(pcm_bytes(b).len() == 2 * b.len());
    assert forall|i: int| 0 <= i < a.len() implies a[i] == b[i] by {
        let x = unsigned16(a[i]);
        let y = unsigned16(b[i]);
        assert(2 * i / 2 == i && 2 * i % 2 == 0);
        assert((2 * i + 1) / 2 == i && (2 * i + 1) % 2 == 1);
        assert(pcm_bytes(a)[2 * i] == (x % 256) as u8);
        assert(pcm_bytes(b)[2 * i] == (y % 256) as u8);
        assert(pcm_bytes(a)[2 * i + 1] == (x / 256) as u8);
        assert(pcm_bytes(b)[2 * i + 1] == (y / 256) as u8);
        assert(x == y);
    }
    assert(a =~= b);
}

// ---------------------------------------------------------------------------
// Blocks
// ---------------------------------------------------------------------------

/// The whole blocks of `n` samples that `s` begins with.
pub open spec fn blocks_of(s: Seq<i16>, n: int) -> Seq<Seq<i16>> {
    Seq::new((s.len() as int / n) as nat, |i: int| s.subrange(i * n, i * n + n))
}

/// Blocks put together again.
pub open spec fn joined(blocks: Seq<Seq<i16>>) -> Seq<i16>
    decreases blocks.len(),
{
    if blocks.len() == 0 {
        Seq::empty()
    } else {
        joined(blocks.drop_last()) + blocks.last()
    }
}

/// The length of the whole blocks of `n` in `len`.
pub open spec fn whole(len: int, n: int) -> int {
    len / n * n
}

proof fn lemma_whole(len: int, n: int)
    requires
        len >= 0,
        n >= 1,
    ensures
        0 <= whole(len, n) <= len,
        len - whole(len, n) < n,
        len / n >= 0,
{
    vstd::arithmetic::div_mod::lemma_fundamental_div_mod(len, n);
    vstd::arithmetic::div_mod::lemma_div_pos_is_pos(len, n);
    assert(n * (len / n) == len / n * n) by (nonlinear_arith);
    assert(len / n * n >= 0) by (nonlinear_arith)
        requires
            len / n >= 0,
            n >= 1,
    ;
}

/// The quotient is what the remainder says it is.
proof fn lemma_quotient(len: int, n: int, k: int)
    requires
        n >= 1,
        k * n <= len < k * n + n,
    ensures
        len / n == k,
        whole(len, n) == k * n,
{
    assert(n * k == k * n) by (nonlinear_arith);
    vstd::arithmetic::div_mod::lemma_fundamental_div_mod_converse(len, n, k, len - k * n);
}

/// The whole blocks, put together again, are what they were cut from.
pub proof fn blocks_lose_nothing(s: Seq<i16>, n: int)
    requires
        n >= 1,
    ensures
        joined(blocks_of(s, n)) == s.take(whole(s.len() as int, n)),
    decreases s.len(),
{
    let len = s.len() as int;
    lemma_whole(len, n);
    let k = len / n;
    if k == 0 {
        assert(0 * n == 0) by (nonlinear_arith);
        assert(joined(blocks_of(s, n)) =~= s.take(0));
    } else {
        assert((k - 1) * n == k * n - n) by (nonlinear_arith);
        let shorter = s.take((k - 1) * n);
        assert((k - 1) * n >= 0) by (nonlinear_arith)
            requires
                k >= 1,
                n >= 1,
        ;
        lemma_quotient((k - 1) * n, n, k - 1);
        blocks_lose_nothing(shorter, n);
        assert(blocks_of(s, n).drop_last() =~= blocks_of(shorter, n)) by {
            assert forall|i: int| 0 <= i < k - 1 implies #[trigger] blocks_of(s, n)[i] == blocks_of(
                shorter,
                n,
            )[i] by {
                assert(0 <= i * n && i * n + n <= (k - 1) * n) by (nonlinear_arith)
                    requires
                        0 <= i < k - 1,
                        n >= 1,
                ;
                assert(s.subrange(i * n, i * n + n) =~= shorter.subrange(i * n, i * n + n));
            }
        }
        assert(shorter.take((k - 1) * n) =~= shorter);
        assert(shorter + s.subrange((k - 1) * n, (k - 1) * n + n) =~= s.take(k * n));
    }
}

/// The last `n` samples of `s`.
pub open spec fn last_samples(s: Seq<i16>, n: int) -> Seq<i16> {
    if s.len() <= n {
        s
    } else {
        s.skip(s.len() - n)
    }
}

/// Remembering the end of a stream piece by piece is remembering its end.
proof fn lemma_last_samples(a: Seq<i16>, b: Seq<i16>, n: int)
    requires
        n >= 0,
    ensures
        last_samples(last_samples(a, n) + b, n) == last_samples(a + b, n),
{
    assert(last_samples(last_samples(a, n) + b, n) =~= last_samples(a + b, n));
}

// ---------------------------------------------------------------------------
// The stream
// ---------------------------------------------------------------------------

/// What a stream is, at any time.
pub struct PcmState {
    /// The rate of the samples.
    pub output_sample_rate: u32,
    /// The samples in a block.
    pub blocksize: int,
    /// Whether an audible sample has come.
    pub found_speech: bool,
    /// What has not filled a block yet.
    pub leftover: Seq<i16>,
    /// How many samples have left, padding not counted.
    pub audio_samples: int,
    /// The most recent samples that have left.
    pub tail: Seq<i16>,
}

/// Whether a sample is audible.
pub open spec fn audible(sample: i16) -> bool {
    sample > AUDIBLE || sample < -AUDIBLE
}

/// The first audible sample at or after `from`, or the end.
pub open spec fn first_audible(pcm: Seq<i16>, from: int) -> int
    decreases pcm.len() - from,
{
    if from >= pcm.len() {
        pcm.len() as int
    } else if audible(pcm[from]) {
        from
    } else {
        first_audible(pcm, from + 1)
    }
}

/// The samples kept before the first audible one: eighty milliseconds.
pub open spec fn preroll(sample_rate: u32) -> int {
    sample_rate * 2 / 25
}

/// Where a stream begins in the first chunk with an audible sample.
pub open spec fn stream_start(pcm: Seq<i16>, sample_rate: u32) -> int {
    let first = first_audible(pcm, 0);
    if first <= preroll(sample_rate) {
        0
    } else {
        first - preroll(sample_rate)
    }
}

/// The samples remembered at most.
pub open spec fn tail_cap(sample_rate: u32) -> int {
    sample_rate * TAIL_SECONDS
}

impl PcmState {
    /// A stream before the first sample.
    pub open spec fn fresh(output_sample_rate: u32, blocksize: int) -> PcmState {
        PcmState {
            output_sample_rate,
            blocksize,
            found_speech: false,
            leftover: Seq::empty(),
            audio_samples: 0,
            tail: Seq::empty(),
        }
    }

    /// What holds at any time.
    pub open spec fn wf(self) -> bool {
        &&& self.blocksize >= 1
        &&& self.leftover.len() < self.blocksize
        &&& self.tail.len() <= tail_cap(self.output_sample_rate)
        &&& self.audio_samples >= 0
    }

    /// What the stream takes of `pcm`: nothing while no audible sample has come,
    /// unless it takes everything.
    pub open spec fn admitted(self, pcm: Seq<i16>, ungated: bool) -> Option<Seq<i16>> {
        if self.found_speech || ungated {
            Some(pcm)
        } else if first_audible(pcm, 0) < pcm.len() {
            Some(pcm.skip(stream_start(pcm, self.output_sample_rate)))
        } else {
            None
        }
    }

    /// What leaves and what remains, put together, after `more` has come.
    pub open spec fn gathered(self, more: Seq<i16>) -> Seq<i16> {
        self.leftover + more
    }

    /// The stream after `pcm` has come.
    pub open spec fn pushed(self, pcm: Seq<i16>, ungated: bool) -> PcmState {
        match self.admitted(pcm, ungated) {
            None => self,
            Some(more) => {
                let all = self.gathered(more);
                let n = whole(all.len() as int, self.blocksize);
                PcmState {
                    found_speech: true,
                    leftover: all.skip(n),
                    audio_samples: self.audio_samples + n,
                    tail: last_samples(
                        self.tail + all.take(n),
                        tail_cap(self.output_sample_rate),
                    ),
                    ..self
                }
            },
        }
    }

    /// The blocks that leave when `pcm` comes.
    pub open spec fn push_blocks(self, pcm: Seq<i16>, ungated: bool) -> Seq<Seq<i16>> {
        match self.admitted(pcm, ungated) {
            None => Seq::empty(),
            Some(more) => blocks_of(self.gathered(more), self.blocksize),
        }
    }

    /// The block that leaves at the end: what remains, filled up with silence.
    pub open spec fn last_block(self) -> Seq<i16> {
        self.leftover + Seq::new((self.blocksize - self.leftover.len()) as nat, |i: int| 0i16)
    }

    /// The stream after its end.
    pub open spec fn finished(self) -> PcmState {
        if self.leftover.len() == 0 {
            self
        } else {
            PcmState {
                leftover: Seq::empty(),
                audio_samples: self.audio_samples + self.leftover.len(),
                tail: last_samples(
                    self.tail + self.last_block(),
                    tail_cap(self.output_sample_rate),
                ),
                ..self
            }
        }
    }
}

/// The magnitude of each sample.
pub open spec fn magnitudes_of(samples: Seq<i16>) -> Seq<u32> {
    samples.map_values(
        |s: i16|
            (if s < 0 {
                -s
            } else {
                s as int
            }) as u32,
    )
}

/// Samples on their way out.
#[derive(Debug)]
pub struct PcmStreamer {
    output_sample_rate: u32,
    blocksize: usize,
    found_speech: bool,
    leftover: Vec<i16>,
    audio_samples: usize,
    tail: Vec<i16>,
}

impl View for PcmStreamer {
    type V = PcmState;

    closed spec fn view(&self) -> PcmState {
        PcmState {
            output_sample_rate: self.output_sample_rate,
            blocksize: self.blocksize as int,
            found_speech: self.found_speech,
            leftover: self.leftover@,
            audio_samples: self.audio_samples as int,
            tail: self.tail@,
        }
    }
}

fn copy_range(v: &Vec<i16>, from: usize, to: usize) -> (r: Vec<i16>)
    requires
        from <= to <= v@.len(),
    ensures
        r@ == v@.subrange(from as int, to as int),
{
    vstd::slice::slice_to_vec(vstd::slice::slice_subrange(v.as_slice(), from, to))
}

/// The first audible sample, or the end.
fn find_audible(pcm: &Vec<i16>) -> (r: usize)
    ensures
        r == first_audible(pcm@, 0),
        r <= pcm@.len(),
{
    let mut i: usize = 0;
    while i < pcm.len()
        invariant
            i <= pcm@.len(),
            first_audible(pcm@, 0) == first_audible(pcm@, i as int),
        decreases pcm@.len() - i,
    {
        if pcm[i] > AUDIBLE || pcm[i] < -AUDIBLE {
            return i;
        }
        i += 1;
    }
    i
}

impl PcmStreamer {
    /// A stream before the first sample.
    pub fn new(output_sample_rate: u32, blocksize: usize) -> (r: Self)
        requires
            blocksize >= 1,
        ensures
            r@ == PcmState::fresh(output_sample_rate, blocksize as int),
            r@.wf(),
    {
        let r = PcmStreamer {
            output_sample_rate,
            blocksize,
            found_speech: false,
            leftover: Vec::new(),
            audio_samples: 0,
            tail: Vec::new(),
        };
        assert(r@.leftover =~= Seq::empty());
        assert(r@.tail =~= Seq::empty());
        r
    }

    /// How many samples have left, padding not counted.
    pub fn audio_samples(&self) -> (r: usize)
        ensures
            r == self@.audio_samples,
    {
        self.audio_samples
    }

    /// How many samples wait for a block to be filled.
    pub fn waiting(&self) -> (r: usize)
        ensures
            r == self@.leftover.len(),
    {
        self.leftover.len()
    }

    /// Remembers the end of what has left. The window is bounded because a
    /// collapsed generation can run for minutes.
    pub fn remember_tail(&mut self, chunk: &[i16])
        ensures
            final(self)@ == (PcmState {
                tail: last_samples(
                    old(self)@.tail + chunk@,
                    tail_cap(old(self)@.output_sample_rate),
                ),
                ..old(self)@
            }),
    {
        self.tail.extend_from_slice(chunk);
        let ghost all = old(self)@.tail + chunk@;
        assert(self.tail@ =~= all);
        let cap: u64 = self.output_sample_rate as u64 * TAIL_SECONDS;
        if self.tail.len() as u64 > cap {
            let from: usize = self.tail.len() - cap as usize;
            let kept: Vec<i16> = copy_range(&self.tail, from, self.tail.len());
            assert(kept@ =~= all.skip(from as int));
            self.tail = kept;
        }
    }

    /// Takes samples at the output rate and hands out the blocks that they fill.
    /// With `ungated`, leading silence is kept.
    pub fn push(&mut self, samples: &Vec<Sample>, ungated: bool) -> (r: Vec<Vec<i16>>)
        requires
            old(self)@.wf(),
            old(self)@.audio_samples + old(self)@.leftover.len() + samples@.len() <= usize::MAX,
        ensures
            final(self)@ == old(self)@.pushed(pcm_of(samples@), ungated),
            final(self)@.wf(),
            r@.map_values(|block: Vec<i16>| block@) == old(self)@.push_blocks(
                pcm_of(samples@),
                ungated,
            ),
    {
        let ghost before = self@;
        let pcm: Vec<i16> = samples_to_i16(samples);
        let mut start: usize = 0;
        if !self.found_speech && !ungated {
            let first: usize = find_audible(&pcm);
            if first >= pcm.len() {
                let none: Vec<Vec<i16>> = Vec::new();
                assert(none@.map_values(|block: Vec<i16>| block@) =~= Seq::empty());
                return none;
            }
            let keep: u64 = self.output_sample_rate as u64 * 2 / 25;
            start = if first as u64 <= keep {
                0
            } else {
                first - keep as usize
            };
        }
        let ghost more = pcm@.skip(start as int);
        assert(before.admitted(pcm@, ungated) == Some(more)) by {
            assert(pcm@.skip(0) =~= pcm@);
        }
        self.found_speech = true;
        let mut all: Vec<i16> = Vec::new();
        std::mem::swap(&mut all, &mut self.leftover);
        let kept: Vec<i16> = copy_range(&pcm, start, pcm.len());
        all.extend_from_slice(kept.as_slice());
        assert(all@ =~= before.gathered(more));
        let n: usize = all.len();
        let size: usize = self.blocksize;
        let mut blocks: Vec<Vec<i16>> = Vec::new();
        let mut pos: usize = 0;
        proof {
            assert(0 * size == 0) by (nonlinear_arith);
            assert(before.tail + all@.take(0) =~= before.tail);
            assert(self@ =~= (PcmState { found_speech: true, leftover: Seq::empty(), ..before }));
        }
        while n - pos >= size
            invariant
                size >= 1,
                n == all@.len(),
                pos <= n,
                before.wf(),
                size == before.blocksize,
                before.audio_samples + n <= usize::MAX,
                pos == blocks@.len() * size,
                self@ == (PcmState {
                    found_speech: true,
                    leftover: Seq::empty(),
                    audio_samples: before.audio_samples + pos,
                    tail: last_samples(
                        before.tail + all@.take(pos as int),
                        tail_cap(before.output_sample_rate),
                    ),
                    ..before
                }),
                forall|i: int|
                    0 <= i < blocks@.len() ==> #[trigger] blocks@[i]@ == all@.subrange(
                        i * size,
                        i * size + size,
                    ),
            decreases n - pos,
        {
            let block: Vec<i16> = copy_range(&all, pos, pos + size);
            let ghost k = blocks@.len() as int;
            proof {
                lemma_last_samples(
                    before.tail + all@.take(pos as int),
                    block@,
                    tail_cap(before.output_sample_rate),
                );
                assert(before.tail + all@.take(pos as int) + block@ =~= before.tail + all@.take(
                    pos + size,
                ));
                assert((k + 1) * size == k * size + size) by (nonlinear_arith);
            }
            self.audio_samples = self.audio_samples + size;
            self.remember_tail(block.as_slice());
            blocks.push(block);
            pos = pos + size;
        }
        proof {
            lemma_quotient(n as int, size as int, blocks@.len() as int);
            assert(blocks@.map_values(|block: Vec<i16>| block@) =~= blocks_of(
                all@,
                size as int,
            ));
        }
        self.leftover = copy_range(&all, pos, n);
        assert(self.leftover@ =~= all@.skip(pos as int));
        assert(self@ =~= before.pushed(pcm@, ungated));
        blocks
    }

    /// Ends the stream: what remains leaves as a last block, filled up with
    /// silence.
    pub fn finish(&mut self) -> (r: Option<Vec<i16>>)
        requires
            old(self)@.wf(),
            old(self)@.audio_samples + old(self)@.leftover.len() <= usize::MAX,
        ensures
            final(self)@ == old(self)@.finished(),
            final(self)@.wf(),
            r is Some <==> old(self)@.leftover.len() > 0,
            r matches Some(block) ==> block@ == old(self)@.last_block(),
    {
        let ghost before = self@;
        if self.leftover.len() == 0 {
            return None;
        }
        self.audio_samples = self.audio_samples + self.leftover.len();
        let mut block: Vec<i16> = Vec::new();
        std::mem::swap(&mut block, &mut self.leftover);
        let ghost kept = block@;
        while block.len() < self.blocksize
            invariant
                kept.len() <= block@.len() <= self.blocksize,
                block@ == kept + Seq::new((block@.len() - kept.len()) as nat, |i: int| 0i16),
            decreases self.blocksize - block@.len(),
        {
            block.push(0);
            assert(block@ =~= kept + Seq::new((block@.len() - kept.len()) as nat, |i: int| 0i16));
        }
        self.remember_tail(block.as_slice());
        assert(self@ =~= before.finished());
        Some(block)
    }

    /// Seconds of non-speech at the end of what has left, as far as it is
    /// remembered.
    pub fn trailing_nonspeech_seconds(&self) -> (r: Seconds)
        ensures
            r.sample_rate == divisor(self@.output_sample_rate),
            r.samples == self@.trailing_nonspeech(),
            r.samples <= self@.tail.len(),
    {
        if self.output_sample_rate == 0 {
            return Seconds { samples: 0, sample_rate: 1 };
        }
        let mut magnitudes: Vec<u32> = Vec::new();
        let mut i: usize = 0;
        while i < self.tail.len()
            invariant
                i <= self.tail@.len(),
                magnitudes@ == magnitudes_of(self.tail@.take(i as int)),
            decreases self.tail@.len() - i,
        {
            let s: i16 = self.tail[i];
            magnitudes.push(
                if s < 0 {
                    (-(s as i32)) as u32
                } else {
                    s as u32
                },
            );
            assert(magnitudes@ =~= magnitudes_of(self.tail@.take(i + 1)));
            i += 1;
        }
        assert(self.tail@.take(self.tail@.len() as int) =~= self.tail@);
        let samples: usize = count_quiet_tail(
            &magnitudes,
            block_size(self.output_sample_rate),
            PCM_SPEECH_LEVEL,
        );
        Seconds { samples, sample_rate: self.output_sample_rate }
    }
}

impl PcmState {
    /// The samples of non-speech at the end of what has left.
    pub open spec fn trailing_nonspeech(self) -> int {
        if self.output_sample_rate == 0 {
            0
        } else {
            quiet_tail(
                magnitudes_of(self.tail),
                block_len(self.output_sample_rate),
                PCM_SPEECH_LEVEL,
            )
        }
    }
}

// ---------------------------------------------------------------------------
// What streaming keeps
// ---------------------------------------------------------------------------

/// Every step keeps the stream well-formed.
pub proof fn steps_keep_wf(state: PcmState, pcm: Seq<i16>, ungated: bool)
    requires
        state.wf(),
    ensures
        state.pushed(pcm, ungated).wf(),
        state.finished().wf(),
{
    match state.admitted(pcm, ungated) {
        None => {},
        Some(more) => {
            lemma_whole(state.gathered(more).len() as int, state.blocksize);
        },
    }
}

/// Every block that leaves has the one size.
pub proof fn blocks_have_one_size(state: PcmState, pcm: Seq<i16>, ungated: bool, i: int)
    requires
        state.wf(),
        0 <= i < state.push_blocks(pcm, ungated).len(),
    ensures
        state.push_blocks(pcm, ungated)[i].len() == state.blocksize,
        state.last_block().len() == state.blocksize,
{
    let n = state.blocksize;
    let all = state.gathered(state.admitted(pcm, ungated)->0);
    lemma_whole(all.len() as int, n);
    assert(0 <= i * n && i * n + n <= all.len()) by (nonlinear_arith)
        requires
            0 <= i < all.len() as int / n,
            n >= 1,
            all.len() as int / n * n <= all.len(),
    ;
}

/// Nothing is lost or added on the way: the blocks that leave, and what remains
/// after them, are what had remained and what was admitted.
pub proof fn pushing_loses_nothing(state: PcmState, pcm: Seq<i16>, ungated: bool, more: Seq<i16>)
    requires
        state.wf(),
        state.admitted(pcm, ungated) == Some(more),
    ensures
        joined(state.push_blocks(pcm, ungated)) + state.pushed(pcm, ungated).leftover
            == state.leftover + more,
{
    let all = state.gathered(more);
    lemma_whole(all.len() as int, state.blocksize);
    blocks_lose_nothing(all, state.blocksize);
    assert(all.take(whole(all.len() as int, state.blocksize)) + all.skip(
        whole(all.len() as int, state.blocksize),
    ) =~= all);
}

/// Trimming leading silence never drops an audible sample: what is not admitted
/// lies at the front and is all inaudible.
pub proof fn trimming_drops_no_audible_sample(state: PcmState, pcm: Seq<i16>, ungated: bool)
    ensures
        match state.admitted(pcm, ungated) {
            None => forall|i: int| 0 <= i < pcm.len() ==> !audible(#[trigger] pcm[i]),
            Some(more) => {
                &&& more.len() <= pcm.len()
                &&& more == pcm.skip(pcm.len() - more.len())
                &&& forall|i: int|
                    0 <= i < pcm.len() - more.len() ==> !audible(#[trigger] pcm[i])
            },
        },
{
    lemma_first_audible(pcm, 0);
    if state.found_speech || ungated {
        assert(pcm.skip(0) =~= pcm);
    }
}

proof fn lemma_first_audible(pcm: Seq<i16>, from: int)
    requires
        0 <= from <= pcm.len(),
    ensures
        from <= first_audible(pcm, from) <= pcm.len(),
        forall|i: int| from <= i < first_audible(pcm, from) ==> !audible(#[trigger] pcm[i]),
    decreases pcm.len() - from,
{
    if from < pcm.len() && !audible(pcm[from]) {
        lemma_first_audible(pcm, from + 1);
    }
}

/// How the audio is cut into chunks does not matter: once the stream is open,
/// two chunks in a row do what the two put together do.
pub proof fn chunking_does_not_matter(state: PcmState, a: Seq<i16>, b: Seq<i16>, ungated: bool)
    requires
        state.wf(),
        state.found_speech || ungated,
    ensures
        state.pushed(a, ungated).pushed(b, ungated) == state.pushed(a + b, ungated),
        state.push_blocks(a, ungated) + state.pushed(a, ungated).push_blocks(b, ungated)
            == state.push_blocks(a + b, ungated),
{
    let n = state.blocksize;
    let first = state.leftover + a;
    let k = first.len() as int / n;
    let w = whole(first.len() as int, n);
    lemma_whole(first.len() as int, n);
    let rest = first.skip(w);
    let second = rest + b;
    let l = second.len() as int / n;
    let v = whole(second.len() as int, n);
    lemma_whole(second.len() as int, n);
    let both = state.leftover + (a + b);
    assert(both =~= first + b);
    assert(both =~= first.take(w) + second);
    assert((k + l) * n == k * n + l * n) by (nonlinear_arith);
    lemma_quotient(both.len() as int, n, k + l);
    let cap = tail_cap(state.output_sample_rate);
    lemma_last_samples(state.tail + first.take(w), second.take(v), cap);
    assert(state.tail + first.take(w) + second.take(v) =~= state.tail + both.take(w + v));
    assert(second.skip(v) =~= both.skip(w + v));
    assert(state.pushed(a, ungated).pushed(b, ungated) =~= state.pushed(a + b, ungated));
    assert(blocks_of(first, n) + blocks_of(second, n) =~= blocks_of(both, n)) by {
        assert forall|i: int| 0 <= i < k + l implies #[trigger] blocks_of(both, n)[i] == (blocks_of(
            first,
            n,
        ) + blocks_of(second, n))[i] by {
            if i < k {
                assert(0 <= i * n && i * n + n <= k * n) by (nonlinear_arith)
                    requires
                        0 <= i < k,
                        n >= 1,
                ;
                assert(both.subrange(i * n, i * n + n) =~= first.subrange(i * n, i * n + n));
            } else {
                let m = i - k;
                assert(0 <= m * n && m * n + n <= l * n && i * n == k * n + m * n)
                    by (nonlinear_arith)
                    requires
                        0 <= m < l,
                        n >= 1,
                        m == i - k,
                ;
                assert(both.subrange(i * n, i * n + n) =~= second.subrange(m * n, m * n + n));
            }
        }
    }
}

/// A stream after chunks have come one by one.
pub open spec fn after_chunks(state: PcmState, chunks: Seq<Seq<i16>>, ungated: bool) -> PcmState
    decreases chunks.len(),
{
    if chunks.len() == 0 {
        state
    } else {
        after_chunks(state, chunks.drop_last(), ungated).pushed(chunks.last(), ungated)
    }
}

/// The samples that have left after chunks have come one by one.
pub open spec fn sent_samples(state: PcmState, chunks: Seq<Seq<i16>>, ungated: bool) -> Seq<i16>
    decreases chunks.len(),
{
    if chunks.len() == 0 {
        Seq::empty()
    } else {
        sent_samples(state, chunks.drop_last(), ungated) + joined(
            after_chunks(state, chunks.drop_last(), ungated).push_blocks(chunks.last(), ungated),
        )
    }
}

/// The blocks that have left after chunks have come one by one.
pub open spec fn sent_blocks(
    state: PcmState,
    chunks: Seq<Seq<i16>>,
    ungated: bool,
) -> Seq<Seq<i16>>
    decreases chunks.len(),
{
    if chunks.len() == 0 {
        Seq::empty()
    } else {
        sent_blocks(state, chunks.drop_last(), ungated) + after_chunks(
            state,
            chunks.drop_last(),
            ungated,
        ).push_blocks(chunks.last(), ungated)
    }
}

proof fn lemma_joined(a: Seq<Seq<i16>>, b: Seq<Seq<i16>>)
    ensures
        joined(a + b) == joined(a) + joined(b),
    decreases b.len(),
{
    if b.len() == 0 {
        assert(a + b =~= a);
        assert(joined(a) + joined(b) =~= joined(a));
    } else {
        lemma_joined(a, b.drop_last());
        assert((a + b).drop_last() =~= a + b.drop_last());
        assert((joined(a) + joined(b.drop_last())) + b.last() =~= joined(a) + (joined(
            b.drop_last(),
        ) + b.last()));
    }
}

/// The blocks that have left all have the one size, and hold the samples that have
/// left.
pub proof fn sent_blocks_hold_the_samples(
    state: PcmState,
    chunks: Seq<Seq<i16>>,
    ungated: bool,
)
    requires
        state.wf(),
    ensures
        joined(sent_blocks(state, chunks, ungated)) == sent_samples(state, chunks, ungated),
        after_chunks(state, chunks, ungated).wf(),
        after_chunks(state, chunks, ungated).blocksize == state.blocksize,
        after_chunks(state, chunks, ungated).output_sample_rate == state.output_sample_rate,
        forall|i: int|
            0 <= i < sent_blocks(state, chunks, ungated).len() ==> (#[trigger] sent_blocks(
                state,
                chunks,
                ungated,
            )[i]).len() == state.blocksize,
    decreases chunks.len(),
{
    if chunks.len() > 0 {
        let earlier = chunks.drop_last();
        let before = after_chunks(state, earlier, ungated);
        let old_blocks = sent_blocks(state, earlier, ungated);
        let new_blocks = before.push_blocks(chunks.last(), ungated);
        sent_blocks_hold_the_samples(state, earlier, ungated);
        steps_keep_wf(before, chunks.last(), ungated);
        lemma_joined(old_blocks, new_blocks);
        let all = sent_blocks(state, chunks, ungated);
        assert forall|i: int| 0 <= i < all.len() implies (#[trigger] all[i]).len()
            == state.blocksize by {
            if i < old_blocks.len() {
                assert(all[i] == old_blocks[i]);
            } else {
                blocks_have_one_size(before, chunks.last(), ungated, i - old_blocks.len());
            }
        }
    }
}

/// From the first audible sample on, a stream carries all of the audio, in order
/// and once: what has left and what still waits is what has come, but for a front
/// part that is inaudible. What has left is counted, and its end is remembered.
pub proof fn stream_carries_the_audio(
    output_sample_rate: u32,
    blocksize: int,
    chunks: Seq<Seq<i16>>,
    ungated: bool,
)
    requires
        blocksize >= 1,
    ensures
        ({
            let state = after_chunks(
                PcmState::fresh(output_sample_rate, blocksize),
                chunks,
                ungated,
            );
            let sent = sent_samples(
                PcmState::fresh(output_sample_rate, blocksize),
                chunks,
                ungated,
            );
            let audio = joined(chunks);
            let carried = sent + state.leftover;
            &&& state.wf()
            &&& carried.len() <= audio.len()
            &&& carried == audio.skip(audio.len() - carried.len())
            &&& forall|i: int|
                0 <= i < audio.len() - carried.len() ==> !audible(#[trigger] audio[i])
            &&& ungated ==> carried == audio
            &&& state.audio_samples == sent.len()
            &&& state.tail == last_samples(sent, tail_cap(output_sample_rate))
            &&& !state.found_speech ==> carried.len() == 0
            &&& state.blocksize == blocksize
            &&& state.output_sample_rate == output_sample_rate
        }),
    decreases chunks.len(),
{
    let fresh = PcmState::fresh(output_sample_rate, blocksize);
    let cap = tail_cap(output_sample_rate);
    let audio = joined(chunks);
    let state = after_chunks(fresh, chunks, ungated);
    let sent = sent_samples(fresh, chunks, ungated);
    let carried = sent + state.leftover;
    if chunks.len() == 0 {
        assert(carried =~= audio.skip(0));
        assert(carried =~= audio);
        assert(state.tail =~= last_samples(sent, cap));
    } else {
        let earlier = chunks.drop_last();
        let pcm = chunks.last();
        stream_carries_the_audio(output_sample_rate, blocksize, earlier, ungated);
        let state0 = after_chunks(fresh, earlier, ungated);
        let sent0 = sent_samples(fresh, earlier, ungated);
        let audio0 = joined(earlier);
        let carried0 = sent0 + state0.leftover;
        assert(audio =~= audio0 + pcm);
        steps_keep_wf(state0, pcm, ungated);
        trimming_drops_no_audible_sample(state0, pcm, ungated);
        let d0 = audio0.len() - carried0.len();
        match state0.admitted(pcm, ungated) {
            None => {
                assert(joined(state0.push_blocks(pcm, ungated)) =~= Seq::empty());
                assert(sent =~= sent0);
                assert(carried =~= audio.skip(audio.len() as int));
                assert forall|i: int| 0 <= i < audio.len() implies !audible(#[trigger] audio[i]) by {
                    if i < audio0.len() {
                        assert(!audible(audio0[i]));
                    } else {
                        assert(!audible(pcm[i - audio0.len()]));
                    }
                }
            },
            Some(more) => {
                let blocks = joined(state0.push_blocks(pcm, ungated));
                pushing_loses_nothing(state0, pcm, ungated, more);
                assert(carried =~= carried0 + more) by {
                    assert(carried =~= sent0 + (blocks + state.leftover));
                }
                blocks_lose_nothing(state0.gathered(more), blocksize);
                let n = whole(state0.gathered(more).len() as int, blocksize);
                lemma_whole(state0.gathered(more).len() as int, blocksize);
                lemma_last_samples(sent0, blocks, cap);
                assert(state.tail == last_samples(sent, cap));
                let d = audio.len() - carried.len();
                if state0.found_speech || ungated {
                    assert(more =~= pcm);
                    assert(carried =~= audio.skip(d));
                    assert forall|i: int| 0 <= i < d implies !audible(#[trigger] audio[i]) by {
                        assert(!audible(audio0[i]));
                    }
                } else {
                    assert(carried0.len() == 0);
                    assert(carried =~= audio.skip(d));
                    assert forall|i: int| 0 <= i < d implies !audible(#[trigger] audio[i]) by {
                        if i < audio0.len() {
                            assert(!audible(audio0[i]));
                        } else {
                            assert(!audible(pcm[i - audio0.len()]));
                        }
                    }
                }
                if ungated {
                    assert(carried =~= audio);
                }
            },
        }
    }
}

/// Where a stream opens: with the first chunk that holds a sample of a magnitude above
/// 163, eighty milliseconds before the first such sample, or at the front of the chunk
/// if that is nearer. A chunk without one is not admitted, and once the stream is open
/// a chunk is admitted whole.
pub proof fn stream_opens_before_speech(state: PcmState, pcm: Seq<i16>, f: int)
    requires
        0 <= f <= pcm.len(),
        forall|i: int| 0 <= i < f ==> -163 <= #[trigger] pcm[i] <= 163,
        f < pcm.len() ==> pcm[f] < -163 || pcm[f] > 163,
    ensures
        !state.found_speech ==> state.admitted(pcm, false) == (if f == pcm.len() {
            None
        } else {
            let kept = state.output_sample_rate as int * 2 / 25;
            Some(
                pcm.subrange(
                    if f < kept {
                        0
                    } else {
                        f - kept
                    },
                    pcm.len() as int,
                ),
            )
        }),
        state.found_speech ==> state.admitted(pcm, false) == Some(pcm),
        state.admitted(pcm, true) == Some(pcm),
{
    lemma_first_audible(pcm, 0);
    let g = first_audible(pcm, 0);
    if g < f {
        assert(-163 <= pcm[g] <= 163);
        lemma_first_audible_is_audible(pcm, 0);
    } else if f < g {
        assert(!audible(pcm[f]));
    }
    if f < pcm.len() {
        let kept = state.output_sample_rate as int * 2 / 25;
        let from = if f < kept {
            0
        } else {
            f - kept
        };
        assert(pcm.subrange(from, pcm.len() as int) =~= pcm.skip(from));
    }
}

proof fn lemma_first_audible_is_audible(pcm: Seq<i16>, from: int)
    requires
        0 <= from <= pcm.len(),
        first_audible(pcm, from) < pcm.len(),
    ensures
        audible(pcm[first_audible(pcm, from)]),
    decreases pcm.len() - from,
{
    if !audible(pcm[from]) {
        lemma_first_audible_is_audible(pcm, from + 1);
    }
}

/// Half a percent of full scale is what is audible.
pub proof fn audible_is_above_163(sample: i16)
    ensures
        audible(sample) <==> sample < -163 || sample > 163,
{
}

/// The end of `s`: its last `n` samples, or all there are.
pub open spec fn end_of(s: Seq<i16>, n: int) -> Seq<i16> {
    s.subrange(
        if s.len() < n {
            0
        } else {
            s.len() - n
        },
        s.len() as int,
    )
}

/// A stream remembers the last thirty seconds of what has left, or all of it, at any
/// time and at its end.
pub proof fn stream_remembers_thirty_seconds(
    output_sample_rate: u32,
    blocksize: int,
    chunks: Seq<Seq<i16>>,
    ungated: bool,
)
    requires
        blocksize >= 1,
    ensures
        ({
            let fresh = PcmState::fresh(output_sample_rate, blocksize);
            let state = after_chunks(fresh, chunks, ungated);
            let sent = sent_samples(fresh, chunks, ungated);
            &&& state.tail == end_of(sent, 30 * output_sample_rate)
            &&& state.finished().tail == end_of(
                if state.leftover.len() == 0 {
                    sent
                } else {
                    sent + state.last_block()
                },
                30 * output_sample_rate,
            )
        }),
{
    let fresh = PcmState::fresh(output_sample_rate, blocksize);
    let state = after_chunks(fresh, chunks, ungated);
    let sent = sent_samples(fresh, chunks, ungated);
    let cap = tail_cap(output_sample_rate);
    stream_carries_the_audio(output_sample_rate, blocksize, chunks, ungated);
    assert(cap == 30 * output_sample_rate);
    lemma_last_samples(sent, state.last_block(), cap);
    lemma_end_of(sent, cap);
    lemma_end_of(sent + state.last_block(), cap);
}

proof fn lemma_end_of(s: Seq<i16>, n: int)
    requires
        n >= 0,
    ensures
        last_samples(s, n) == end_of(s, n),
{
    assert(last_samples(s, n) =~= end_of(s, n));
}

/// The non-speech at the end of what is remembered, in samples: no sample of it is of
/// a magnitude above 655, two percent of full scale; all of it is found, but for a
/// part of a block of five milliseconds.
pub proof fn stream_measures_its_tail(state: PcmState, m: int)
    requires
        state.output_sample_rate > 0,
        0 <= m <= state.tail.len(),
    ensures
        ({
            let t = state.trailing_nonspeech();
            &&& 0 <= t <= state.tail.len()
            &&& forall|i: int|
                state.tail.len() - t <= i < state.tail.len() ==> -655 <= #[trigger] state.tail[i]
                    <= 655
            &&& (forall|i: int|
                state.tail.len() - m <= i < state.tail.len() ==> -655 <= #[trigger] state.tail[i]
                    <= 655) ==> t > m - five_ms(state.output_sample_rate)
            &&& t > 0 ==> (state.tail.len() - t) % five_ms(state.output_sample_rate) == 0
            &&& t < state.tail.len() ==> exists|i: int|
                {
                    &&& 0 <= i < state.tail.len() - t
                    &&& i >= state.tail.len() - t - five_ms(state.output_sample_rate)
                    &&& #[trigger] state.tail[i] < -655 || state.tail[i] > 655
                }
        }),
{
    let n = five_ms(state.output_sample_rate);
    let levels = magnitudes_of(state.tail);
    blocks_are_five_ms(state.output_sample_rate);
    quiet_tail_is_maximal(levels, n, 655);
    let t = state.trailing_nonspeech();
    assert forall|i: int| state.tail.len() - t <= i < state.tail.len() implies -655
        <= #[trigger] state.tail[i] <= 655 by {
        assert(levels[i] <= 655);
    }
    if t < state.tail.len() {
        let from = levels.len() - t;
        let i = choose|i: int| from - n <= i < from && 0 <= i && #[trigger] levels[i] > 655;
        assert(state.tail[i] < -655 || state.tail[i] > 655);
    }
    if forall|i: int|
        state.tail.len() - m <= i < state.tail.len() ==> -655 <= #[trigger] state.tail[i] <= 655 {
        assert forall|i: int| levels.len() - m <= i < levels.len() implies #[trigger] levels[i]
            <= 655 by {
            assert(-655 <= state.tail[i] <= 655);
        }
        quiet_tail_is_found(levels, n, 655, m);
    }
}

/// PCM bytes are sixteen bits each, least significant first, in two's complement.
pub proof fn pcm_bytes_are_little_endian(samples: Seq<i16>, i: int)
    requires
        0 <= i < samples.len(),
    ensures
        pcm_bytes(samples).len() == 2 * samples.len(),
        pcm_bytes(samples)[2 * i] + 256 * pcm_bytes(samples)[2 * i + 1] == (if samples[i] < 0 {
            65536 + samples[i]
        } else {
            samples[i] as int
        }),
{
    assert((2 * i) / 2 == i && (2 * i + 1) / 2 == i);
    assert((2 * i) % 2 == 0 && (2 * i + 1) % 2 == 1);
}

/// The last block is what remains, and then silence.
pub proof fn last_block_is_filled_up(state: PcmState, i: int)
    requires
        state.wf(),
        0 <= i < state.blocksize,
    ensures
        state.last_block().len() == state.blocksize,
        state.last_block()[i] == (if i < state.leftover.len() {
            state.leftover[i]
        } else {
            0
        }),
{
}

/// A stream begins closed and empty, and at its end what remains is counted, but not
/// what it is filled up with.
pub proof fn streams_begin_empty(output_sample_rate: u32, blocksize: int, state: PcmState)
    ensures
        ({
            let fresh = PcmState::fresh(output_sample_rate, blocksize);
            &&& !fresh.found_speech
            &&& fresh.leftover.len() == 0
            &&& fresh.tail.len() == 0
            &&& fresh.audio_samples == 0
            &&& fresh.blocksize == blocksize
            &&& fresh.output_sample_rate == output_sample_rate
        }),
        state.finished().audio_samples == state.audio_samples + state.leftover.len(),
        state.finished().leftover.len() == 0,
{
}

/// Exactly the silence in front is left out: if chunk `c` is the first that holds a
/// sample of a magnitude above 163, and sample `f` of it is the first such, then all
/// audio is carried from eighty milliseconds before that sample on, or from the front
/// of its chunk.
pub proof fn silence_in_front_is_left_out(
    output_sample_rate: u32,
    blocksize: int,
    chunks: Seq<Seq<i16>>,
    c: int,
    f: int,
)
    requires
        blocksize >= 1,
        0 <= c < chunks.len(),
        forall|k: int, i: int|
            0 <= k < c && 0 <= i < chunks[k].len() ==> -163 <= #[trigger] chunks[k][i] <= 163,
        0 <= f < chunks[c].len(),
        forall|i: int| 0 <= i < f ==> -163 <= #[trigger] chunks[c][i] <= 163,
        chunks[c][f] < -163 || chunks[c][f] > 163,
    ensures
        ({
            let fresh = PcmState::fresh(output_sample_rate, blocksize);
            let state = after_chunks(fresh, chunks, false);
            let kept = output_sample_rate as int * 2 / 25;
            let from = joined(chunks.take(c)).len() + (if f < kept {
                0
            } else {
                f - kept
            });
            &&& state.found_speech
            &&& from <= joined(chunks).len()
            &&& sent_samples(fresh, chunks, false) + state.leftover == joined(chunks).skip(from)
        }),
    decreases chunks.len(),
{
    let fresh = PcmState::fresh(output_sample_rate, blocksize);
    let earlier = chunks.drop_last();
    let pcm = chunks.last();
    let kept = output_sample_rate as int * 2 / 25;
    let front = if f < kept {
        0
    } else {
        f - kept
    };
    let state0 = after_chunks(fresh, earlier, false);
    let sent0 = sent_samples(fresh, earlier, false);
    stream_carries_the_audio(output_sample_rate, blocksize, earlier, false);
    if c == chunks.len() - 1 {
        assert(chunks.take(c) =~= earlier);
        assert forall|k: int, i: int| 0 <= k < earlier.len() && 0 <= i < earlier[k].len() implies -163
            <= #[trigger] earlier[k][i] <= 163 by {
            assert(-163 <= chunks[k][i] <= 163);
        }
        lemma_silence_is_held_back(output_sample_rate, blocksize, earlier);
        stream_opens_before_speech(state0, pcm, f);
        let more = pcm.subrange(front, pcm.len() as int);
        pushing_loses_nothing(state0, pcm, false, more);
        let from = joined(earlier).len() + front;
        assert(joined(chunks) =~= joined(earlier) + pcm);
        assert(joined(chunks).skip(from) =~= more);
        assert(sent_samples(fresh, chunks, false) + after_chunks(fresh, chunks, false).leftover
            =~= more);
    } else {
        assert forall|k: int, i: int| 0 <= k < c && 0 <= i < earlier[k].len() implies -163
            <= #[trigger] earlier[k][i] <= 163 by {
            assert(-163 <= chunks[k][i] <= 163);
        }
        assert(earlier[c] == chunks[c]);
        assert forall|i: int| 0 <= i < f implies -163 <= #[trigger] earlier[c][i] <= 163 by {
            assert(-163 <= chunks[c][i] <= 163);
        }
        silence_in_front_is_left_out(output_sample_rate, blocksize, earlier, c, f);
        assert(earlier.take(c) =~= chunks.take(c));
        let from = joined(chunks.take(c)).len() + front;
        assert(state0.admitted(pcm, false) == Some(pcm));
        pushing_loses_nothing(state0, pcm, false, pcm);
        assert(joined(chunks) =~= joined(earlier) + pcm);
        assert(joined(chunks).skip(from) =~= joined(earlier).skip(from) + pcm);
        let blocks = joined(state0.push_blocks(pcm, false));
        let left = after_chunks(fresh, chunks, false).leftover;
        assert((sent0 + blocks) + left =~= sent0 + (blocks + left));
        assert(sent0 + (state0.leftover + pcm) =~= (sent0 + state0.leftover) + pcm);
    }
}

proof fn lemma_silence_is_held_back(
    output_sample_rate: u32,
    blocksize: int,
    chunks: Seq<Seq<i16>>,
)
    requires
        forall|k: int, i: int|
            0 <= k < chunks.len() && 0 <= i < chunks[k].len() ==> -163 <= #[trigger] chunks[k][i]
                <= 163,
    ensures
        after_chunks(PcmState::fresh(output_sample_rate, blocksize), chunks, false)
            == PcmState::fresh(output_sample_rate, blocksize),
        sent_samples(PcmState::fresh(output_sample_rate, blocksize), chunks, false) == Seq::<
            i16,
        >::empty(),
    decreases chunks.len(),
{
    let fresh = PcmState::fresh(output_sample_rate, blocksize);
    if chunks.len() > 0 {
        let earlier = chunks.drop_last();
        let pcm = chunks.last();
        assert forall|k: int, i: int| 0 <= k < earlier.len() && 0 <= i < earlier[k].len() implies -163
            <= #[trigger] earlier[k][i] <= 163 by {
            assert(-163 <= chunks[k][i] <= 163);
        }
        lemma_silence_is_held_back(output_sample_rate, blocksize, earlier);
        let last = chunks.len() - 1;
        assert forall|i: int| 0 <= i < pcm.len() implies -163 <= #[trigger] pcm[i] <= 163 by {
            assert(-163 <= chunks[last][i] <= 163);
        }
        stream_opens_before_speech(fresh, pcm, pcm.len() as int);
        assert(joined(fresh.push_blocks(pcm, false)) =~= Seq::empty());
        assert(sent_samples(fresh, chunks, false) =~= Seq::empty());
    }
}

/// Block `i` of a stream holds the samples from `i` times the size on.
pub proof fn blocks_are_in_order(s: Seq<i16>, n: int, i: int, k: int)
    requires
        n >= 1,
        0 <= i,
        i * n + n <= s.len(),
        0 <= k < n,
    ensures
        i < blocks_of(s, n).len(),
        blocks_of(s, n)[i].len() == n,
        blocks_of(s, n)[i][k] == s[i * n + k],
        blocks_of(s, n).len() * n <= s.len() < blocks_of(s, n).len() * n + n,
{
    let len = s.len() as int;
    let q = len / n;
    vstd::arithmetic::div_mod::lemma_fundamental_div_mod(len, n);
    vstd::arithmetic::div_mod::lemma_div_pos_is_pos(len, n);
    assert(n * q == q * n) by (nonlinear_arith);
    assert(i < q) by (nonlinear_arith)
        requires
            i * n + n <= len,
            len < n * q + n,
            n >= 1,
    ;
    assert(i * n >= 0) by (nonlinear_arith)
        requires
            i >= 0,
            n >= 1,
    ;
}

/// Without a rate there is no tail.
pub proof fn no_rate_no_stream_tail(state: PcmState)
    requires
        state.output_sample_rate == 0,
    ensures
        state.trailing_nonspeech() == 0,
{
}

} // verus!
