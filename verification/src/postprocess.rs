//! Audio output cleanup shared by the worker and the CLI.
//!
//! Everything here works on blocks of five milliseconds and on the peak of each
//! block. Levels are magnitudes as bit patterns (see [`crate::sample`]), so the
//! thresholds below are the patterns of the numbers that their comments give.

use crate::doubles::{
    count_samples, is_at_most, is_difference, nearly_all_is_left, no_more_is_left, seconds_beyond,
    whole_samples,
};
use crate::sample::{Double, Sample};
use crate::scaling::{fade_in, fades_in, fading_is_determined, fading_only_attenuates};
use crate::seconds::Seconds;
use vstd::arithmetic::power2::pow2;
use vstd::prelude::*;

verus! {

/// 0.02: louder blocks may be speech.
pub const SPEECH_LEVEL: u32 = 0x3ca3_d70a;

/// 0.03: louder blocks may be clicks.
pub const CLICK_LEVEL: u32 = 0x3cf5_c28f;

/// 0.004: blocks that are not louder are silence.
pub const QUIET_LEVEL: u32 = 0x3b83_126f;

/// The window, in blocks, in which speech has to be dense (120 ms).
pub const ONSET_WINDOW: usize = 24;

/// How many blocks of the window have to be loud (40 ms).
pub const ONSET_LOUD: usize = 8;

/// The longest burst, in blocks, that is taken for a click (50 ms).
pub const CLICK_BLOCKS: usize = 10;

// ---------------------------------------------------------------------------
// Blocks and their peaks
// ---------------------------------------------------------------------------

/// The samples in a block of five milliseconds, at least one.
pub open spec fn block_len(sample_rate: u32) -> int {
    if sample_rate * 5 / 1000 < 1 {
        1
    } else {
        sample_rate * 5 / 1000
    }
}

/// The samples in a block of five milliseconds.
pub fn block_size(sample_rate: u32) -> (r: usize)
    ensures
        r == block_len(sample_rate),
        1 <= r <= 0x200_0000,
{
    let n: u64 = sample_rate as u64 * 5 / 1000;
    if n < 1 {
        1
    } else {
        n as usize
    }
}

/// How loud each sample is.
pub open spec fn levels_of(samples: Seq<Sample>) -> Seq<u32> {
    samples.map_values(|s: Sample| s.loudness())
}

/// How loud each sample is.
pub fn levels(samples: &Vec<Sample>) -> (r: Vec<u32>)
    ensures
        r@ == levels_of(samples@),
{
    let mut r: Vec<u32> = Vec::new();
    let mut i: usize = 0;
    while i < samples.len()
        invariant
            0 <= i <= samples@.len(),
            r@ == levels_of(samples@.take(i as int)),
        decreases samples@.len() - i,
    {
        r.push(samples[i].level());
        assert(r@ =~= levels_of(samples@.take(i + 1)));
        i += 1;
    }
    assert(samples@.take(samples@.len() as int) =~= samples@);
    r
}

/// The greatest of `levels`, or zero.
pub open spec fn peak(levels: Seq<u32>) -> u32
    decreases levels.len(),
{
    if levels.len() == 0 {
        0
    } else if levels.last() > peak(levels.drop_last()) {
        levels.last()
    } else {
        peak(levels.drop_last())
    }
}

/// How many blocks of `block` it takes to cover `len`.
pub open spec fn block_count(len: int, block: int) -> int {
    (len + block - 1) / block
}

/// Where block `j` begins, no further than the end.
pub open spec fn block_start(len: int, block: int, j: int) -> int {
    if j * block < len {
        j * block
    } else {
        len
    }
}

/// The levels of block `j`; the last block may be shorter.
pub open spec fn block_levels(levels: Seq<u32>, block: int, j: int) -> Seq<u32> {
    levels.subrange(
        block_start(levels.len() as int, block, j),
        block_start(levels.len() as int, block, j + 1),
    )
}

/// The peak of each block.
pub open spec fn peaks_of(levels: Seq<u32>, block: int) -> Seq<u32> {
    Seq::new(
        block_count(levels.len() as int, block) as nat,
        |j: int| peak(block_levels(levels, block, j)),
    )
}

/// Block boundaries are in order and within bounds.
pub(crate) proof fn lemma_block_start(len: int, block: int, j: int)
    requires
        len >= 0,
        block >= 1,
        j >= 0,
    ensures
        0 <= block_start(len, block, j) <= block_start(len, block, j + 1) <= len,
        (j + 1) * block == j * block + block,
{
    assert(j * block >= 0) by (nonlinear_arith)
        requires
            j >= 0,
            block >= 1,
    ;
    assert((j + 1) * block == j * block + block) by (nonlinear_arith);
}

/// The number of blocks is the first that reaches the end.
proof fn lemma_block_count(len: int, block: int, k: int)
    requires
        len >= 0,
        block >= 1,
        k >= 0,
        k * block >= len,
        k == 0 || (k - 1) * block < len,
    ensures
        block_count(len, block) == k,
{
    if k == 0 {
        assert(len == 0) by (nonlinear_arith)
            requires
                k == 0,
                k * block >= len,
                len >= 0,
        ;
        assert(block_count(0, block) == 0) by {
            vstd::arithmetic::div_mod::lemma_basic_div(block - 1, block);
        }
    } else {
        let r = len + block - 1 - k * block;
        assert((k - 1) * block == k * block - block) by (nonlinear_arith);
        assert(0 <= r < block);
        vstd::arithmetic::div_mod::lemma_fundamental_div_mod_converse(
            len + block - 1,
            block,
            k,
            r,
        );
    }
}

/// The peak of each block.
pub fn block_peaks(levels: &Vec<u32>, block: usize) -> (r: Vec<u32>)
    requires
        block >= 1,
    ensures
        r@ == peaks_of(levels@, block as int),
{
    let mut r: Vec<u32> = Vec::new();
    let mut pos: usize = 0;
    while pos < levels.len()
        invariant
            block >= 1,
            pos == block_start(levels@.len() as int, block as int, r@.len() as int),
            r@.len() == 0 || (r@.len() - 1) * block < levels@.len(),
            forall|j: int|
                0 <= j < r@.len() ==> r@[j] == peak(
                    #[trigger] block_levels(levels@, block as int, j),
                ),
        decreases levels@.len() - pos,
    {
        let ghost k = r@.len() as int;
        proof {
            lemma_block_start(levels@.len() as int, block as int, k);
        }
        let end: usize = if levels.len() - pos > block {
            pos + block
        } else {
            levels.len()
        };
        let mut top: u32 = 0;
        let mut i: usize = pos;
        while i < end
            invariant
                pos <= i <= end <= levels@.len(),
                top == peak(levels@.subrange(pos as int, i as int)),
            decreases end - i,
        {
            assert(levels@.subrange(pos as int, i + 1).drop_last() =~= levels@.subrange(
                pos as int,
                i as int,
            ));
            if levels[i] > top {
                top = levels[i];
            }
            i += 1;
        }
        assert(end == block_start(levels@.len() as int, block as int, k + 1));
        assert(top == peak(block_levels(levels@, block as int, k)));
        r.push(top);
        pos = end;
    }
    proof {
        let n = levels@.len() as int;
        let k = r@.len() as int;
        assert(k * block >= n);
        lemma_block_count(n, block as int, k);
        assert(r@ =~= peaks_of(levels@, block as int)) by {
            assert forall|j: int| 0 <= j < k implies r@[j] == peaks_of(levels@, block as int)[j] by {
                let _ = block_levels(levels@, block as int, j);
            }
        }
    }
    r
}

// ---------------------------------------------------------------------------
// Leading non-speech
// ---------------------------------------------------------------------------

/// How many of the blocks from `from` to before `to` are loud enough for speech.
pub open spec fn loud_blocks(peaks: Seq<u32>, from: int, to: int) -> nat
    decreases to - from,
{
    if from >= to {
        0
    } else {
        loud_blocks(peaks, from, to - 1) + (if peaks[to - 1] > SPEECH_LEVEL {
            1nat
        } else {
            0
        })
    }
}

/// Where the window that begins at block `i` ends.
pub open spec fn window_end(peaks: Seq<u32>, i: int) -> int {
    if i + ONSET_WINDOW < peaks.len() {
        i + ONSET_WINDOW
    } else {
        peaks.len() as int
    }
}

/// Whether the window from block `i` is dense with loud blocks, or too short to
/// tell: speech may then go on in the next chunk.
pub open spec fn sustained(peaks: Seq<u32>, i: int) -> bool {
    ||| window_end(peaks, i) - i < ONSET_LOUD
    ||| loud_blocks(peaks, i, window_end(peaks, i)) >= ONSET_LOUD
}

/// Whether speech sets in at block `i`: a run of loud blocks begins there, and it
/// is sustained.
pub open spec fn is_onset(peaks: Seq<u32>, i: int) -> bool {
    &&& 0 <= i < peaks.len()
    &&& peaks[i] > SPEECH_LEVEL
    &&& i == 0 || peaks[i - 1] <= SPEECH_LEVEL
    &&& sustained(peaks, i)
}

/// The first onset of speech at or after block `from`, or the end.
pub open spec fn first_onset(peaks: Seq<u32>, from: int) -> int
    decreases peaks.len() - from,
{
    if from >= peaks.len() {
        peaks.len() as int
    } else if is_onset(peaks, from) {
        from
    } else {
        first_onset(peaks, from + 1)
    }
}

/// Where the blocks above silence begin that lead up to block `i`.
pub open spec fn lead_in(peaks: Seq<u32>, i: int) -> int
    decreases i,
{
    if i > 0 && peaks[i - 1] > QUIET_LEVEL {
        lead_in(peaks, i - 1)
    } else {
        i
    }
}

/// Where speech truly starts: the onset with the breath or unvoiced plosive that
/// leads up to it.
pub open spec fn speech_start(peaks: Seq<u32>) -> int {
    lead_in(peaks, first_onset(peaks, 0))
}

/// Whether the blocks from `a` to before `b` are a whole run of blocks above
/// silence before `limit`.
pub open spec fn is_run(peaks: Seq<u32>, limit: int, a: int, b: int) -> bool {
    &&& 0 <= a < b <= limit
    &&& forall|j: int| a <= j < b ==> #[trigger] peaks[j] > QUIET_LEVEL
    &&& a == 0 || peaks[a - 1] <= QUIET_LEVEL
    &&& b == limit || peaks[b] <= QUIET_LEVEL
}

/// Whether the blocks from `a` to before `b` are a click: a short run with a loud
/// block in it that stands in silence before speech.
pub open spec fn is_click(peaks: Seq<u32>, a: int, b: int) -> bool {
    &&& is_run(peaks, speech_start(peaks), a, b)
    &&& b - a <= CLICK_BLOCKS
    &&& exists|c: int| a <= c < b && #[trigger] peaks[c] > CLICK_LEVEL
}

/// Whether block `j` is part of a click.
pub open spec fn in_click(peaks: Seq<u32>, j: int) -> bool {
    exists|a: int, b: int| a <= j < b && #[trigger] is_click(peaks, a, b)
}

/// The samples with every click in the leading silence zeroed, and nothing else
/// changed.
pub open spec fn gated(samples: Seq<Sample>, sample_rate: u32) -> Seq<Sample> {
    let block = block_len(sample_rate);
    let peaks = peaks_of(levels_of(samples), block);
    Seq::new(
        samples.len(),
        |i: int|
            if in_click(peaks, i / block) {
                Sample::silence()
            } else {
                samples[i]
            },
    )
}

/// How many samples the fade at the very start takes: three milliseconds.
pub open spec fn fade_len(len: nat, sample_rate: u32) -> int {
    if sample_rate * 3 / 1000 < len {
        sample_rate * 3 / 1000
    } else {
        len as int
    }
}

/// Whether `after` is `before` with leading non-speech gated: clicks are zeroed,
/// and the very start is faded in.
pub open spec fn is_cleaned(after: Seq<Sample>, before: Seq<Sample>, sample_rate: u32) -> bool {
    fades_in(after, gated(before, sample_rate), fade_len(before.len(), sample_rate))
}

proof fn lemma_first_onset_bounds(peaks: Seq<u32>, from: int)
    requires
        0 <= from <= peaks.len(),
    ensures
        from <= first_onset(peaks, from) <= peaks.len(),
    decreases peaks.len() - from,
{
    if from < peaks.len() && !is_onset(peaks, from) {
        lemma_first_onset_bounds(peaks, from + 1);
    }
}

/// What the first onset is: an onset or the end, with none before it.
pub(crate) proof fn lemma_first_onset_is(peaks: Seq<u32>, from: int)
    requires
        0 <= from <= peaks.len(),
    ensures
        from <= first_onset(peaks, from) <= peaks.len(),
        first_onset(peaks, from) < peaks.len() ==> is_onset(peaks, first_onset(peaks, from)),
        forall|j: int| from <= j < first_onset(peaks, from) ==> !#[trigger] is_onset(peaks, j),
    decreases peaks.len() - from,
{
    if from < peaks.len() && !is_onset(peaks, from) {
        lemma_first_onset_is(peaks, from + 1);
    }
}

/// Blocks inside a loud run are skipped in the search for the onset.
proof fn lemma_first_onset_skip(peaks: Seq<u32>, from: int, to: int)
    requires
        0 <= from <= to <= peaks.len(),
        forall|j: int| from <= j < to ==> !#[trigger] is_onset(peaks, j),
    ensures
        first_onset(peaks, from) == first_onset(peaks, to),
    decreases to - from,
{
    if from < to {
        assert(!is_onset(peaks, from));
        lemma_first_onset_skip(peaks, from + 1, to);
    }
}

pub(crate) proof fn lemma_lead_in(peaks: Seq<u32>, i: int)
    requires
        0 <= i <= peaks.len(),
    ensures
        0 <= lead_in(peaks, i) <= i,
        lead_in(peaks, i) > 0 ==> peaks[lead_in(peaks, i) - 1] <= QUIET_LEVEL,
        forall|j: int| lead_in(peaks, i) <= j < i ==> #[trigger] peaks[j] > QUIET_LEVEL,
    decreases i,
{
    if i > 0 && peaks[i - 1] > QUIET_LEVEL {
        lemma_lead_in(peaks, i - 1);
    }
}

/// Two runs that share a block are the same run.
proof fn lemma_run_unique(peaks: Seq<u32>, limit: int, a: int, b: int, c: int, d: int, j: int)
    requires
        is_run(peaks, limit, a, b),
        is_run(peaks, limit, c, d),
        a <= j < b,
        c <= j < d,
        limit <= peaks.len(),
    ensures
        a == c,
        b == d,
{
    if a < c {
        assert(peaks[c - 1] > QUIET_LEVEL);
    }
    if c < a {
        assert(peaks[a - 1] > QUIET_LEVEL);
    }
    if b < d {
        assert(peaks[b] > QUIET_LEVEL);
    }
    if d < b {
        assert(peaks[d] > QUIET_LEVEL);
    }
}

/// The first onset of speech.
fn find_onset(peaks: &Vec<u32>) -> (r: usize)
    ensures
        r == first_onset(peaks@, 0),
        r <= peaks@.len(),
{
    let n: usize = peaks.len();
    let mut i: usize = 0;
    while i < n
        invariant
            n == peaks@.len(),
            i <= n,
            i == 0 || i == n || peaks@[i - 1] <= SPEECH_LEVEL,
            first_onset(peaks@, 0) == first_onset(peaks@, i as int),
        decreases n - i,
    {
        if peaks[i] <= SPEECH_LEVEL {
            assert(!is_onset(peaks@, i as int));
            i += 1;
            continue ;
        }
        let end: usize = if n - i > ONSET_WINDOW {
            i + ONSET_WINDOW
        } else {
            n
        };
        let mut loud: usize = 0;
        let mut j: usize = i;
        while j < end
            invariant
                i <= j <= end <= n == peaks@.len(),
                loud == loud_blocks(peaks@, i as int, j as int),
                loud <= j - i,
            decreases end - j,
        {
            if peaks[j] > SPEECH_LEVEL {
                loud += 1;
            }
            j += 1;
        }
        if end - i < ONSET_LOUD || loud >= ONSET_LOUD {
            assert(is_onset(peaks@, i as int));
            return i;
        }
        let mut run_end: usize = i;
        while run_end < n && peaks[run_end] > SPEECH_LEVEL
            invariant
                i <= run_end <= n == peaks@.len(),
                forall|k: int| i <= k < run_end ==> #[trigger] peaks@[k] > SPEECH_LEVEL,
            decreases n - run_end,
        {
            run_end += 1;
        }
        proof {
            assert forall|k: int| i <= k < run_end implies !#[trigger] is_onset(peaks@, k) by {
                if k > i {
                    assert(peaks@[k - 1] > SPEECH_LEVEL);
                }
            }
            lemma_first_onset_skip(peaks@, i as int, run_end as int);
            if run_end < n {
                assert(!is_onset(peaks@, run_end as int));
                lemma_first_onset_skip(peaks@, run_end as int, run_end + 1);
            }
        }
        // Block `run_end` is not loud, so the search goes on behind it.
        i = if run_end < n {
            run_end + 1
        } else {
            n
        };
    }
    i
}

/// Where the blocks above silence begin that lead up to block `i`.
fn find_lead_in(peaks: &Vec<u32>, i: usize) -> (r: usize)
    requires
        i <= peaks@.len(),
    ensures
        r == lead_in(peaks@, i as int),
        r <= i,
{
    let mut r: usize = i;
    while r > 0 && peaks[r - 1] > QUIET_LEVEL
        invariant
            r <= i <= peaks@.len(),
            lead_in(peaks@, r as int) == lead_in(peaks@, i as int),
        decreases r,
    {
        r -= 1;
    }
    r
}

/// Whether block `j` is part of a click that has a loud block before `index`.
spec fn zeroed_before(peaks: Seq<u32>, index: int, j: int) -> bool {
    exists|a: int, b: int, c: int|
        a <= j < b && c < index && a <= c < b && #[trigger] is_click(peaks, a, b)
            && #[trigger] peaks[c] > CLICK_LEVEL
}

/// The samples with the clicks zeroed that have a loud block before `index`.
spec fn gated_before(samples: Seq<Sample>, peaks: Seq<u32>, block: int, index: int) -> Seq<Sample> {
    Seq::new(
        samples.len(),
        |i: int|
            if zeroed_before(peaks, index, i / block) {
                Sample::silence()
            } else {
                samples[i]
            },
    )
}

/// Which blocks the positions of a stretch of samples belong to.
proof fn lemma_block_of(i: int, block: int, a: int, b: int)
    requires
        block >= 1,
        i >= 0,
    ensures
        a * block <= i < b * block <==> a <= i / block < b,
{
    vstd::arithmetic::div_mod::lemma_fundamental_div_mod(i, block);
    let q = i / block;
    let r = i % block;
    assert(0 <= r < block);
    assert(i == block * q + r);
    assert(a * block <= i <==> a <= q) by (nonlinear_arith)
        requires
            i == block * q + r,
            0 <= r < block,
    ;
    assert(i < b * block <==> q < b) by (nonlinear_arith)
        requires
            i == block * q + r,
            0 <= r < block,
    ;
}

/// Zeroes the samples of the blocks from `a` to before `b`.
fn zero_blocks(samples: &mut Vec<Sample>, block: usize, a: usize, b: usize)
    requires
        block >= 1,
        a < b,
        (b - 1) * block < old(samples)@.len(),
    ensures
        final(samples)@.len() == old(samples)@.len(),
        forall|i: int|
            0 <= i < old(samples)@.len() ==> #[trigger] final(samples)@[i] == if a <= i / (
            block as int) < b {
                Sample::silence()
            } else {
                old(samples)@[i]
            },
{
    let n: usize = samples.len();
    proof {
        assert(0 <= a * block <= (b - 1) * block) by (nonlinear_arith)
            requires
                0 <= a <= b - 1,
                block >= 1,
        ;
        assert(b * block == (b - 1) * block + block) by (nonlinear_arith);
        assert(0 <= (b - 1) * block) by (nonlinear_arith)
            requires
                b >= 1,
                block >= 1,
        ;
    }
    let start: usize = a * block;
    let last: usize = (b - 1) * block;
    let end: usize = if n - last > block {
        last + block
    } else {
        n
    };
    let mut i: usize = start;
    while i < end
        invariant
            start <= i <= end <= n,
            samples@.len() == n == old(samples)@.len(),
            forall|k: int|
                0 <= k < n ==> #[trigger] samples@[k] == if start <= k < i {
                    Sample::silence()
                } else {
                    old(samples)@[k]
                },
        decreases end - i,
    {
        samples[i] = Sample { bits: 0 };
        i += 1;
    }
    proof {
        assert forall|k: int| 0 <= k < n implies #[trigger] samples@[k] == if a <= k / (block as int)
            < b {
            Sample::silence()
        } else {
            old(samples)@[k]
        } by {
            lemma_block_of(k, block as int, a as int, b as int);
        }
    }
}

/// The blocks of a click found at `index` are those that it adds.
proof fn lemma_zeroed_step(peaks: Seq<u32>, index: int, start: int, end: int, j: int)
    requires
        is_run(peaks, speech_start(peaks), start, end),
        start <= index < end,
        peaks[index] > CLICK_LEVEL,
        speech_start(peaks) <= peaks.len(),
    ensures
        zeroed_before(peaks, end, j) <==> zeroed_before(peaks, index, j) || (end - start
            <= CLICK_BLOCKS && start <= j < end),
{
    let limit = speech_start(peaks);
    if zeroed_before(peaks, end, j) && !zeroed_before(peaks, index, j) {
        let (a, b, c) = choose|a: int, b: int, c: int|
            a <= j < b && c < end && a <= c < b && #[trigger] is_click(peaks, a, b)
                && #[trigger] peaks[c] > CLICK_LEVEL;
        assert(c >= index);
        lemma_run_unique(peaks, limit, a, b, start, end, c);
    }
    if end - start <= CLICK_BLOCKS && start <= j < end {
        assert(peaks[index] > CLICK_LEVEL);
        assert(is_click(peaks, start, end));
    }
    if zeroed_before(peaks, index, j) {
        let (a, b, c) = choose|a: int, b: int, c: int|
            a <= j < b && c < index && a <= c < b && #[trigger] is_click(peaks, a, b)
                && #[trigger] peaks[c] > CLICK_LEVEL;
        assert(is_click(peaks, a, b) && peaks[c] > CLICK_LEVEL);
    }
}

/// A block that is no louder than a click adds nothing.
proof fn lemma_zeroed_skip(peaks: Seq<u32>, index: int, j: int)
    requires
        peaks[index] <= CLICK_LEVEL,
    ensures
        zeroed_before(peaks, index + 1, j) <==> zeroed_before(peaks, index, j),
{
    if zeroed_before(peaks, index + 1, j) {
        let (a, b, c) = choose|a: int, b: int, c: int|
            a <= j < b && c < index + 1 && a <= c < b && #[trigger] is_click(peaks, a, b)
                && #[trigger] peaks[c] > CLICK_LEVEL;
        assert(is_click(peaks, a, b) && peaks[c] > CLICK_LEVEL && c < index);
    }
    if zeroed_before(peaks, index, j) {
        let (a, b, c) = choose|a: int, b: int, c: int|
            a <= j < b && c < index && a <= c < b && #[trigger] is_click(peaks, a, b)
                && #[trigger] peaks[c] > CLICK_LEVEL;
        assert(is_click(peaks, a, b) && peaks[c] > CLICK_LEVEL && c < index + 1);
    }
}

/// Once every block before speech has been looked at, every click is zeroed.
proof fn lemma_zeroed_all(peaks: Seq<u32>, j: int)
    ensures
        zeroed_before(peaks, speech_start(peaks), j) <==> in_click(peaks, j),
{
    let limit = speech_start(peaks);
    if in_click(peaks, j) {
        let (a, b) = choose|a: int, b: int| a <= j < b && #[trigger] is_click(peaks, a, b);
        let c = choose|c: int| a <= c < b && #[trigger] peaks[c] > CLICK_LEVEL;
        assert(is_click(peaks, a, b) && peaks[c] > CLICK_LEVEL && c < limit);
    }
}

/// Gates leading non-speech in the first synthesized chunk.
///
/// The model can emit an isolated click between the prompt boundary and the onset
/// of speech. This finds the onset of sustained speech and zeroes only the short
/// loud bursts that stand before it in silence: never the leading region as a
/// whole, and never anything longer than fifty milliseconds. A short fade at the
/// very start guards the step that remains. Apply it to the first chunk of an
/// utterance only.
pub fn gate_leading_nonspeech(samples: &mut Vec<Sample>, sample_rate: u32)
    ensures
        is_cleaned(final(samples)@, old(samples)@, sample_rate),
{
    zero_clicks(samples, sample_rate);
    let wanted: u64 = sample_rate as u64 * 3 / 1000;
    let fade: usize = if wanted < samples.len() as u64 {
        wanted as usize
    } else {
        samples.len()
    };
    fade_in(samples, fade);
}

/// Zeroes every click in the leading silence.
fn zero_clicks(samples: &mut Vec<Sample>, sample_rate: u32)
    ensures
        final(samples)@ == gated(old(samples)@, sample_rate),
{
    let block: usize = block_size(sample_rate);
    let peaks: Vec<u32> = block_peaks(&levels(samples), block);
    let onset: usize = find_onset(&peaks);
    let true_start: usize = find_lead_in(&peaks, onset);
    let ghost len = samples@.len() as int;
    proof {
        lemma_lead_in(peaks@, onset as int);
        assert(samples@ =~= gated_before(samples@, peaks@, block as int, 0)) by {
            assert(forall|j: int| !zeroed_before(peaks@, 0, j));
        }
    }
    let mut index: usize = 0;
    while index < true_start
        invariant
            block == block_len(sample_rate),
            block >= 1,
            len == old(samples)@.len(),
            peaks@ == peaks_of(levels_of(old(samples)@), block as int),
            true_start == speech_start(peaks@),
            true_start <= peaks@.len(),
            index <= true_start,
            samples@ == gated_before(old(samples)@, peaks@, block as int, index as int),
        decreases true_start - index,
    {
        if peaks[index] > CLICK_LEVEL {
            let start_block: usize = find_lead_in(&peaks, index);
            let mut end_block: usize = index + 1;
            while end_block < true_start && peaks[end_block] > QUIET_LEVEL
                invariant
                    index < end_block <= true_start <= peaks@.len(),
                    peaks@[index as int] > QUIET_LEVEL,
                    forall|k: int| index <= k < end_block ==> #[trigger] peaks@[k] > QUIET_LEVEL,
                decreases true_start - end_block,
            {
                end_block += 1;
            }
            proof {
                lemma_lead_in(peaks@, index as int);
                assert(is_run(peaks@, true_start as int, start_block as int, end_block as int));
                assert forall|j: int| true implies #[trigger] zeroed_before(
                    peaks@,
                    end_block as int,
                    j,
                ) == (zeroed_before(peaks@, index as int, j) || (end_block - start_block
                    <= CLICK_BLOCKS && start_block <= j < end_block)) by {
                    lemma_zeroed_step(
                        peaks@,
                        index as int,
                        start_block as int,
                        end_block as int,
                        j,
                    );
                }
            }
            if end_block - start_block <= CLICK_BLOCKS {
                proof {
                    lemma_block_inside(len, block as int, end_block - 1);
                }
                zero_blocks(samples, block, start_block, end_block);
            }
            assert(samples@ =~= gated_before(
                old(samples)@,
                peaks@,
                block as int,
                end_block as int,
            ));
            index = end_block;
        } else {
            proof {
                assert forall|j: int| true implies #[trigger] zeroed_before(
                    peaks@,
                    index + 1,
                    j,
                ) == zeroed_before(peaks@, index as int, j) by {
                    lemma_zeroed_skip(peaks@, index as int, j);
                }
                assert(samples@ =~= gated_before(
                    old(samples)@,
                    peaks@,
                    block as int,
                    index + 1,
                ));
            }
            index += 1;
        }
    }
    proof {
        assert forall|j: int| true implies #[trigger] zeroed_before(peaks@, index as int, j)
            == in_click(peaks@, j) by {
            lemma_zeroed_all(peaks@, j);
        }
        assert(samples@ =~= gated(old(samples)@, sample_rate));
    }
}

/// A block that is counted begins before the end.
pub(crate) proof fn lemma_block_inside(len: int, block: int, j: int)
    requires
        len >= 0,
        block >= 1,
        0 <= j < block_count(len, block),
    ensures
        j * block < len,
{
    vstd::arithmetic::div_mod::lemma_fundamental_div_mod(len + block - 1, block);
    let k = block_count(len, block);
    assert(j * block < len) by (nonlinear_arith)
        requires
            j <= k - 1,
            block >= 1,
            len + block - 1 >= block * k,
    ;
}

// ---------------------------------------------------------------------------
// What gating leaves alone
// ---------------------------------------------------------------------------

/// Zeroing clicks never touches speech: from the lead-in of the onset on, every
/// sample stays as it is.
pub proof fn gate_keeps_speech(samples: Seq<Sample>, sample_rate: u32, i: int)
    requires
        0 <= i < samples.len(),
        i / block_len(sample_rate) >= speech_start(
            peaks_of(levels_of(samples), block_len(sample_rate)),
        ),
    ensures
        gated(samples, sample_rate)[i] == samples[i],
{
}

/// Zeroing clicks never touches anything longer than fifty milliseconds: a sample in a
/// run of more than ten blocks above silence stays as it is.
pub proof fn gate_keeps_long_runs(samples: Seq<Sample>, sample_rate: u32, i: int, a: int, b: int)
    requires
        0 <= i < samples.len(),
        0 <= a <= i / block_len(sample_rate) < b,
        b <= peaks_of(levels_of(samples), block_len(sample_rate)).len(),
        b - a > CLICK_BLOCKS,
        forall|j: int|
            a <= j < b ==> #[trigger] peaks_of(levels_of(samples), block_len(sample_rate))[j]
                > QUIET_LEVEL,
    ensures
        gated(samples, sample_rate)[i] == samples[i],
{
    let block = block_len(sample_rate);
    let peaks = peaks_of(levels_of(samples), block);
    let j = i / block;
    if in_click(peaks, j) {
        let (c, d) = choose|c: int, d: int| c <= j < d && #[trigger] is_click(peaks, c, d);
        let limit = speech_start(peaks);
        lemma_first_onset_bounds(peaks, 0);
        lemma_lead_in(peaks, first_onset(peaks, 0));
        if a < c {
            assert(peaks[c - 1] > QUIET_LEVEL);
        }
        if d < b {
            assert(peaks[d] > QUIET_LEVEL);
            assert(d == limit);
            assert(peaks[d - 1] > QUIET_LEVEL);
        }
    }
}

/// Zeroing clicks never touches soft sounds: a sample in a run of blocks above silence
/// none of which is louder than a click stays as it is.
pub proof fn gate_keeps_soft_runs(samples: Seq<Sample>, sample_rate: u32, i: int, a: int, b: int)
    requires
        0 <= i < samples.len(),
        a <= i / block_len(sample_rate) < b,
        is_run(
            peaks_of(levels_of(samples), block_len(sample_rate)),
            speech_start(peaks_of(levels_of(samples), block_len(sample_rate))),
            a,
            b,
        ),
        forall|j: int|
            a <= j < b ==> #[trigger] peaks_of(levels_of(samples), block_len(sample_rate))[j]
                <= CLICK_LEVEL,
    ensures
        gated(samples, sample_rate)[i] == samples[i],
{
    let block = block_len(sample_rate);
    let peaks = peaks_of(levels_of(samples), block);
    let j = i / block;
    if in_click(peaks, j) {
        let (c, d) = choose|c: int, d: int| c <= j < d && #[trigger] is_click(peaks, c, d);
        lemma_first_onset_bounds(peaks, 0);
        lemma_lead_in(peaks, first_onset(peaks, 0));
        lemma_run_unique(peaks, speech_start(peaks), a, b, c, d, j);
    }
}

/// Zeroing clicks only ever silences: a sample stays as it is or becomes zero.
pub proof fn gate_keeps_or_silences(samples: Seq<Sample>, sample_rate: u32, i: int)
    requires
        0 <= i < samples.len(),
    ensures
        gated(samples, sample_rate).len() == samples.len(),
        gated(samples, sample_rate)[i] == samples[i] || gated(samples, sample_rate)[i]
            == Sample::silence(),
{
}

/// Zeroing clicks leaves no click: doing it again changes nothing.
pub proof fn gate_is_idempotent(samples: Seq<Sample>, sample_rate: u32)
    ensures
        gated(gated(samples, sample_rate), sample_rate) == gated(samples, sample_rate),
{
    let block = block_len(sample_rate);
    let once = gated(samples, sample_rate);
    let p = peaks_of(levels_of(samples), block);
    let q = peaks_of(levels_of(once), block);
    assert forall|j: int| 0 <= j < p.len() implies #[trigger] q[j] == (if in_click(p, j) {
        0
    } else {
        p[j]
    }) by {
        lemma_gated_peak(samples, sample_rate, j);
    }
    lemma_no_click_left(p, q);
    assert(gated(once, sample_rate) =~= once);
}

/// Gating never makes a sample louder, and behind the fade all it does is to zero
/// clicks.
pub proof fn cleaning_only_attenuates(
    after: Seq<Sample>,
    before: Seq<Sample>,
    sample_rate: u32,
    i: int,
)
    requires
        is_cleaned(after, before, sample_rate),
        0 <= i < before.len(),
    ensures
        after.len() == before.len(),
        after[i].loudness() <= before[i].loudness(),
        i >= fade_len(before.len(), sample_rate) ==> after[i] == gated(before, sample_rate)[i],
{
    let n = fade_len(before.len(), sample_rate);
    let middle = gated(before, sample_rate);
    if i < n {
        assert(after[i].is_faded(middle[i], i as nat, n as nat));
        fading_only_attenuates(after[i], middle[i], i as nat, n as nat);
    }
}

/// Gating gives one result.
pub proof fn cleaning_is_determined(
    a: Seq<Sample>,
    b: Seq<Sample>,
    before: Seq<Sample>,
    sample_rate: u32,
)
    requires
        is_cleaned(a, before, sample_rate),
        is_cleaned(b, before, sample_rate),
    ensures
        a == b,
{
    let n = fade_len(before.len(), sample_rate);
    let middle = gated(before, sample_rate);
    assert forall|i: int| 0 <= i < a.len() implies a[i] == b[i] by {
        if i < n {
            assert(a[i].is_faded(middle[i], i as nat, n as nat));
            assert(b[i].is_faded(middle[i], i as nat, n as nat));
            fading_is_determined(a[i], b[i], middle[i], i as nat, n as nat);
        }
    }
    assert(a =~= b);
}

/// The peak of a block after gating.
proof fn lemma_gated_peak(samples: Seq<Sample>, sample_rate: u32, j: int)
    requires
        0 <= j < block_count(samples.len() as int, block_len(sample_rate)),
    ensures
        ({
            let block = block_len(sample_rate);
            let p = peaks_of(levels_of(samples), block);
            let q = peaks_of(levels_of(gated(samples, sample_rate)), block);
            q[j] == (if in_click(p, j) {
                0
            } else {
                p[j]
            })
        }),
{
    let block = block_len(sample_rate);
    let n = samples.len() as int;
    let before = block_levels(levels_of(samples), block, j);
    let after = block_levels(levels_of(gated(samples, sample_rate)), block, j);
    let p = peaks_of(levels_of(samples), block);
    lemma_block_start(n, block, j);
    lemma_block_inside(n, block, j);
    let start = block_start(n, block, j);
    assert forall|k: int| 0 <= k < before.len() implies #[trigger] after[k] == (if in_click(p, j) {
        0
    } else {
        before[k]
    }) by {
        lemma_block_of(start + k, block, j, j + 1);
    }
    if in_click(p, j) {
        lemma_peak_of_silence(after);
    } else {
        assert(after =~= before);
    }
}

proof fn lemma_peak_of_silence(levels: Seq<u32>)
    requires
        forall|k: int| 0 <= k < levels.len() ==> #[trigger] levels[k] == 0,
    ensures
        peak(levels) == 0,
    decreases levels.len(),
{
    if levels.len() > 0 {
        lemma_peak_of_silence(levels.drop_last());
    }
}

/// Which block the lead-in is found at.
proof fn lemma_lead_in_is(peaks: Seq<u32>, i: int, s: int)
    requires
        0 <= s <= i <= peaks.len(),
        s == 0 || peaks[s - 1] <= QUIET_LEVEL,
        forall|j: int| s <= j < i ==> #[trigger] peaks[j] > QUIET_LEVEL,
    ensures
        lead_in(peaks, i) == s,
    decreases i,
{
    if i > s {
        assert(peaks[i - 1] > QUIET_LEVEL);
        lemma_lead_in_is(peaks, i - 1, s);
    }
}

/// A block above silence next to a click is part of it.
proof fn lemma_click_neighbours(p: Seq<u32>, i: int)
    requires
        0 < i < p.len(),
        p[i] > QUIET_LEVEL,
        p[i - 1] > QUIET_LEVEL,
    ensures
        in_click(p, i) <==> in_click(p, i - 1),
{
    lemma_first_onset_bounds(p, 0);
    lemma_lead_in(p, first_onset(p, 0));
    if in_click(p, i) {
        let (a, b) = choose|a: int, b: int| a <= i < b && #[trigger] is_click(p, a, b);
        assert(is_click(p, a, b) && a <= i - 1 < b);
    }
    if in_click(p, i - 1) {
        let (a, b) = choose|a: int, b: int| a <= i - 1 < b && #[trigger] is_click(p, a, b);
        if b == i {
            assert(b == speech_start(p));
        }
        assert(is_click(p, a, b) && a <= i < b);
    }
}

proof fn lemma_fewer_loud_blocks(p: Seq<u32>, q: Seq<u32>, from: int, to: int)
    requires
        0 <= from,
        to <= p.len(),
        p.len() == q.len(),
        forall|j: int| 0 <= j < p.len() ==> #[trigger] q[j] <= p[j],
    ensures
        loud_blocks(q, from, to) <= loud_blocks(p, from, to),
    decreases to - from,
{
    if from < to {
        lemma_fewer_loud_blocks(p, q, from, to - 1);
        assert(q[to - 1] <= p[to - 1]);
    }
}

proof fn lemma_same_loud_blocks(p: Seq<u32>, q: Seq<u32>, from: int, to: int)
    requires
        0 <= from,
        to <= p.len(),
        p.len() == q.len(),
        forall|j: int| from <= j < to ==> #[trigger] q[j] == p[j],
    ensures
        loud_blocks(q, from, to) == loud_blocks(p, from, to),
    decreases to - from,
{
    if from < to {
        lemma_same_loud_blocks(p, q, from, to - 1);
        assert(q[to - 1] == p[to - 1]);
    }
}

/// The first onset is an onset, unless it is the end.
proof fn lemma_first_onset(peaks: Seq<u32>, from: int)
    requires
        0 <= from <= peaks.len(),
    ensures
        first_onset(peaks, from) < peaks.len() ==> is_onset(peaks, first_onset(peaks, from)),
        forall|j: int| from <= j < first_onset(peaks, from) ==> !#[trigger] is_onset(peaks, j),
    decreases peaks.len() - from,
{
    if from < peaks.len() && !is_onset(peaks, from) {
        lemma_first_onset(peaks, from + 1);
    }
}

/// Where the peaks `q` are the peaks `p` with the clicks silenced, `q` has no
/// click.
proof fn lemma_no_click_left(p: Seq<u32>, q: Seq<u32>)
    requires
        p.len() == q.len(),
        forall|j: int|
            0 <= j < p.len() ==> #[trigger] q[j] == (if in_click(p, j) {
                0
            } else {
                p[j]
            }),
    ensures
        forall|j: int| !in_click(q, j),
{
    let n = p.len() as int;
    let o = first_onset(p, 0);
    let s = speech_start(p);
    lemma_first_onset_bounds(p, 0);
    lemma_first_onset(p, 0);
    lemma_lead_in(p, o);
    assert forall|j: int| s <= j < n implies #[trigger] q[j] == p[j] by {}
    assert forall|i: int| 0 <= i < o implies !#[trigger] is_onset(q, i) by {
        if is_onset(q, i) {
            assert(p[i] == q[i]);
            if i > 0 && p[i - 1] > SPEECH_LEVEL {
                lemma_click_neighbours(p, i);
                assert(q[i - 1] == p[i - 1]);
            }
            lemma_fewer_loud_blocks(p, q, i, window_end(p, i));
            assert(is_onset(p, i));
        }
    }
    lemma_first_onset_skip(q, 0, o);
    if o < n {
        if o > 0 {
            assert(q[o - 1] <= p[o - 1]);
        }
        lemma_same_loud_blocks(p, q, o, window_end(p, o));
        assert(is_onset(q, o));
    }
    assert(first_onset(q, 0) == o);
    if s > 0 {
        assert(q[s - 1] <= p[s - 1]);
    }
    lemma_lead_in_is(q, o, s);
    assert(speech_start(q) == s);
    assert forall|j: int| !in_click(q, j) by {
        if in_click(q, j) {
            let (a, b) = choose|a: int, b: int| a <= j < b && #[trigger] is_click(q, a, b);
            let c = choose|c: int| a <= c < b && #[trigger] q[c] > CLICK_LEVEL;
            assert forall|k: int| a <= k < b implies #[trigger] p[k] > QUIET_LEVEL by {
                assert(q[k] > QUIET_LEVEL);
            }
            if a > 0 && p[a - 1] > QUIET_LEVEL {
                assert(q[a] > QUIET_LEVEL);
                lemma_click_neighbours(p, a);
                assert(q[a - 1] == p[a - 1]);
            }
            if b < s && p[b] > QUIET_LEVEL {
                assert(q[b - 1] > QUIET_LEVEL);
                assert(p[b - 1] > QUIET_LEVEL);
                lemma_click_neighbours(p, b);
                assert(q[b] == p[b]);
            }
            assert(p[c] > CLICK_LEVEL) by {
                assert(q[c] > CLICK_LEVEL);
            }
            assert(is_click(p, a, b));
            assert(in_click(p, c));
            assert(q[c] == 0);
        }
    }
}

// ---------------------------------------------------------------------------
// Trailing non-speech
// ---------------------------------------------------------------------------

/// The first block from which on no block is louder than `level`.
pub open spec fn quiet_from(peaks: Seq<u32>, level: u32) -> int
    decreases peaks.len(),
{
    if peaks.len() == 0 {
        0
    } else if peaks.last() > level {
        peaks.len() as int
    } else {
        quiet_from(peaks.drop_last(), level)
    }
}

/// How many levels at the end lie in blocks none of which is louder than `level`.
pub open spec fn quiet_tail(levels: Seq<u32>, block: int, level: u32) -> int {
    levels.len() - block_start(
        levels.len() as int,
        block,
        quiet_from(peaks_of(levels, block), level),
    )
}

/// The samples of non-speech at the end.
pub open spec fn trailing_nonspeech(samples: Seq<Sample>, sample_rate: u32) -> int {
    if sample_rate == 0 {
        0
    } else {
        quiet_tail(levels_of(samples), block_len(sample_rate), SPEECH_LEVEL)
    }
}

pub(crate) proof fn lemma_quiet_from(peaks: Seq<u32>, level: u32)
    ensures
        0 <= quiet_from(peaks, level) <= peaks.len(),
        quiet_from(peaks, level) > 0 ==> peaks[quiet_from(peaks, level) - 1] > level,
        forall|j: int| quiet_from(peaks, level) <= j < peaks.len() ==> #[trigger] peaks[j] <= level,
    decreases peaks.len(),
{
    if peaks.len() > 0 && peaks.last() <= level {
        lemma_quiet_from(peaks.drop_last(), level);
        assert forall|j: int| quiet_from(peaks, level) <= j < peaks.len() implies #[trigger] peaks[j]
            <= level by {
            if j < peaks.len() - 1 {
                assert(peaks.drop_last()[j] <= level);
            }
        }
    }
}

proof fn lemma_quiet_from_is(peaks: Seq<u32>, level: u32, q: int)
    requires
        0 <= q <= peaks.len(),
        q == 0 || peaks[q - 1] > level,
        forall|j: int| q <= j < peaks.len() ==> #[trigger] peaks[j] <= level,
    ensures
        quiet_from(peaks, level) == q,
    decreases peaks.len(),
{
    if peaks.len() > q {
        assert(peaks[peaks.len() - 1] <= level);
        lemma_quiet_from_is(peaks.drop_last(), level, q);
    }
}

/// How many levels at the end lie in blocks none of which is louder than `level`.
pub fn count_quiet_tail(levels: &Vec<u32>, block: usize, level: u32) -> (r: usize)
    requires
        block >= 1,
    ensures
        r == quiet_tail(levels@, block as int, level),
        r <= levels@.len(),
{
    let peaks: Vec<u32> = block_peaks(levels, block);
    let mut from: usize = peaks.len();
    assert(peaks@.take(from as int) =~= peaks@);
    while from > 0 && peaks[from - 1] <= level
        invariant
            from <= peaks@.len(),
            quiet_from(peaks@.take(from as int), level) == quiet_from(peaks@, level),
        decreases from,
    {
        assert(peaks@.take(from as int).drop_last() =~= peaks@.take(from - 1));
        from -= 1;
    }
    let n: usize = levels.len();
    if from == 0 {
        proof {
            assert(0 * block == 0) by (nonlinear_arith);
        }
        return n;
    }
    proof {
        let f = from as int;
        assert(peaks@.take(f).last() == peaks@[f - 1]);
        lemma_block_inside(n as int, block as int, f - 1);
        assert(f * block == (f - 1) * block + block) by (nonlinear_arith);
        assert((f - 1) * block >= 0) by (nonlinear_arith)
            requires
                f >= 1,
                block >= 1,
        ;
    }
    let last: usize = (from - 1) * block;
    if n - last > block {
        n - last - block
    } else {
        0
    }
}

/// What a number of samples is divided by to give seconds: the rate. Without a rate
/// nothing is measured, and nothing over one is nothing.
pub open spec fn divisor(sample_rate: u32) -> u32 {
    if sample_rate == 0 {
        1
    } else {
        sample_rate
    }
}

/// Seconds of non-speech at the end of a finished utterance; without a rate there
/// are none.
///
/// A generation that loses coherence stops producing speech but keeps emitting
/// frames, so the tail decays to silence or a low noise floor while the run still
/// looks successful. Uses the blocks and the speech level of
/// [`gate_leading_nonspeech`].
pub fn trailing_nonspeech_seconds(samples: &Vec<Sample>, sample_rate: u32) -> (r: Seconds)
    ensures
        r.samples == trailing_nonspeech(samples@, sample_rate),
        r.sample_rate == divisor(sample_rate),
        r.samples <= samples@.len(),
{
    if sample_rate == 0 {
        return Seconds { samples: 0, sample_rate: 1 };
    }
    let samples: usize = count_quiet_tail(
        &levels(samples),
        block_size(sample_rate),
        SPEECH_LEVEL,
    );
    Seconds { samples, sample_rate }
}

/// The seconds of non-speech at the end.
pub open spec fn trailing_seconds(samples: Seq<Sample>, sample_rate: u32) -> Seconds {
    Seconds {
        samples: trailing_nonspeech(samples, sample_rate) as usize,
        sample_rate: divisor(sample_rate),
    }
}

/// Drops a degenerate trailing tail, keeping a short natural release of `keep_s`
/// seconds.
///
/// Returns the seconds removed. Only trims when the tail is longer than `keep_s`,
/// so normal utterance endings are untouched.
pub fn trim_trailing_nonspeech(samples: &mut Vec<Sample>, sample_rate: u32, keep_s: Double) -> (r:
    Double)
    requires
        old(samples)@.len() < 0x20_0000_0000_0000,
    ensures
        ({
            let tail = trailing_seconds(old(samples)@, sample_rate).double_units();
            if is_at_most(tail, keep_s) {
                r == (Double { bits: 0 }) && final(samples)@ == old(samples)@
            } else {
                &&& is_difference(r, tail, keep_s)
                &&& final(samples)@ == old(samples)@.take(
                    old(samples)@.len() - whole_samples(
                        r,
                        sample_rate,
                        old(samples)@.len(),
                    ),
                )
            }
        }),
{
    let tail: Seconds = trailing_nonspeech_seconds(samples, sample_rate);
    match seconds_beyond(tail, keep_s) {
        None => Double { bits: 0 },
        Some(removed) => {
            let len: usize = samples.len();
            let count: usize = count_samples(removed, sample_rate, len);
            samples.truncate(len - count);
            removed
        },
    }
}

/// Trimming spares what was said: no more is dropped than the tail, and what stays of
/// the tail is still measured as such. What stays is the release that was asked for,
/// to within two samples.
pub proof fn trimming_leaves_the_release(
    samples: Seq<Sample>,
    sample_rate: u32,
    keep_s: Double,
    removed: Double,
)
    requires
        samples.len() < 0x1_0000_0000_0000,
        samples.len() <= usize::MAX,
        !keep_s.is_nan(),
        !keep_s.negative(),
        !is_at_most(trailing_seconds(samples, sample_rate).double_units(), keep_s),
        is_difference(
            removed,
            trailing_seconds(samples, sample_rate).double_units(),
            keep_s,
        ),
    ensures
        ({
            let dropped = whole_samples(removed, sample_rate, samples.len());
            let tail = trailing_nonspeech(samples, sample_rate);
            let after = samples.take(samples.len() - dropped);
            let kept = keep_s.units() * sample_rate as nat;
            &&& dropped <= tail
            &&& trailing_nonspeech(after, sample_rate) == tail - dropped
            &&& kept - pow2(1074) <= (tail - dropped) * pow2(1074) <= kept + 2 * pow2(1074)
        }),
{
    let seconds = trailing_seconds(samples, sample_rate);
    lemma_trailing_bounds(samples, sample_rate);
    if sample_rate == 0 {
        lemma_no_seconds();
    }
    no_more_is_left(seconds, keep_s, removed, samples.len());
    nearly_all_is_left(seconds, keep_s, removed, samples.len());
    lemma_shorter_tail(
        samples,
        sample_rate,
        whole_samples(removed, sample_rate, samples.len()) as int,
    );
}

proof fn lemma_no_seconds()
    ensures
        (Seconds { samples: 0, sample_rate: 1 }).double_units() == 0,
{
    assert(0 * pow2(1074) == 0);
    crate::doubles::lemma_nothing(1);
}

proof fn lemma_trailing_bounds(samples: Seq<Sample>, sample_rate: u32)
    ensures
        0 <= trailing_nonspeech(samples, sample_rate) <= samples.len(),
{
    if sample_rate != 0 {
        let block = block_len(sample_rate);
        let peaks = peaks_of(levels_of(samples), block);
        lemma_quiet_from(peaks, SPEECH_LEVEL);
        lemma_block_start(samples.len() as int, block, quiet_from(peaks, SPEECH_LEVEL));
    }
}

/// Dropping a part of the tail leaves the rest of it.
proof fn lemma_shorter_tail(samples: Seq<Sample>, sample_rate: u32, dropped: int)
    requires
        0 <= dropped <= trailing_nonspeech(samples, sample_rate),
    ensures
        trailing_nonspeech(samples.take(samples.len() - dropped), sample_rate)
            == trailing_nonspeech(samples, sample_rate) - dropped,
{
    let tail = trailing_nonspeech(samples, sample_rate);
    if sample_rate != 0 {
        let block = block_len(sample_rate);
        let n = samples.len() as int;
        let levels = levels_of(samples);
        let peaks = peaks_of(levels, block);
        let q = quiet_from(peaks, SPEECH_LEVEL);
        lemma_quiet_from(peaks, SPEECH_LEVEL);
        lemma_block_start(n, block, q);
        let m = n - dropped;
        let after = samples.take(m);
        let levels2 = levels_of(after);
        let peaks2 = peaks_of(levels2, block);
        assert(levels2 =~= levels.take(m));
        if q * block < n {
            assert(q * block <= m);
            lemma_block_count_at_least(m, block, q);
        } else {
            assert(dropped == 0);
            assert(m == n);
        }
        lemma_block_count_monotone(m, n, block);
        assert forall|j: int| 0 <= j < q implies #[trigger] peaks2[j] == peaks[j] by {
            lemma_block_start(n, block, j);
            lemma_block_start(m, block, j);
            assert((j + 1) * block <= q * block) by (nonlinear_arith)
                requires
                    j + 1 <= q,
                    block >= 1,
            ;
            assert(block_levels(levels2, block, j) =~= block_levels(levels, block, j));
        }
        assert forall|j: int| q <= j < peaks2.len() implies #[trigger] peaks2[j] <= SPEECH_LEVEL by {
            lemma_block_start(n, block, j);
            lemma_block_start(m, block, j);
            let whole = block_levels(levels, block, j);
            let part = block_levels(levels2, block, j);
            lemma_block_inside(m, block, j);
            assert(part =~= whole.take(part.len() as int));
            lemma_peak_of_part(whole, part.len() as int);
            assert(peaks[j] <= SPEECH_LEVEL);
        }
        if q > 0 {
            assert(peaks2[q - 1] == peaks[q - 1]);
        }
        lemma_quiet_from_is(peaks2, SPEECH_LEVEL, q);
    }
}

proof fn lemma_peak_of_part(levels: Seq<u32>, k: int)
    requires
        0 <= k <= levels.len(),
    ensures
        peak(levels.take(k)) <= peak(levels),
    decreases levels.len(),
{
    if k < levels.len() {
        assert(levels.take(k) =~= levels.drop_last().take(k));
        lemma_peak_of_part(levels.drop_last(), k);
    } else {
        assert(levels.take(k) =~= levels);
    }
}

proof fn lemma_block_count_at_least(len: int, block: int, q: int)
    requires
        block >= 1,
        q * block <= len,
    ensures
        q <= block_count(len, block),
{
    vstd::arithmetic::div_mod::lemma_fundamental_div_mod(len + block - 1, block);
    let k = block_count(len, block);
    let r = (len + block - 1) % block;
    assert(q <= k) by (nonlinear_arith)
        requires
            len + block - 1 == block * k + r,
            0 <= r < block,
            q * block <= len,
            block >= 1,
    ;
}

/// A block that begins before the end is counted.
pub(crate) proof fn lemma_block_count_at_least_strict(len: int, block: int, j: int)
    requires
        block >= 1,
        0 <= j,
        j * block < len,
    ensures
        j < block_count(len, block),
{
    vstd::arithmetic::div_mod::lemma_fundamental_div_mod(len + block - 1, block);
    let k = block_count(len, block);
    let r = (len + block - 1) % block;
    assert(j < k) by (nonlinear_arith)
        requires
            len + block - 1 == block * k + r,
            0 <= r < block,
            j * block < len,
            block >= 1,
    ;
}

proof fn lemma_block_count_monotone(m: int, n: int, block: int)
    requires
        block >= 1,
        m <= n,
    ensures
        block_count(m, block) <= block_count(n, block),
{
    vstd::arithmetic::div_mod::lemma_div_is_ordered(m + block - 1, n + block - 1, block);
}

} // verus!
