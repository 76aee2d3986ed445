//! What gating and measuring mean, stated on the samples themselves.
//!
//! Nothing here is computed. The functions of [`crate::postprocess`] work on peaks of
//! blocks; these laws say which samples become silent, where speech starts and how
//! long a tail is, in terms of the bit patterns of the samples and of numbers alone.

use crate::doubles::{is_at_most, is_difference, whole_samples};
use crate::postprocess::{
    block_count, block_len, block_levels, block_start, fade_len, first_onset, gated, in_click,
    is_click, is_cleaned, is_onset, is_run, lemma_block_inside, lemma_block_start,
    lemma_first_onset_is, lemma_lead_in, levels_of, loud_blocks, peak, peaks_of,
    quiet_from, quiet_tail, speech_start, trailing_nonspeech, trailing_seconds,
    trimming_leaves_the_release, window_end, CLICK_LEVEL, QUIET_LEVEL,
};
use crate::sample::{Double, Sample};
use crate::scaling::fading_only_attenuates;
use vstd::prelude::*;

verus! {

// ---------------------------------------------------------------------------
// Samples and blocks
// ---------------------------------------------------------------------------

/// The magnitude of a sample as a bit pattern; what is not a number has none.
pub open spec fn heard(s: Sample) -> int {
    let m = s.bits as int % 0x8000_0000;
    if m > 0x7f80_0000 {
        0
    } else {
        m
    }
}

/// The samples in five milliseconds, at least one.
pub open spec fn five_ms(sample_rate: u32) -> int {
    if sample_rate < 200 {
        1
    } else {
        sample_rate as int / 200
    }
}

/// How many blocks of `n` samples there are; the last may be shorter.
pub open spec fn blocks_in(samples: Seq<Sample>, n: int) -> int {
    if samples.len() as int % n == 0 {
        samples.len() as int / n
    } else {
        samples.len() as int / n + 1
    }
}

/// Whether block `j` of `n` samples holds one of a magnitude above `level`.
pub open spec fn exceeds(samples: Seq<Sample>, n: int, j: int, level: int) -> bool {
    exists|i: int|
        j * n <= i < j * n + n && i < samples.len() && heard(#[trigger] samples[i]) > level
}

/// A sample is as loud as its magnitude.
pub proof fn loudness_is_the_magnitude(s: Sample)
    ensures
        s.loudness() == heard(s),
{
}

/// A block is five milliseconds.
pub proof fn blocks_are_five_ms(sample_rate: u32)
    ensures
        block_len(sample_rate) == five_ms(sample_rate),
{
}

pub(crate) proof fn lemma_blocks_in(samples: Seq<Sample>, n: int)
    requires
        n >= 1,
    ensures
        block_count(samples.len() as int, n) == blocks_in(samples, n),
        blocks_in(samples, n) >= 0,
{
    let len = samples.len() as int;
    let q = len / n;
    let r = len % n;
    vstd::arithmetic::div_mod::lemma_fundamental_div_mod(len, n);
    vstd::arithmetic::div_mod::lemma_div_pos_is_pos(len, n);
    if r == 0 {
        assert(len + n - 1 == n * q + (n - 1));
        vstd::arithmetic::div_mod::lemma_fundamental_div_mod_converse(len + n - 1, n, q, n - 1);
    } else {
        assert(n * (q + 1) == n * q + n) by (nonlinear_arith);
        vstd::arithmetic::div_mod::lemma_fundamental_div_mod_converse(
            len + n - 1,
            n,
            q + 1,
            r - 1,
        );
    }
}

proof fn lemma_peak(levels: Seq<u32>, level: int)
    requires
        level >= 0,
    ensures
        peak(levels) > level <==> exists|k: int| 0 <= k < levels.len() && #[trigger] levels[k] > level,
    decreases levels.len(),
{
    if levels.len() > 0 {
        let front = levels.drop_last();
        lemma_peak(front, level);
        if exists|k: int| 0 <= k < front.len() && #[trigger] front[k] > level {
            let k = choose|k: int| 0 <= k < front.len() && #[trigger] front[k] > level;
            assert(levels[k] > level);
        }
        if exists|k: int| 0 <= k < levels.len() && #[trigger] levels[k] > level {
            let k = choose|k: int| 0 <= k < levels.len() && #[trigger] levels[k] > level;
            if k < front.len() {
                assert(front[k] > level);
            }
        }
        if levels.last() > level {
            assert(levels[levels.len() - 1] > level);
        }
    }
}

/// A block's peak is above a level exactly when one of its samples is.
pub proof fn peaks_are_the_loudest(samples: Seq<Sample>, n: int, j: int, level: int)
    requires
        n >= 1,
        level >= 0,
        0 <= j < blocks_in(samples, n),
    ensures
        peaks_of(levels_of(samples), n).len() == blocks_in(samples, n),
        peaks_of(levels_of(samples), n)[j] > level <==> exceeds(samples, n, j, level),
{
    let len = samples.len() as int;
    let levels = levels_of(samples);
    lemma_blocks_in(samples, n);
    lemma_block_start(len, n, j);
    lemma_block_inside(len, n, j);
    let part = block_levels(levels, n, j);
    let from = block_start(len, n, j);
    lemma_peak(part, level);
    if exists|k: int| 0 <= k < part.len() && #[trigger] part[k] > level {
        let k = choose|k: int| 0 <= k < part.len() && #[trigger] part[k] > level;
        assert(part[k] == levels[from + k]);
        loudness_is_the_magnitude(samples[from + k]);
        assert(heard(samples[from + k]) > level);
    }
    if exceeds(samples, n, j, level) {
        let i = choose|i: int|
            j * n <= i < j * n + n && i < samples.len() && heard(#[trigger] samples[i]) > level;
        loudness_is_the_magnitude(samples[i]);
        assert(part[i - from] == levels[i]);
    }
}

// ---------------------------------------------------------------------------
// Where speech starts
// ---------------------------------------------------------------------------

/// How many of the blocks from `from` to before `to` hold a sample above 0.02.
pub open spec fn loud_count(samples: Seq<Sample>, n: int, from: int, to: int) -> int
    decreases to - from,
{
    if from >= to {
        0
    } else {
        (if exceeds(samples, n, from, 0x3ca3_d70a) {
            1int
        } else {
            0
        }) + loud_count(samples, n, from + 1, to)
    }
}

/// Whether speech opens with block `j`: it is above 0.02, the one before is not, and
/// of the next 24 blocks, itself among them, eight or more are; or fewer than eight
/// are left.
pub open spec fn opens(samples: Seq<Sample>, n: int, j: int) -> bool {
    let count = blocks_in(samples, n);
    &&& 0 <= j < count
    &&& exceeds(samples, n, j, 0x3ca3_d70a)
    &&& j == 0 || !exceeds(samples, n, j - 1, 0x3ca3_d70a)
    &&& count - j < 8 || loud_count(
        samples,
        n,
        j,
        if j + 24 < count {
            j + 24
        } else {
            count
        },
    ) >= 8
}

/// Whether `o` is the first block that speech opens with, or the end if there is
/// none.
pub open spec fn opens_first(samples: Seq<Sample>, n: int, o: int) -> bool {
    &&& 0 <= o <= blocks_in(samples, n)
    &&& o < blocks_in(samples, n) ==> opens(samples, n, o)
    &&& forall|j: int| 0 <= j < o ==> !#[trigger] opens(samples, n, j)
}

/// Whether speech starts with block `s`: the blocks from there to the one that opens
/// it are all above 0.004, and the one before is not.
pub open spec fn starts_speech(samples: Seq<Sample>, n: int, s: int) -> bool {
    &&& 0 <= s
    &&& s > 0 ==> !exceeds(samples, n, s - 1, 0x3b83_126f)
    &&& exists|o: int|
        s <= o && #[trigger] opens_first(samples, n, o) && (forall|j: int|
            s <= j < o ==> #[trigger] exceeds(samples, n, j, 0x3b83_126f))
}

proof fn lemma_loud_count(samples: Seq<Sample>, sample_rate: u32, from: int, to: int)
    requires
        0 <= from <= to <= blocks_in(samples, five_ms(sample_rate)),
    ensures
        loud_blocks(peaks_of(levels_of(samples), block_len(sample_rate)), from, to) == loud_count(
            samples,
            five_ms(sample_rate),
            from,
            to,
        ),
    decreases to - from,
{
    let n = five_ms(sample_rate);
    let peaks = peaks_of(levels_of(samples), block_len(sample_rate));
    if from < to {
        lemma_loud_count(samples, sample_rate, from, to - 1);
        peaks_are_the_loudest(samples, five_ms(sample_rate), to - 1, 0x3ca3_d70a);
        lemma_loud_count_last(samples, n, from, to);
    }
}

proof fn lemma_loud_count_last(samples: Seq<Sample>, n: int, from: int, to: int)
    requires
        from < to,
    ensures
        loud_count(samples, n, from, to) == loud_count(samples, n, from, to - 1) + (if exceeds(
            samples,
            n,
            to - 1,
            0x3ca3_d70a,
        ) {
            1int
        } else {
            0
        }),
    decreases to - from,
{
    if from < to - 1 {
        lemma_loud_count_last(samples, n, from + 1, to);
    } else {
        assert(loud_count(samples, n, from + 1, to) == 0);
        assert(loud_count(samples, n, from, to - 1) == 0);
    }
}

proof fn lemma_opens(samples: Seq<Sample>, sample_rate: u32, j: int)
    requires
        0 <= j < blocks_in(samples, five_ms(sample_rate)),
    ensures
        is_onset(peaks_of(levels_of(samples), block_len(sample_rate)), j) <==> opens(
            samples,
            five_ms(sample_rate),
            j,
        ),
{
    let peaks = peaks_of(levels_of(samples), block_len(sample_rate));
    peaks_are_the_loudest(samples, five_ms(sample_rate), j, 0x3ca3_d70a);
    if j > 0 {
        peaks_are_the_loudest(samples, five_ms(sample_rate), j - 1, 0x3ca3_d70a);
    }
    lemma_loud_count(samples, sample_rate, j, window_end(peaks, j));
}

proof fn lemma_opens_first(samples: Seq<Sample>, sample_rate: u32, o: int)
    ensures
        opens_first(samples, five_ms(sample_rate), o) <==> o == first_onset(
            peaks_of(levels_of(samples), block_len(sample_rate)),
            0,
        ),
{
    let n = five_ms(sample_rate);
    let peaks = peaks_of(levels_of(samples), block_len(sample_rate));
    lemma_blocks_in(samples, n);
    assert forall|j: int| 0 <= j < peaks.len() implies (#[trigger] is_onset(peaks, j) <==> opens(
        samples,
        n,
        j,
    )) by {
        lemma_opens(samples, sample_rate, j);
    }
    let f = first_onset(peaks, 0);
    lemma_first_onset_is(peaks, 0);
    assert forall|j: int| 0 <= j < f implies !#[trigger] opens(samples, n, j) by {
        assert(!is_onset(peaks, j));
    }
    if f < peaks.len() {
        assert(is_onset(peaks, f));
        assert(opens(samples, n, f));
    }
    assert(opens_first(samples, n, f));
    if opens_first(samples, n, o) && o != f {
        if o < f {
            assert(!opens(samples, n, o));
        } else {
            assert(!opens(samples, n, f));
        }
    }
}

/// Speech starts where the search for its start says, and nowhere else.
pub proof fn speech_starts_once(samples: Seq<Sample>, sample_rate: u32, s: int)
    ensures
        starts_speech(samples, five_ms(sample_rate), s) <==> s == speech_start(
            peaks_of(levels_of(samples), block_len(sample_rate)),
        ),
{
    let n = five_ms(sample_rate);
    let peaks = peaks_of(levels_of(samples), block_len(sample_rate));
    lemma_blocks_in(samples, n);
    let f = first_onset(peaks, 0);
    let t = speech_start(peaks);
    lemma_first_onset_is(peaks, 0);
    lemma_lead_in(peaks, f);
    lemma_opens_first(samples, sample_rate, f);
    assert forall|j: int| 0 <= j < peaks.len() implies (#[trigger] peaks[j] > 0x3b83_126f
        <==> exceeds(samples, n, j, 0x3b83_126f)) by {
        peaks_are_the_loudest(samples, five_ms(sample_rate), j, 0x3b83_126f);
    }
    assert forall|j: int| t <= j < f implies #[trigger] exceeds(samples, n, j, 0x3b83_126f) by {
        assert(peaks[j] > 0x3b83_126f);
    }
    if t > 0 {
        assert(peaks[t - 1] <= 0x3b83_126f);
    }
    assert(starts_speech(samples, n, t));
    if starts_speech(samples, n, s) {
        let o = choose|o: int|
            s <= o && #[trigger] opens_first(samples, n, o) && (forall|j: int|
                s <= j < o ==> #[trigger] exceeds(samples, n, j, 0x3b83_126f));
        lemma_opens_first(samples, sample_rate, o);
        if s < t {
            assert(exceeds(samples, n, t - 1, 0x3b83_126f));
        }
        if t < s {
            assert(exceeds(samples, n, s - 1, 0x3b83_126f)) by {
                assert(peaks[s - 1] > 0x3b83_126f);
            }
        }
    }
}

// ---------------------------------------------------------------------------
// What becomes silent
// ---------------------------------------------------------------------------

/// Whether the blocks from `a` to before `b` are a click before speech starts with
/// block `start`: they are all above 0.004, with a quiet block or an end on either
/// side; they are ten or fewer; and one of them is above 0.03.
pub open spec fn clicks(samples: Seq<Sample>, n: int, start: int, a: int, b: int) -> bool {
    &&& 0 <= a < b <= start
    &&& b - a <= 10
    &&& forall|j: int| a <= j < b ==> #[trigger] exceeds(samples, n, j, 0x3b83_126f)
    &&& a == 0 || !exceeds(samples, n, a - 1, 0x3b83_126f)
    &&& b == start || !exceeds(samples, n, b, 0x3b83_126f)
    &&& exists|c: int| a <= c < b && #[trigger] exceeds(samples, n, c, 0x3cf5_c28f)
}

proof fn lemma_clicks(samples: Seq<Sample>, sample_rate: u32, start: int, a: int, b: int)
    requires
        starts_speech(samples, five_ms(sample_rate), start),
    ensures
        clicks(samples, five_ms(sample_rate), start, a, b) <==> is_click(
            peaks_of(levels_of(samples), block_len(sample_rate)),
            a,
            b,
        ),
        start <= blocks_in(samples, five_ms(sample_rate)),
{
    let n = five_ms(sample_rate);
    let peaks = peaks_of(levels_of(samples), block_len(sample_rate));
    lemma_blocks_in(samples, n);
    speech_starts_once(samples, sample_rate, start);
    lemma_first_onset_is(peaks, 0);
    lemma_lead_in(peaks, first_onset(peaks, 0));
    assert(start <= peaks.len());
    assert forall|j: int| 0 <= j < peaks.len() implies {
        &&& #[trigger] peaks[j] > 0x3b83_126f <==> exceeds(samples, n, j, 0x3b83_126f)
        &&& peaks[j] > 0x3cf5_c28f <==> exceeds(samples, n, j, 0x3cf5_c28f)
    } by {
        peaks_are_the_loudest(samples, five_ms(sample_rate), j, 0x3b83_126f);
        peaks_are_the_loudest(samples, five_ms(sample_rate), j, 0x3cf5_c28f);
    }
    if is_click(peaks, a, b) {
        let c = choose|c: int| a <= c < b && #[trigger] peaks[c] > CLICK_LEVEL;
        assert(exceeds(samples, n, c, 0x3cf5_c28f));
        assert forall|j: int| a <= j < b implies #[trigger] exceeds(
            samples,
            n,
            j,
            0x3b83_126f,
        ) by {
            assert(peaks[j] > QUIET_LEVEL);
        }
        if a > 0 {
            assert(peaks[a - 1] <= 0x3b83_126f);
        }
        if b < start {
            assert(peaks[b] <= 0x3b83_126f);
        }
    }
    if clicks(samples, n, start, a, b) {
        let c = choose|c: int| a <= c < b && #[trigger] exceeds(samples, n, c, 0x3cf5_c28f);
        assert(peaks[c] > CLICK_LEVEL);
        assert forall|j: int| a <= j < b implies #[trigger] peaks[j] > QUIET_LEVEL by {
            assert(exceeds(samples, n, j, 0x3b83_126f));
        }
        if a > 0 {
            assert(!(peaks[a - 1] > 0x3b83_126f));
        }
        if b < start {
            assert(!(peaks[b] > 0x3b83_126f));
        }
        assert(is_run(peaks, speech_start(peaks), a, b));
    }
}

/// Every click before speech is silenced, however loud: afterwards all samples of its
/// blocks are zero.
pub proof fn every_click_is_silenced(
    after: Seq<Sample>,
    before: Seq<Sample>,
    sample_rate: u32,
    start: int,
    a: int,
    b: int,
    i: int,
)
    requires
        is_cleaned(after, before, sample_rate),
        starts_speech(before, five_ms(sample_rate), start),
        clicks(before, five_ms(sample_rate), start, a, b),
        a * five_ms(sample_rate) <= i < b * five_ms(sample_rate),
        0 <= i < before.len(),
    ensures
        after.len() == before.len(),
        heard(after[i]) == 0,
{
    let n = five_ms(sample_rate);
    let peaks = peaks_of(levels_of(before), block_len(sample_rate));
    lemma_clicks(before, sample_rate, start, a, b);
    let j = i / n;
    vstd::arithmetic::div_mod::lemma_fundamental_div_mod(i, n);
    assert(a <= j < b) by (nonlinear_arith)
        requires
            i == n * j + i % n,
            0 <= i % n < n,
            a * n <= i < b * n,
            n >= 1,
    ;
    assert(in_click(peaks, j));
    assert(gated(before, sample_rate)[i] == Sample::silence());
    lemma_after(after, before, sample_rate, i);
    loudness_is_the_magnitude(after[i]);
}

proof fn lemma_after(after: Seq<Sample>, before: Seq<Sample>, sample_rate: u32, i: int)
    requires
        is_cleaned(after, before, sample_rate),
        0 <= i < before.len(),
    ensures
        after.len() == before.len(),
        after[i].loudness() <= gated(before, sample_rate)[i].loudness(),
        i >= sample_rate as int * 3 / 1000 ==> after[i] == gated(before, sample_rate)[i],
{
    let k = fade_len(before.len(), sample_rate);
    let middle = gated(before, sample_rate);
    if i < k {
        assert(after[i].is_faded(middle[i], i as nat, k as nat));
        fading_only_attenuates(after[i], middle[i], i as nat, k as nat);
    }
}

/// Nothing else is changed: behind the first three milliseconds, a sample that is not
/// in a click before speech stays as it is. So speech, anything longer than ten
/// blocks, and anything that stays below 0.03 is kept.
pub proof fn nothing_else_is_changed(
    after: Seq<Sample>,
    before: Seq<Sample>,
    sample_rate: u32,
    start: int,
    i: int,
)
    requires
        is_cleaned(after, before, sample_rate),
        starts_speech(before, five_ms(sample_rate), start),
        0 <= i < before.len(),
        i >= sample_rate as int * 3 / 1000,
        forall|a: int, b: int|
            a * five_ms(sample_rate) <= i < b * five_ms(sample_rate) ==> !#[trigger] clicks(
                before,
                five_ms(sample_rate),
                start,
                a,
                b,
            ),
    ensures
        after[i] == before[i],
{
    let n = five_ms(sample_rate);
    let peaks = peaks_of(levels_of(before), block_len(sample_rate));
    let j = i / n;
    if in_click(peaks, j) {
        let (a, b) = choose|a: int, b: int| a <= j < b && #[trigger] is_click(peaks, a, b);
        lemma_clicks(before, sample_rate, start, a, b);
        vstd::arithmetic::div_mod::lemma_fundamental_div_mod(i, n);
        assert(a * n <= i < b * n) by (nonlinear_arith)
            requires
                i == n * j + i % n,
                0 <= i % n < n,
                a <= j,
                j + 1 <= b,
                n >= 1,
        ;
        assert(clicks(before, n, start, a, b));
    }
    lemma_after(after, before, sample_rate, i);
}

/// The first three milliseconds are faded in: sample `i` of `k` is what gating leaves
/// of it times `i` over `k`, and the very first is silent.
pub proof fn start_is_faded_in(after: Seq<Sample>, before: Seq<Sample>, sample_rate: u32, i: int)
    requires
        is_cleaned(after, before, sample_rate),
        0 <= i < before.len(),
        i < sample_rate as int * 3 / 1000,
    ensures
        ({
            let all = sample_rate as int * 3 / 1000;
            let k = if all < before.len() {
                all
            } else {
                before.len() as int
            };
            after[i].is_faded(gated(before, sample_rate)[i], i as nat, k as nat)
        }),
{
}

// ---------------------------------------------------------------------------
// Tails
// ---------------------------------------------------------------------------

/// What a quiet tail of levels is: none of it is above the limit, it begins with a
/// block, and the block before it holds a level above the limit.
pub proof fn quiet_tail_is_maximal(levels: Seq<u32>, n: int, limit: u32)
    requires
        n >= 1,
    ensures
        ({
            let t = quiet_tail(levels, n, limit);
            let from = levels.len() - t;
            &&& 0 <= t <= levels.len()
            &&& forall|i: int| from <= i < levels.len() ==> #[trigger] levels[i] <= limit
            &&& t > 0 ==> from % n == 0
            &&& t < levels.len() ==> exists|i: int|
                from - n <= i < from && 0 <= i && #[trigger] levels[i] > limit
        }),
{
    let len = levels.len() as int;
    let peaks = peaks_of(levels, n);
    let q = quiet_from(peaks, limit);
    let from = block_start(len, n, q);
    crate::postprocess::lemma_quiet_from(peaks, limit);
    lemma_block_start(len, n, q);
    assert forall|i: int| from <= i < len implies #[trigger] levels[i] <= limit by {
        let j = i / n;
        vstd::arithmetic::div_mod::lemma_fundamental_div_mod(i, n);
        assert(q <= j) by (nonlinear_arith)
            requires
                q * n <= i,
                i == n * j + i % n,
                0 <= i % n < n,
                n >= 1,
        ;
        assert(j * n <= i < j * n + n) by (nonlinear_arith)
            requires
                i == n * j + i % n,
                0 <= i % n < n,
        ;
        crate::postprocess::lemma_block_count_at_least_strict(len, n, j);
        assert(peaks[j] <= limit);
        lemma_block_start(len, n, j);
        let part = block_levels(levels, n, j);
        lemma_peak(part, limit as int);
        assert(part[i - j * n] == levels[i]);
    }
    if from < len {
        assert(from == q * n);
        assert(n * q == q * n) by (nonlinear_arith);
        vstd::arithmetic::div_mod::lemma_fundamental_div_mod_converse(from, n, q, 0);
    }
    if from > 0 {
        assert(q > 0) by {
            assert(0 * n == 0);
        }
        let j = q - 1;
        assert(peaks[j] > limit);
        lemma_block_start(len, n, j);
        lemma_block_inside(len, n, j);
        let part = block_levels(levels, n, j);
        lemma_peak(part, limit as int);
        let k = choose|k: int| 0 <= k < part.len() && #[trigger] part[k] > limit;
        assert(part[k] == levels[j * n + k]);
        assert(levels[j * n + k] > limit);
    }
}

/// A tail in which the last `m` levels are not above the limit is measured, but for a
/// part of a block.
pub proof fn quiet_tail_is_found(levels: Seq<u32>, n: int, limit: u32, m: int)
    requires
        n >= 1,
        0 <= m <= levels.len(),
        forall|i: int| levels.len() - m <= i < levels.len() ==> #[trigger] levels[i] <= limit,
    ensures
        quiet_tail(levels, n, limit) > m - n,
{
    quiet_tail_is_maximal(levels, n, limit);
    let t = quiet_tail(levels, n, limit);
    if t < levels.len() && t <= m - n {
        let from = levels.len() - t;
        let i = choose|i: int| from - n <= i < from && 0 <= i && #[trigger] levels[i] > limit;
        assert(levels[i] <= limit);
    }
}

/// The non-speech at the end of an utterance: none of it is above 0.02, it begins with
/// a block of five milliseconds, and the block before it holds a sample above 0.02.
pub proof fn tail_is_maximal(samples: Seq<Sample>, sample_rate: u32)
    requires
        sample_rate > 0,
    ensures
        ({
            let n = five_ms(sample_rate);
            let t = trailing_nonspeech(samples, sample_rate);
            let from = samples.len() - t;
            &&& 0 <= t <= samples.len()
            &&& forall|i: int|
                from <= i < samples.len() ==> heard(#[trigger] samples[i]) <= 0x3ca3_d70a
            &&& t > 0 ==> from % n == 0
            &&& t < samples.len() ==> exists|i: int|
                from - n <= i < from && 0 <= i && heard(#[trigger] samples[i]) > 0x3ca3_d70a
        }),
{
    let n = five_ms(sample_rate);
    let levels = levels_of(samples);
    let t = trailing_nonspeech(samples, sample_rate);
    let from = samples.len() - t;
    quiet_tail_is_maximal(levels, n, 0x3ca3_d70a);
    assert forall|i: int| from <= i < samples.len() implies heard(#[trigger] samples[i])
        <= 0x3ca3_d70a by {
        loudness_is_the_magnitude(samples[i]);
        assert(levels[i] <= 0x3ca3_d70a);
    }
    if t < samples.len() {
        let i = choose|i: int| from - n <= i < from && 0 <= i && #[trigger] levels[i] > 0x3ca3_d70a;
        loudness_is_the_magnitude(samples[i]);
        assert(heard(samples[i]) > 0x3ca3_d70a);
    }
}

/// Trimming to a release never drops a sample above 0.02: all that is dropped lies
/// behind the last of them.
pub proof fn trimming_drops_no_speech(
    samples: Seq<Sample>,
    sample_rate: u32,
    keep_s: Double,
    removed: Double,
    i: int,
)
    requires
        samples.len() < 0x1_0000_0000_0000,
        samples.len() <= usize::MAX,
        !keep_s.is_nan(),
        !keep_s.negative(),
        !is_at_most(trailing_seconds(samples, sample_rate).double_units(), keep_s),
        is_difference(removed, trailing_seconds(samples, sample_rate).double_units(), keep_s),
        0 <= i < samples.len(),
        heard(samples[i]) > 0x3ca3_d70a,
    ensures
        i < samples.len() - whole_samples(removed, sample_rate, samples.len()),
{
    trimming_leaves_the_release(samples, sample_rate, keep_s, removed);
    if sample_rate > 0 {
        tail_is_maximal(samples, sample_rate);
    }
}

/// Without a rate nothing is measured.
pub proof fn no_rate_no_tail(samples: Seq<Sample>)
    ensures
        trailing_nonspeech(samples, 0) == 0,
        trailing_seconds(samples, 0).samples == 0,
        trailing_seconds(samples, 0).sample_rate == 1,
{
}

/// The tail in seconds is its samples over the rate.
pub proof fn tail_is_measured_at_the_rate(samples: Seq<Sample>, sample_rate: u32)
    requires
        sample_rate > 0,
        samples.len() <= usize::MAX,
    ensures
        trailing_seconds(samples, sample_rate).samples == trailing_nonspeech(samples, sample_rate),
        trailing_seconds(samples, sample_rate).sample_rate == sample_rate,
{
    tail_is_maximal(samples, sample_rate);
}

} // verus!
