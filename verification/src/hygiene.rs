//! Cheap quality checks on a reference recording.

use crate::postprocess::{
    block_count, block_levels, block_peaks, block_start, lemma_block_inside, lemma_block_start,
    levels, levels_of, peaks_of, SPEECH_LEVEL,
};
use crate::gating::{exceeds, heard, lemma_blocks_in, peaks_are_the_loudest};
use crate::sample::{Sample, INFINITY_BITS, SIGN_BIT};
use crate::seconds::{seconds_text, Seconds};
use crate::text;
use vstd::prelude::*;
use vstd::relations::{sorted_by, total_ordering};

verus! {

/// The peak above which a block is a spike: the bits of 0.5.
pub const SPIKE_LEVEL: u32 = 0x3f00_0000;

/// The peak below which a block is quiet: the bits of 0.05.
pub const HUSH_LEVEL: u32 = 0x3d4c_cccd;

/// The shortest reference that clones reliably, in seconds.
pub const SHORTEST_SECONDS: u64 = 6;

/// The longest reference that clones reliably, in seconds.
pub const LONGEST_SECONDS: u64 = 12;

// ---------------------------------------------------------------------------
// Medians
// ---------------------------------------------------------------------------

/// The order of levels.
pub open spec fn in_order() -> spec_fn(u32, u32) -> bool {
    |a: u32, b: u32| a <= b
}

/// The median of levels, the upper one where there are two.
pub open spec fn median(levels: Seq<u32>) -> u32 {
    levels.sort_by(in_order())[levels.len() as int / 2]
}

/// How many levels lie below `limit`.
pub open spec fn count_below(levels: Seq<u32>, limit: u32) -> nat
    decreases levels.len(),
{
    if levels.len() == 0 {
        0
    } else {
        count_below(levels.drop_last(), limit) + (if levels.last() < limit {
            1nat
        } else {
            0
        })
    }
}

proof fn lemma_count_without(levels: Seq<u32>, limit: u32, i: int)
    requires
        0 <= i < levels.len(),
    ensures
        count_below(levels, limit) == count_below(levels.remove(i), limit) + (if levels[i]
            < limit {
            1nat
        } else {
            0
        }),
    decreases levels.len(),
{
    if i == levels.len() - 1 {
        assert(levels.remove(i) =~= levels.drop_last());
    } else {
        lemma_count_without(levels.drop_last(), limit, i);
        assert(levels.remove(i).drop_last() =~= levels.drop_last().remove(i));
    }
}

/// Counting does not depend on the order.
proof fn lemma_count_permuted(a: Seq<u32>, b: Seq<u32>, limit: u32)
    requires
        a.to_multiset() == b.to_multiset(),
    ensures
        a.len() == b.len(),
        count_below(a, limit) == count_below(b, limit),
    decreases a.len(),
{
    broadcast use vstd::seq_lib::group_to_multiset_ensures;

    assert(a.to_multiset().len() == a.len());
    assert(b.to_multiset().len() == b.len());
    if a.len() > 0 {
        let last = a.len() - 1;
        let x = a[last];
        assert(a.contains(x));
        assert(b.to_multiset().count(x) > 0);
        assert(b.contains(x));
        let i = choose|i: int| 0 <= i < b.len() && b[i] == x;
        lemma_count_without(a, limit, last);
        lemma_count_without(b, limit, i);
        assert(a.remove(last).to_multiset() =~= a.to_multiset().remove(x));
        assert(b.remove(i).to_multiset() =~= b.to_multiset().remove(x));
        lemma_count_permuted(a.remove(last), b.remove(i), limit);
    }
}

/// In sorted levels, those below `limit` stand in front.
proof fn lemma_count_sorted(s: Seq<u32>, limit: u32, k: int)
    requires
        forall|i: int, j: int| 0 <= i < j < s.len() ==> s[i] <= s[j],
        0 <= k < s.len(),
    ensures
        s[k] < limit <==> count_below(s, limit) > k,
    decreases s.len(),
{
    let n = s.len() as int;
    let front = s.drop_last();
    assert forall|i: int, j: int| 0 <= i < j < front.len() implies front[i] <= front[j] by {
        assert(s[i] <= s[j]);
    }
    lemma_count_at_most(front, limit);
    if k < n - 1 {
        lemma_count_sorted(front, limit, k);
        assert(front[k] == s[k]);
        if s[n - 1] < limit {
            assert(s[k] <= s[n - 1]);
        }
    } else if s[n - 1] < limit {
        assert forall|i: int| 0 <= i < front.len() implies front[i] < limit by {
            assert(s[i] <= s[n - 1]);
        }
        lemma_count_all(front, limit);
    }
}

proof fn lemma_count_at_most(s: Seq<u32>, limit: u32)
    ensures
        count_below(s, limit) <= s.len(),
    decreases s.len(),
{
    if s.len() > 0 {
        lemma_count_at_most(s.drop_last(), limit);
    }
}

proof fn lemma_count_all(s: Seq<u32>, limit: u32)
    requires
        forall|i: int| 0 <= i < s.len() ==> #[trigger] s[i] < limit,
    ensures
        count_below(s, limit) == s.len(),
    decreases s.len(),
{
    if s.len() > 0 {
        let front = s.drop_last();
        assert forall|i: int| 0 <= i < front.len() implies #[trigger] front[i] < limit by {
            assert(s[i] < limit);
        }
        lemma_count_all(front, limit);
    }
}

/// The median lies below a limit exactly when more than half of the levels do.
pub proof fn median_by_counting(levels: Seq<u32>, limit: u32)
    requires
        levels.len() > 0,
    ensures
        median(levels) < limit <==> count_below(levels, limit) > levels.len() as int / 2,
{
    let leq = in_order();
    let sorted = levels.sort_by(leq);
    assert(total_ordering(leq));
    levels.lemma_sort_by_ensures(leq);
    lemma_count_permuted(levels, sorted, limit);
    assert forall|i: int, j: int| 0 <= i < j < sorted.len() implies sorted[i] <= sorted[j] by {
        assert(sorted_by(sorted, leq));
        assert(leq(sorted[i], sorted[j]));
    }
    lemma_count_sorted(sorted, limit, levels.len() as int / 2);
}

// ---------------------------------------------------------------------------
// Spikes
// ---------------------------------------------------------------------------

/// The samples in ten milliseconds, at least one.
pub open spec fn spike_block(sample_rate: u32) -> int {
    if sample_rate < 100 {
        1
    } else {
        sample_rate as int / 100
    }
}

/// The magnitudes of samples as bit patterns. What is not a number stands above all
/// numbers.
pub open spec fn magnitudes_of(samples: Seq<Sample>) -> Seq<u32> {
    samples.map_values(|s: Sample| s.unsigned_bits())
}

/// Whether block `j` is a loud spike over near-silence, behind a quiet block or at
/// the very start. What is not a number is not loud, but neither is it silence: it
/// counts for the median, above all numbers.
pub open spec fn is_spike(samples: Seq<Sample>, block: int, j: int) -> bool {
    let peaks = peaks_of(levels_of(samples), block);
    &&& peaks[j] > SPIKE_LEVEL
    &&& median(block_levels(magnitudes_of(samples), block, j)) < SPEECH_LEVEL
    &&& j == 0 || peaks[j - 1] < HUSH_LEVEL
}

/// Whether there is an isolated spike.
pub open spec fn has_spike(samples: Seq<Sample>, block: int) -> bool {
    exists|j: int|
        0 <= j < block_count(samples.len() as int, block) && #[trigger] is_spike(samples, block, j)
}

/// The magnitudes of samples as bit patterns.
fn magnitudes(samples: &Vec<Sample>) -> (r: Vec<u32>)
    ensures
        r@ == magnitudes_of(samples@),
{
    let mut r: Vec<u32> = Vec::new();
    let mut i: usize = 0;
    while i < samples.len()
        invariant
            i <= samples@.len(),
            r@ == magnitudes_of(samples@.take(i as int)),
        decreases samples@.len() - i,
    {
        let bits: u32 = samples[i].bits;
        r.push(
            if bits >= SIGN_BIT {
                bits - SIGN_BIT
            } else {
                bits
            },
        );
        assert(r@ =~= magnitudes_of(samples@.take(i + 1)));
        i += 1;
    }
    assert(samples@.take(samples@.len() as int) =~= samples@);
    r
}

/// Whether the median of the levels from `from` to before `to` lies below `limit`.
fn median_is_below(levels: &Vec<u32>, from: usize, to: usize, limit: u32) -> (r: bool)
    requires
        from < to <= levels@.len(),
    ensures
        r == (median(levels@.subrange(from as int, to as int)) < limit),
{
    let ghost all = levels@.subrange(from as int, to as int);
    let mut count: usize = 0;
    let mut i: usize = from;
    while i < to
        invariant
            from <= i <= to <= levels@.len(),
            count <= i - from,
            count == count_below(levels@.subrange(from as int, i as int), limit),
        decreases to - i,
    {
        assert(levels@.subrange(from as int, i + 1).drop_last() =~= levels@.subrange(
            from as int,
            i as int,
        ));
        if levels[i] < limit {
            count += 1;
        }
        i += 1;
    }
    proof {
        median_by_counting(all, limit);
    }
    count > (to - from) / 2
}

/// Whether there is an isolated spike.
fn find_spike(samples: &Vec<Sample>, block: usize) -> (r: bool)
    requires
        block >= 1,
    ensures
        r == has_spike(samples@, block as int),
{
    let peaks: Vec<u32> = block_peaks(&levels(samples), block);
    let magnitudes: Vec<u32> = magnitudes(samples);
    let n: usize = samples.len();
    let mut prev_quiet: bool = true;
    let mut pos: usize = 0;
    let mut j: usize = 0;
    while j < peaks.len()
        invariant
            block >= 1,
            n == samples@.len(),
            peaks@ == peaks_of(levels_of(samples@), block as int),
            magnitudes@ == magnitudes_of(samples@),
            j <= peaks@.len(),
            pos == block_start(n as int, block as int, j as int),
            prev_quiet == (j == 0 || peaks@[j - 1] < HUSH_LEVEL),
            forall|k: int| 0 <= k < j ==> !#[trigger] is_spike(samples@, block as int, k),
        decreases peaks@.len() - j,
    {
        proof {
            lemma_block_start(n as int, block as int, j as int);
            lemma_block_inside(n as int, block as int, j as int);
        }
        let end: usize = if n - pos > block {
            pos + block
        } else {
            n
        };
        assert(end == block_start(n as int, block as int, j + 1));
        if peaks[j] > SPIKE_LEVEL && prev_quiet && median_is_below(
            &magnitudes,
            pos,
            end,
            SPEECH_LEVEL,
        ) {
            assert(is_spike(samples@, block as int, j as int));
            return true;
        }
        prev_quiet = peaks[j] < HUSH_LEVEL;
        pos = end;
        j += 1;
    }
    false
}

// ---------------------------------------------------------------------------
// Warnings
// ---------------------------------------------------------------------------

/// The warning about the length of a reference, if there is one.
pub open spec fn length_warning(seconds: Seconds) -> Seq<Seq<char>> {
    if seconds.falls_short_of(SHORTEST_SECONDS as int) {
        seq![
            "reference is "@ + seconds.shown()
                + "s; 6-12s clones more reliably (short refs weaken cloning)"@,
        ]
    } else if seconds.exceeds(LONGEST_SECONDS as int) {
        seq![
            "reference is "@ + seconds.shown()
                + "s; >12s can degrade first-word reliability — consider trimming to a sentence boundary"@,
        ]
    } else {
        Seq::empty()
    }
}

/// The warnings about a reference.
pub open spec fn warnings_for(samples: Seq<Sample>, sample_rate: u32) -> Seq<Seq<char>> {
    length_warning(Seconds { samples: samples.len() as usize, sample_rate }) + (if has_spike(
        samples,
        spike_block(sample_rate),
    ) {
        seq![
            "possible click artifact (loud spike over near-silence) — scan the reference"@,
        ]
    } else {
        Seq::empty()
    })
}

/// Cheap quality checks on a reference: its length, and isolated spikes over
/// near-silence, which are likely click artifacts.
pub fn hygiene_warnings(samples: &Vec<Sample>, sample_rate: u32) -> (r: Vec<String>)
    requires
        samples@.len() < 0x20_0000_0000_0000,
    ensures
        r@.map_values(|w: String| w@) == warnings_for(samples@, sample_rate),
{
    let seconds: Seconds = Seconds { samples: samples.len(), sample_rate };
    let mut warnings: Vec<String> = Vec::new();
    let count: u64 = samples.len() as u64;
    if count < SHORTEST_SECONDS * sample_rate as u64 {
        let mut w: String = text::concat("reference is ", seconds_text(seconds).as_str());
        vstd::string::StringExecFns::append(
            &mut w,
            "s; 6-12s clones more reliably (short refs weaken cloning)",
        );
        warnings.push(w);
    } else if count > LONGEST_SECONDS * sample_rate as u64 {
        let mut w: String = text::concat("reference is ", seconds_text(seconds).as_str());
        vstd::string::StringExecFns::append(
            &mut w,
            "s; >12s can degrade first-word reliability — consider trimming to a sentence boundary",
        );
        warnings.push(w);
    }
    assert(warnings@.map_values(|w: String| w@) =~= length_warning(seconds));
    let block: usize = if sample_rate < 100 {
        1
    } else {
        (sample_rate / 100) as usize
    };
    if find_spike(samples, block) {
        warnings.push(
            "possible click artifact (loud spike over near-silence) — scan the reference".to_owned(),
        );
    }
    assert(warnings@.map_values(|w: String| w@) =~= warnings_for(samples@, sample_rate));
    warnings
}

/// Without anything that is not a number, the median is taken over the levels that
/// the peaks are taken over.
pub proof fn numbers_have_their_levels(samples: Seq<Sample>)
    requires
        forall|i: int| 0 <= i < samples.len() ==> !(#[trigger] samples[i]).is_nan(),
    ensures
        magnitudes_of(samples) == levels_of(samples),
{
    assert(magnitudes_of(samples) =~= levels_of(samples));
}

/// A block of which no more than half is finite numbers is no spike.
pub proof fn nan_is_not_silence(samples: Seq<Sample>, block: int, j: int)
    requires
        block >= 1,
        0 <= j < block_count(samples.len() as int, block),
        count_below(block_levels(magnitudes_of(samples), block, j), INFINITY_BITS) <= block_levels(
            magnitudes_of(samples),
            block,
            j,
        ).len() as int / 2,
    ensures
        !is_spike(samples, block, j),
{
    let part = block_levels(magnitudes_of(samples), block, j);
    let n = samples.len() as int;
    lemma_block_start(n, block, j);
    lemma_block_inside(n, block, j);
    assert(part.len() > 0);
    median_by_counting(part, INFINITY_BITS);
}

/// A good reference draws no warning: one of six to twelve seconds without an
/// isolated spike.
pub proof fn good_reference_draws_no_warning(samples: Seq<Sample>, sample_rate: u32)
    requires
        samples.len() <= usize::MAX,
    ensures
        warnings_for(samples, sample_rate).len() == 0 <==> {
            &&& SHORTEST_SECONDS * sample_rate <= samples.len() <= LONGEST_SECONDS * sample_rate
            &&& !has_spike(samples, spike_block(sample_rate))
        },
{
}

// ---------------------------------------------------------------------------
// What is warned about
// ---------------------------------------------------------------------------

/// The samples in ten milliseconds, at least one.
pub open spec fn ten_ms(sample_rate: u32) -> int {
    if sample_rate < 100 {
        1
    } else {
        sample_rate as int / 100
    }
}

/// How many samples from `from` to before `to` are of a magnitude below 0.02.
pub open spec fn faint_count(samples: Seq<Sample>, from: int, to: int) -> int
    decreases to - from,
{
    if from >= to {
        0
    } else {
        faint_count(samples, from, to - 1) + (if samples[to - 1].bits as int % 0x8000_0000
            < 0x3ca3_d70a {
            1int
        } else {
            0
        })
    }
}

/// Whether block `j` of `n` samples is a spike: it holds a sample above 0.5; more than
/// half of its samples are below 0.02; and all samples of the block before, if there is
/// one, are below 0.05.
pub open spec fn spikes(samples: Seq<Sample>, n: int, j: int) -> bool {
    let from = j * n;
    let to = if from + n < samples.len() {
        from + n
    } else {
        samples.len() as int
    };
    &&& 0 <= j
    &&& from < to
    &&& exists|i: int| from <= i < to && heard(#[trigger] samples[i]) > 0x3f00_0000
    &&& 2 * faint_count(samples, from, to) > to - from
    &&& forall|i: int| from - n <= i < from && 0 <= i ==> heard(#[trigger] samples[i]) < 0x3d4c_cccd
}

/// A recording has a spike exactly when one of its blocks of ten milliseconds is one.
pub proof fn spikes_are_found(samples: Seq<Sample>, sample_rate: u32)
    ensures
        has_spike(samples, spike_block(sample_rate)) <==> exists|j: int| #[trigger]
            spikes(samples, ten_ms(sample_rate), j),
{
    let n = ten_ms(sample_rate);
    let len = samples.len() as int;
    lemma_blocks_in(samples, n);
    if has_spike(samples, spike_block(sample_rate)) {
        let j = choose|j: int|
            0 <= j < block_count(len, n) && #[trigger] is_spike(samples, n, j);
        lemma_spike(samples, n, j);
        assert(spikes(samples, n, j));
    }
    if exists|j: int| #[trigger] spikes(samples, n, j) {
        let j = choose|j: int| #[trigger] spikes(samples, n, j);
        crate::postprocess::lemma_block_count_at_least_strict(len, n, j);
        lemma_spike(samples, n, j);
        assert(is_spike(samples, n, j));
    }
}

proof fn lemma_spike(samples: Seq<Sample>, n: int, j: int)
    requires
        n >= 1,
        0 <= j < block_count(samples.len() as int, n),
    ensures
        is_spike(samples, n, j) <==> spikes(samples, n, j),
{
    let len = samples.len() as int;
    let peaks = peaks_of(levels_of(samples), n);
    let part = block_levels(magnitudes_of(samples), n, j);
    lemma_blocks_in(samples, n);
    lemma_block_start(len, n, j);
    lemma_block_inside(len, n, j);
    let from = block_start(len, n, j);
    let to = block_start(len, n, j + 1);
    assert(from == j * n);
    assert(from >= 0);
    peaks_are_the_loudest(samples, n, j, 0x3f00_0000);
    assert(part.len() == to - from);
    lemma_faint(samples, from, to);
    assert(part =~= magnitudes_of(samples).subrange(from, to));
    median_by_counting(part, SPEECH_LEVEL);
    if j > 0 {
        peaks_are_the_loudest(samples, n, j - 1, 0x3d4c_cccc);
        assert((j - 1) * n == j * n - n) by (nonlinear_arith);
        if !exceeds(samples, n, j - 1, 0x3d4c_cccc) {
            assert forall|i: int| from - n <= i < from && 0 <= i implies heard(
                #[trigger] samples[i],
            ) < 0x3d4c_cccd by {
                assert(!(heard(samples[i]) > 0x3d4c_cccc));
            }
        } else {
            let i = choose|i: int|
                (j - 1) * n <= i < (j - 1) * n + n && i < samples.len() && heard(
                    #[trigger] samples[i],
                ) > 0x3d4c_cccc;
            assert((j - 1) * n >= 0) by (nonlinear_arith)
                requires
                    j >= 1,
                    n >= 1,
            ;
        }
    } else {
        assert(j * n == 0) by (nonlinear_arith)
            requires
                j == 0,
        ;
    }
    if exceeds(samples, n, j, 0x3f00_0000) {
        let i = choose|i: int|
            j * n <= i < j * n + n && i < samples.len() && heard(#[trigger] samples[i])
                > 0x3f00_0000;
        assert(from <= i < to && heard(samples[i]) > 0x3f00_0000);
    }
    if exists|i: int| from <= i < to && heard(#[trigger] samples[i]) > 0x3f00_0000 {
        let i = choose|i: int| from <= i < to && heard(#[trigger] samples[i]) > 0x3f00_0000;
        assert(j * n <= i < j * n + n && i < samples.len());
    }
}

proof fn lemma_faint(samples: Seq<Sample>, from: int, to: int)
    requires
        0 <= from <= to <= samples.len(),
    ensures
        count_below(magnitudes_of(samples).subrange(from, to), SPEECH_LEVEL) == faint_count(
            samples,
            from,
            to,
        ),
    decreases to - from,
{
    if from < to {
        lemma_faint(samples, from, to - 1);
        let all = magnitudes_of(samples).subrange(from, to);
        assert(all.drop_last() =~= magnitudes_of(samples).subrange(from, to - 1));
        assert(all.last() == samples[to - 1].unsigned_bits());
    }
}

/// What is warned about: a reference of less than six seconds is too short, one of more
/// than twelve is too long, and a spike is a warning of its own, the last.
pub proof fn warnings_are_about_length_and_spikes(samples: Seq<Sample>, sample_rate: u32)
    requires
        samples.len() <= usize::MAX,
    ensures
        ({
            let w = warnings_for(samples, sample_rate);
            let shown = (Seconds { samples: samples.len() as usize, sample_rate }).shown();
            let short = samples.len() < 6 * sample_rate;
            let long = samples.len() > 12 * sample_rate;
            let spike = exists|j: int| #[trigger] spikes(samples, ten_ms(sample_rate), j);
            &&& w.len() == (if short || long {
                1int
            } else {
                0
            }) + (if spike {
                1int
            } else {
                0
            })
            &&& short ==> w[0] == "reference is "@ + shown
                + "s; 6-12s clones more reliably (short refs weaken cloning)"@
            &&& long ==> w[0] == "reference is "@ + shown
                + "s; >12s can degrade first-word reliability — consider trimming to a sentence boundary"@
            &&& spike ==> w.last()
                == "possible click artifact (loud spike over near-silence) — scan the reference"@
        }),
{
    spikes_are_found(samples, sample_rate);
}

} // verus!
