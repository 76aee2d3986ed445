//! Live playback: samples drawn one by one out of the chunks that come in.

use crate::sample::Sample;
use vstd::prelude::*;

verus! {

/// The samples of the chunk that is being played.
#[derive(Debug)]
pub struct ChannelSource {
    current: Vec<Sample>,
    next: usize,
    sample_rate: u32,
}

/// What is left to play, at any time.
pub struct Playback {
    /// What is left of the current chunk.
    pub rest: Seq<Sample>,
    /// The rate of the samples.
    pub sample_rate: u32,
}

impl View for ChannelSource {
    type V = Playback;

    closed spec fn view(&self) -> Playback {
        Playback { rest: self.current@.skip(self.next as int), sample_rate: self.sample_rate }
    }
}

impl ChannelSource {
    /// What holds at any time.
    pub closed spec fn wf(self) -> bool {
        self.next <= self.current@.len()
    }

    /// Playback before the first chunk.
    pub fn new(sample_rate: u32) -> (r: Self)
        ensures
            r.wf(),
            r@ == (Playback { rest: Seq::empty(), sample_rate }),
    {
        let r = ChannelSource { current: Vec::new(), next: 0, sample_rate };
        assert(r@.rest =~= Seq::empty());
        r
    }

    /// The next sample, or nothing when another chunk has to come.
    pub fn next(&mut self) -> (r: Option<Sample>)
        requires
            old(self).wf(),
        ensures
            final(self).wf(),
            match r {
                Some(sample) => {
                    &&& old(self)@.rest.len() > 0
                    &&& sample == old(self)@.rest[0]
                    &&& final(self)@ == (Playback {
                        rest: old(self)@.rest.drop_first(),
                        ..old(self)@
                    })
                },
                None => old(self)@.rest.len() == 0 && final(self)@ == old(self)@,
            },
    {
        if self.next < self.current.len() {
            let sample: Sample = self.current[self.next];
            self.next = self.next + 1;
            assert(self@.rest =~= old(self)@.rest.drop_first());
            Some(sample)
        } else {
            None
        }
    }

    /// Goes on with a chunk that has come.
    pub fn feed(&mut self, chunk: Vec<Sample>)
        requires
            old(self).wf(),
        ensures
            final(self).wf(),
            final(self)@ == (Playback { rest: chunk@, ..old(self)@ }),
    {
        self.current = chunk;
        self.next = 0;
        assert(self@.rest =~= chunk@);
    }

    /// The rate of the samples.
    pub fn sample_rate(&self) -> (r: u32)
        ensures
            r == self@.sample_rate,
    {
        self.sample_rate
    }
}

} // verus!
