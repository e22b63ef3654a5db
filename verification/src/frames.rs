use vstd::prelude::*;
use crate::config::ConfigError;

verus! {

/// An interleaved buffer of signed 16-bit PCM frames: every frame holds one
/// sample per channel, and the buffer holds a whole number of frames.
pub struct Frames {
    pub samples: Vec<i16>,
    pub channels: u32,
}

impl View for Frames {
    type V = Seq<i16>;

    open spec fn view(&self) -> Seq<i16> {
        self.samples@
    }
}

impl Frames {
    /// Well-formed: at least one channel, and the samples split evenly into
    /// frames.
    pub open spec fn wf(&self) -> bool {
        &&& self.channels >= 1
        &&& self@.len() as int % (self.channels as int) == 0
    }

    pub open spec fn spec_channels(&self) -> int {
        self.channels as int
    }

    /// How many frames the buffer holds; for an output buffer this is its
    /// capacity.
    pub open spec fn spec_frame_count(&self) -> int {
        self@.len() as int / (self.channels as int)
    }

    /// In a well-formed buffer the samples are exactly the frames laid out
    /// in order.
    pub proof fn lemma_len_is_frames_times_channels(&self)
        requires
            self.wf(),
        ensures
            self@.len() == self.spec_frame_count() * self.spec_channels(),
            self.spec_frame_count() >= 0,
    {
        vstd::arithmetic::div_mod::lemma_fundamental_div_mod(self@.len() as int,
            self.channels as int);
        vstd::arithmetic::mul::lemma_mul_is_commutative(self.spec_channels(),
            self.spec_frame_count());
    }

    /// Wraps a sample vector; rejected unless the channel count is positive
    /// and the samples split evenly into frames.
    pub fn from_samples(samples: Vec<i16>, channels: u32) -> (r: Result<Frames, ConfigError>)
        ensures
            channels == 0 ==> (r matches Err(e) && e == ConfigError::ZeroChannels),
            channels >= 1 && samples@.len() as int % (channels as int) != 0 ==> (r matches Err(e) && e
                == ConfigError::ZeroChannels),
            channels >= 1 && samples@.len() as int % (channels as int) == 0 ==> (r matches Ok(f) && f.wf()
                && f@ == samples@ && f.spec_channels() == channels),
    {
        if channels == 0 {
            return Err(ConfigError::ZeroChannels);
        }
        if samples.len() % (channels as usize) != 0 {
            return Err(ConfigError::ZeroChannels);
        }
        Ok(Frames { samples, channels })
    }

    /// A buffer of `frame_count` silent frames, or `None` when the sample
    /// count would not fit in memory.
    pub fn new_silence(channels: u32, frame_count: usize) -> (r: Option<Frames>)
        requires
            channels >= 1,
        ensures
            r matches Some(f) ==> f.wf() && f.spec_channels() == channels && f.spec_frame_count()
                == frame_count && f@ == Seq::new((frame_count * channels) as nat, |k: int| 0i16),
            frame_count * channels <= usize::MAX ==> r is Some,
    {
        let total = match frame_count.checked_mul(channels as usize) {
            Some(t) => t,
            None => {
                return None;
            },
        };
        let mut samples: Vec<i16> = Vec::new();
        let mut k: usize = 0;
        while k < total
            invariant
                k <= total,
                samples@.len() == k,
                samples@ == Seq::new(k as nat, |j: int| 0i16),
            decreases total - k,
        {
            samples.push(0i16);
            k = k + 1;
            proof {
                assert(samples@ =~= Seq::new(k as nat, |j: int| 0i16));
            }
        }
        proof {
            vstd::arithmetic::div_mod::lemma_mod_multiples_basic(frame_count as int,
                channels as int);
            vstd::arithmetic::div_mod::lemma_div_by_multiple(frame_count as int, channels as int);
        }
        Some(Frames { samples, channels })
    }

    pub fn channels(&self) -> (r: u32)
        ensures
            r == self.channels,
    {
        self.channels
    }

    pub fn frame_count(&self) -> (r: usize)
        requires
            self.wf(),
        ensures
            r == self.spec_frame_count(),
    {
        self.samples.len() / (self.channels as usize)
    }

    /// The sample of channel `channel` in frame `frame`.
    pub fn sample(&self, frame: usize, channel: u32) -> (r: i16)
        requires
            self.wf(),
            frame < self.spec_frame_count(),
            channel < self.channels,
        ensures
            r == self@[frame * self.spec_channels() + channel],
    {
        let _n: usize = self.samples.len();
        proof {
            self.lemma_index_in_bounds(frame as int, channel as int);
        }
        self.samples[frame * (self.channels as usize) + (channel as usize)]
    }

    /// Overwrites the sample of channel `channel` in frame `frame`.
    pub fn set_sample(&mut self, frame: usize, channel: u32, value: i16)
        requires
            old(self).wf(),
            frame < old(self).spec_frame_count(),
            channel < old(self).channels,
        ensures
            final(self).wf(),
            final(self).channels == old(self).channels,
            final(self)@ == old(self)@.update(frame * old(self).spec_channels() + channel, value),
    {
        let _n: usize = self.samples.len();
        proof {
            self.lemma_index_in_bounds(frame as int, channel as int);
        }
        let idx: usize = frame * (self.channels as usize) + (channel as usize);
        self.samples.set(idx, value);
    }

    /// The flat interleaved samples.
    pub fn samples(&self) -> (r: &Vec<i16>)
        ensures
            r@ == self@,
    {
        &self.samples
    }

    /// A sample index built from a frame and a channel lies inside the
    /// buffer.
    pub proof fn lemma_index_in_bounds(&self, frame: int, channel: int)
        requires
            self.wf(),
            0 <= frame < self.spec_frame_count(),
            0 <= channel < self.channels,
        ensures
            0 <= frame * self.spec_channels() + channel < self@.len(),
    {
        let c = self.spec_channels();
        let n = self.spec_frame_count();
        self.lemma_len_is_frames_times_channels();
        assert(frame * c + channel < n * c) by (nonlinear_arith)
            requires
                0 <= frame < n,
                0 <= channel < c,
                1 <= c,
        ;
        assert(0 <= frame * c) by (nonlinear_arith)
            requires
                0 <= frame,
                0 <= c,
        ;
    }
}

} // verus!
