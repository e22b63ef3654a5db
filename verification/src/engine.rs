use vstd::prelude::*;
use crate::config::{ConfigError, ProcessError, ResampleAlgorithm, ResamplerConfig};
use crate::filter::{filtered_seq, hist_after};
use crate::frames::Frames;
use crate::linear::{avail_output_of, cap_u64, required_input, LinearResampler};
use crate::model::out_sample;

verus! {

/// The engine façade: one algorithm instance plus the configuration it was
/// built from.  All operations delegate to the algorithm, and the held
/// configuration reflects every rate change.  The band-limited algorithm of
/// the configuration enum is an external backend this library cannot embed,
/// so selecting it is rejected at construction; the linear algorithm is the
/// one dispatched to.
pub struct Resampler {
    pub config: ResamplerConfig,
    pub linear: LinearResampler,
}

impl Resampler {
    /// The algorithm state agrees with the held configuration.
    pub open spec fn wf(&self) -> bool {
        &&& self.linear.wf()
        &&& self.config.algorithm == ResampleAlgorithm::Linear
        &&& self.linear.config == self.config.linear_view()
    }

    /// Validates the configuration and builds the selected algorithm.
    /// Rejected exactly when the channel count or a rate is zero, or when
    /// the band-limited backend is selected; a failed construction builds
    /// nothing.
    pub fn new(config: &ResamplerConfig) -> (r: Result<Resampler, ConfigError>)
        requires
            config.linear_lpf_order * config.channels <= usize::MAX,
        ensures
            (r matches Err(e) && e == ConfigError::ZeroChannels) <==> config.channels == 0,
            (r matches Err(e) && e == ConfigError::ZeroSampleRate) <==> (config.channels >= 1 && (
            config.sample_rate_in == 0 || config.sample_rate_out == 0)),
            (r matches Err(e) && e == ConfigError::UnsupportedAlgorithm) <==> (config.channels >= 1
                && config.sample_rate_in >= 1 && config.sample_rate_out >= 1 && config.algorithm
                == ResampleAlgorithm::Speex),
            r matches Ok(engine) ==> engine.wf() && engine.config == *config
                && engine.linear.is_fresh_from(config.linear_view()),
            config.channels >= 1 && config.sample_rate_in >= 1 && config.sample_rate_out >= 1
                && config.algorithm == ResampleAlgorithm::Linear ==> r is Ok,
    {
        if config.channels == 0 {
            return Err(ConfigError::ZeroChannels);
        }
        if config.sample_rate_in == 0 || config.sample_rate_out == 0 {
            return Err(ConfigError::ZeroSampleRate);
        }
        match config.algorithm {
            ResampleAlgorithm::Speex => Err(ConfigError::UnsupportedAlgorithm),
            ResampleAlgorithm::Linear => {
                let linear = match LinearResampler::new(&config.to_linear()) {
                    Ok(l) => l,
                    Err(e) => {
                        proof {
                            assert(false);
                        }
                        return Err(e);
                    },
                };
                Ok(Resampler { config: *config, linear })
            },
        }
    }

    /// The last-applied configuration, reflecting rate changes.
    pub fn config(&self) -> (r: &ResamplerConfig)
        ensures
            r == self.config,
    {
        &self.config
    }

    /// Delegates to the algorithm: resamples up to all of `input`'s frames
    /// into `output` and reports exactly how many whole input frames were
    /// consumed and output frames produced; see
    /// `LinearResampler::process_pcm_frames` for the full contract restated
    /// here.
    pub fn process_pcm_frames(&mut self, output: &mut Frames, input: &Frames) -> (r: Result<
        (u64, u64),
        ProcessError,
    >)
        requires
            old(self).wf(),
            old(output).wf(),
            input.wf(),
            input.spec_channels() == old(self).config.channels as int,
            old(output).spec_channels() == old(self).config.channels as int,
            input.spec_frame_count() + u32::MAX < u64::MAX,
        ensures
            final(self).wf(),
            final(output).wf(),
            final(output).channels == old(output).channels,
            final(output)@.len() == old(output)@.len(),
            final(self).config == old(self).config,
            ({
                let count = input.spec_frame_count();
                let cap = old(output).spec_frame_count();
                let start = old(self).linear.time_num();
                let rin = old(self).config.sample_rate_in as int;
                let rout = old(self).config.sample_rate_out as int;
                let c = old(self).config.channels as int;
                let eff = filtered_seq(old(self).linear.history@, old(
                self).config.linear_lpf_order as int, c, old(self).linear.alpha as int, input@,
                    count);
                let av = avail_output_of(start, rin, rout, count);
                let p = if cap <= av {
                    cap
                } else {
                    av
                };
                let cons = if count <= (start + p * rin) / rout {
                    count
                } else {
                    (start + p * rin) / rout
                };
                &&& (r matches Ok((consumed, produced)) && produced == p && consumed == cons)
                &&& final(self).linear.time_num() == start + p * rin - cons * rout
                &&& final(self).linear.history@ == hist_after(old(self).linear.history@, old(
                self).config.linear_lpf_order as int, c, old(self).linear.alpha as int, input@,
                    cons)
                &&& forall|j: int, ch: int| 0 <= j < p && 0 <= ch < c ==> final(output)@[j * c
                    + ch] as int == out_sample(eff, c, rout, start, rin, j, ch)
                &&& forall|k: int| p * c <= k < old(output)@.len() ==> final(output)@[k] == old(
                output)@[k]
            }),
    {
        self.linear.process_pcm_frames(output, input)
    }

    /// Changes the rate ratio mid-stream: rejected exactly when a rate is
    /// zero, and then nothing changes; on success the configuration is
    /// updated and the algorithm keeps its filter history and integer read
    /// position.
    pub fn set_rate(&mut self, sample_rate_in: u32, sample_rate_out: u32) -> (r: Result<
        (),
        ConfigError,
    >)
        requires
            old(self).wf(),
        ensures
            final(self).wf(),
            r is Err <==> (sample_rate_in == 0 || sample_rate_out == 0),
            r matches Err(e) ==> e == ConfigError::ZeroSampleRate && *final(self) == *old(self),
            r is Ok ==> final(self).config == (ResamplerConfig {
                sample_rate_in,
                sample_rate_out,
                ..old(self).config
            }),
            r is Ok ==> final(self).linear.time_int == old(self).linear.time_int,
            final(self).linear.history@ == old(self).linear.history@,
            final(self).config.linear_lpf_order == old(self).config.linear_lpf_order,
    {
        let r = self.linear.set_rate(sample_rate_in, sample_rate_out);
        if r.is_ok() {
            self.config.sample_rate_in = sample_rate_in;
            self.config.sample_rate_out = sample_rate_out;
        }
        r
    }

    /// Changes the rate ratio given as input frames per output frame in
    /// thousandths; rejected exactly when the ratio is zero.
    pub fn set_rate_ratio(&mut self, ratio_in_out_permille: u32) -> (r: Result<(), ConfigError>)
        requires
            old(self).wf(),
        ensures
            final(self).wf(),
            r is Err <==> ratio_in_out_permille == 0,
            r matches Err(e) ==> e == ConfigError::ZeroSampleRate && *final(self) == *old(self),
            r is Ok ==> final(self).config == (ResamplerConfig {
                sample_rate_in: ratio_in_out_permille,
                sample_rate_out: 1000,
                ..old(self).config
            }),
            final(self).linear.history@ == old(self).linear.history@,
            final(self).config.linear_lpf_order == old(self).config.linear_lpf_order,
    {
        self.set_rate(ratio_in_out_permille, 1000)
    }

    /// Whole input frames needed beyond those already weighed in the read
    /// position to serve `output_frame_count` more output frames.
    pub fn required_input_frame_count(&self, output_frame_count: u64) -> (r: u64)
        requires
            self.wf(),
        ensures
            r == cap_u64(required_input(self.linear.time_num(),
                self.config.sample_rate_in as int, self.config.sample_rate_out as int,
                output_frame_count as int)),
    {
        self.linear.required_input_frame_count(output_frame_count)
    }

    /// Whole output frames served if `input_frame_count` more input frames
    /// are fully consumed.
    pub fn expected_output_frame_count(&self, input_frame_count: u64) -> (r: u64)
        requires
            self.wf(),
        ensures
            r == cap_u64(avail_output_of(self.linear.time_num(),
                self.config.sample_rate_in as int, self.config.sample_rate_out as int,
                input_frame_count as int)),
    {
        self.linear.expected_output_frame_count(input_frame_count)
    }

    /// Latency in input frames.
    pub fn input_latency(&self) -> (r: u64)
        requires
            self.wf(),
        ensures
            r == 1 + self.config.linear_lpf_order,
    {
        self.linear.input_latency()
    }

    /// Latency in output frames.
    pub fn output_latency(&self) -> (r: u64)
        requires
            self.wf(),
        ensures
            r == cap_u64((1 + self.config.linear_lpf_order) * self.config.sample_rate_out as int
                / self.config.sample_rate_in as int),
    {
        self.linear.output_latency()
    }

    /// A fresh engine built from this one's configuration: explicitly a
    /// reset, not a snapshot.
    pub fn duplicate_from_config(&self) -> (r: Resampler)
        requires
            self.wf(),
            self.config.linear_lpf_order * self.config.channels <= usize::MAX,
        ensures
            r.wf(),
            r.config == self.config,
            r.linear.is_fresh_from(self.config.linear_view()),
    {
        Resampler { config: self.config, linear: self.linear.duplicate_from_config() }
    }
}

} // verus!
