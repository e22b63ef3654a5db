use vstd::prelude::*;
use vstd::arithmetic::div_mod::{
    lemma_fundamental_div_mod,
    lemma_fundamental_div_mod_converse,
    lemma_multiply_divide_lt,
    lemma_div_pos_is_pos,
    lemma_div_is_ordered,
};
use crate::config::{ConfigError, LinearResamplerConfig, ProcessError};
use crate::filter::{ALPHA_ONE, filter_frames, filtered_seq, hist_after};
use crate::frames::Frames;
use crate::model::{avail_output, out_sample, lerp_exec, lemma_avail_output_iff};

verus! {

/// Caps a mathematical count at what a 64-bit frame count can carry.
pub open spec fn cap_u64(x: int) -> int {
    if x > u64::MAX {
        u64::MAX as int
    } else {
        x
    }
}

/// The filter coefficient the linear algorithm derives from its rates: zero
/// when filtering is disabled, otherwise the one-pole constant for a cutoff
/// at `min(rate_in, rate_out) * nyquist_factor / 2`, filtered at the input
/// rate.  The constant is `2*pi*fc / (rate_in + 2*pi*fc)` in 1/4096 steps,
/// with pi approximated by 355/113.
pub open spec fn alpha_spec(rate_in: int, rate_out: int, lpf_order: int, nyq_permille: int) -> int {
    if lpf_order <= 0 {
        0
    } else {
        let nyq = if nyq_permille < 1 {
            1
        } else if nyq_permille > 1000 {
            1000
        } else {
            nyq_permille
        };
        let minr = if rate_in <= rate_out {
            rate_in
        } else {
            rate_out
        };
        let fc = minr * nyq / 2000;
        (4096 * 710 * fc) / (113 * rate_in + 710 * fc)
    }
}

/// Computes the filter coefficient on machine integers.
pub fn compute_alpha(rate_in: u32, rate_out: u32, lpf_order: u32, nyq_permille: u32) -> (r: u32)
    requires
        rate_in >= 1,
        rate_out >= 1,
    ensures
        r == alpha_spec(rate_in as int, rate_out as int, lpf_order as int, nyq_permille as int),
        r < ALPHA_ONE,
{
    if lpf_order == 0 {
        return 0;
    }
    let nyq: u64 = if nyq_permille < 1 {
        1
    } else if nyq_permille > 1000 {
        1000
    } else {
        nyq_permille as u64
    };
    let minr: u64 = if rate_in <= rate_out {
        rate_in as u64
    } else {
        rate_out as u64
    };
    proof {
        assert(minr * nyq <= 0xffff_ffffu64 * 1000) by (nonlinear_arith)
            requires
                minr <= 0xffff_ffffu64,
                nyq <= 1000,
        ;
    }
    let fc: u64 = minr * nyq / 2000;
    proof {
        lemma_div_pos_is_pos((minr * nyq) as int, 2000);
        lemma_div_is_ordered((minr * nyq) as int, 0xffff_ffffu64 * 1000, 2000);
        assert(710 * fc <= 710 * 2147483647) by (nonlinear_arith)
            requires
                0 <= fc <= 2147483647,
        ;
    }
    let num: u64 = 4096 * (710 * fc);
    let den: u64 = 113 * (rate_in as u64) + 710 * fc;
    proof {
        assert(num < den * 4096) by (nonlinear_arith)
            requires
                num == 4096 * (710 * fc),
                den == 113 * (rate_in as u64) + 710 * fc,
                rate_in >= 1,
                fc >= 0,
        ;
        lemma_multiply_divide_lt(num as int, den as int, 4096);
        assert(num as int / den as int == (4096 * 710 * fc) / (113 * rate_in + 710 * fc)) by (
        nonlinear_arith)
            requires
                num == 4096 * (710 * fc),
                den == 113 * (rate_in as u64) + 710 * fc,
        ;
        lemma_div_pos_is_pos(num as int, den as int);
    }
    (num / den) as u32
}

/// The linear resampling algorithm: fixed-point fractional-position stepping
/// with an optional low-pass cascade on the input stream.
///
/// The read position is the exact rational `time_int + time_frac/rate_out`
/// input frames ahead of the first frame of the next input buffer; each
/// output frame advances it by `rate_in / rate_out`, carried as the pair
/// `advance_int + advance_frac/rate_out`.  Every field is recomputed
/// deterministically from integers, so the position never drifts however
/// many processing calls are made.
pub struct LinearResampler {
    pub config: LinearResamplerConfig,
    pub advance_int: u32,
    pub advance_frac: u32,
    pub time_int: u64,
    pub time_frac: u32,
    pub alpha: u32,
    pub history: Vec<i16>,
}

impl LinearResampler {
    /// Internal consistency: positive rates and channels, the advance pair
    /// derived from the rates, the fractional position in range, and the
    /// filter history sized to the cascade.
    pub open spec fn wf(&self) -> bool {
        &&& self.config.channels >= 1
        &&& self.config.sample_rate_in >= 1
        &&& self.config.sample_rate_out >= 1
        &&& self.advance_int == self.config.sample_rate_in as int / self.config.sample_rate_out as int
        &&& self.advance_frac == self.config.sample_rate_in as int % self.config.sample_rate_out as int
        &&& self.time_frac < self.config.sample_rate_out
        &&& self.time_int <= u32::MAX
        &&& self.alpha == alpha_spec(self.config.sample_rate_in as int,
            self.config.sample_rate_out as int, self.config.lpf_order as int,
            self.config.lpf_nyquist_permille as int)
        &&& self.alpha < ALPHA_ONE
        &&& self.history@.len() == self.config.lpf_order * self.config.channels
    }

    /// Numerator of the current read position over `sample_rate_out`.
    pub open spec fn time_num(&self) -> int {
        self.time_int * self.config.sample_rate_out + self.time_frac
    }

    /// A fresh instance of a validated configuration: the read position at
    /// the origin and the filter history silent.
    pub open spec fn is_fresh_from(&self, config: LinearResamplerConfig) -> bool {
        &&& self.wf()
        &&& self.config == config
        &&& self.time_int == 0
        &&& self.time_frac == 0
        &&& self.history@ == Seq::new((config.lpf_order * config.channels) as nat, |k: int| 0i16)
    }

    /// Builds the state for a configuration already known valid.
    fn init(config: &LinearResamplerConfig) -> (r: LinearResampler)
        requires
            config.channels >= 1,
            config.sample_rate_in >= 1,
            config.sample_rate_out >= 1,
            config.lpf_order * config.channels <= usize::MAX,
        ensures
            r.is_fresh_from(*config),
    {
        let alpha = compute_alpha(config.sample_rate_in, config.sample_rate_out, config.lpf_order,
            config.lpf_nyquist_permille);
        proof {
            assert((config.lpf_order as int) * (config.channels as int) < 0x1_0000_0000_0000_0000)
                by (nonlinear_arith)
                requires
                    config.lpf_order <= u32::MAX,
                    config.channels <= u32::MAX,
            ;
        }
        let total: usize = (config.lpf_order as usize) * (config.channels as usize);
        let mut history: Vec<i16> = Vec::new();
        let mut k: usize = 0;
        while k < total
            invariant
                k <= total,
                history@ =~= Seq::new(k as nat, |j: int| 0i16),
            decreases total - k,
        {
            history.push(0i16);
            k = k + 1;
            proof {
                assert(history@ =~= Seq::new(k as nat, |j: int| 0i16));
            }
        }
        LinearResampler {
            config: *config,
            advance_int: config.sample_rate_in / config.sample_rate_out,
            advance_frac: config.sample_rate_in % config.sample_rate_out,
            time_int: 0,
            time_frac: 0,
            alpha,
            history,
        }
    }

    /// Validates the configuration and builds the algorithm state.  Rejected
    /// exactly when the channel count or one of the rates is zero; on
    /// failure nothing is built.
    pub fn new(config: &LinearResamplerConfig) -> (r: Result<LinearResampler, ConfigError>)
        requires
            config.lpf_order * config.channels <= usize::MAX,
        ensures
            (r matches Err(e) && e == ConfigError::ZeroChannels) <==> config.channels == 0,
            (r matches Err(e) && e == ConfigError::ZeroSampleRate) <==> (config.channels >= 1 && (
            config.sample_rate_in == 0 || config.sample_rate_out == 0)),
            r matches Ok(l) ==> l.is_fresh_from(*config),
            config.channels >= 1 && config.sample_rate_in >= 1 && config.sample_rate_out >= 1
                ==> r is Ok,
    {
        if config.channels == 0 {
            return Err(ConfigError::ZeroChannels);
        }
        if config.sample_rate_in == 0 || config.sample_rate_out == 0 {
            return Err(ConfigError::ZeroSampleRate);
        }
        Ok(Self::init(config))
    }

    /// The last-applied configuration, reflecting rate changes.
    pub fn config(&self) -> (r: &LinearResamplerConfig)
        ensures
            r == self.config,
    {
        &self.config
    }

    /// A fresh instance built from this one's configuration: explicitly a
    /// reset, not a snapshot — the read position and the filter history do
    /// not carry over.  For a true snapshot see `snapshot`.
    pub fn duplicate_from_config(&self) -> (r: LinearResampler)
        requires
            self.wf(),
            self.config.lpf_order * self.config.channels <= usize::MAX,
        ensures
            r.is_fresh_from(self.config),
    {
        Self::init(&self.config)
    }

    /// A deep copy that does carry the read position and the filter history
    /// over.
    pub fn snapshot(&self) -> (r: LinearResampler)
        ensures
            r.config == self.config,
            r.advance_int == self.advance_int,
            r.advance_frac == self.advance_frac,
            r.time_int == self.time_int,
            r.time_frac == self.time_frac,
            r.alpha == self.alpha,
            r.history@ == self.history@,
    {
        let mut history: Vec<i16> = Vec::new();
        let mut k: usize = 0;
        let n: usize = self.history.len();
        while k < n
            invariant
                k <= n,
                n == self.history@.len(),
                history@ =~= self.history@.take(k as int),
            decreases n - k,
        {
            let v: i16 = self.history[k];
            history.push(v);
            k = k + 1;
            proof {
                assert(history@ =~= self.history@.take(k as int));
            }
        }
        proof {
            assert(history@ =~= self.history@);
        }
        LinearResampler {
            config: self.config,
            advance_int: self.advance_int,
            advance_frac: self.advance_frac,
            time_int: self.time_int,
            time_frac: self.time_frac,
            alpha: self.alpha,
            history,
        }
    }

    /// Changes the rate ratio mid-stream.  Rejected exactly when a rate is
    /// zero, and then nothing changes.  On success the integer read
    /// position, the whole filter history and the filter order are kept —
    /// only the advance step and the filter cutoff are recomputed — and the
    /// fractional position is rescaled to the new denominator.
    pub fn set_rate(&mut self, sample_rate_in: u32, sample_rate_out: u32) -> (r: Result<
        (),
        ConfigError,
    >)
        requires
            old(self).wf(),
        ensures
            final(self).wf(),
            r is Err <==> (sample_rate_in == 0 || sample_rate_out == 0),
            r matches Err(e) ==> e == ConfigError::ZeroSampleRate && *final(self) == *old(self),
            r is Ok ==> final(self).config == (LinearResamplerConfig {
                sample_rate_in,
                sample_rate_out,
                ..old(self).config
            }),
            r is Ok ==> final(self).time_int == old(self).time_int,
            r is Ok ==> final(self).time_frac == old(self).time_frac * sample_rate_out as int
                / old(self).config.sample_rate_out as int,
            final(self).history@ == old(self).history@,
            final(self).config.lpf_order == old(self).config.lpf_order,
            final(self).config.channels == old(self).config.channels,
    {
        if sample_rate_in == 0 || sample_rate_out == 0 {
            return Err(ConfigError::ZeroSampleRate);
        }
        let old_out: u32 = self.config.sample_rate_out;
        proof {
            assert((self.time_frac as int) * (sample_rate_out as int) <= 0xffff_ffffu32
                * 0xffff_ffffu32) by (nonlinear_arith)
                requires
                    self.time_frac <= u32::MAX,
                    sample_rate_out <= u32::MAX,
            ;
            assert((self.time_frac as int) * (sample_rate_out as int) < (old_out as int) * (
            sample_rate_out as int)) by (nonlinear_arith)
                requires
                    self.time_frac < old_out,
                    sample_rate_out >= 1,
            ;
            lemma_multiply_divide_lt((self.time_frac as int) * (sample_rate_out as int),
                old_out as int, sample_rate_out as int);
            lemma_div_pos_is_pos((self.time_frac as int) * (sample_rate_out as int),
                old_out as int);
        }
        let scaled: u64 = (self.time_frac as u64) * (sample_rate_out as u64) / (old_out as u64);
        self.time_frac = scaled as u32;
        self.config.sample_rate_in = sample_rate_in;
        self.config.sample_rate_out = sample_rate_out;
        self.advance_int = sample_rate_in / sample_rate_out;
        self.advance_frac = sample_rate_in % sample_rate_out;
        self.alpha = compute_alpha(sample_rate_in, sample_rate_out, self.config.lpf_order,
            self.config.lpf_nyquist_permille);
        Ok(())
    }

    /// Changes the rate ratio given as input frames per output frame in
    /// thousandths (1000 keeps the rate, 2000 halves it).  Rejected exactly
    /// when the ratio is zero.
    pub fn set_rate_ratio(&mut self, ratio_in_out_permille: u32) -> (r: Result<(), ConfigError>)
        requires
            old(self).wf(),
        ensures
            final(self).wf(),
            r is Err <==> ratio_in_out_permille == 0,
            r matches Err(e) ==> e == ConfigError::ZeroSampleRate && *final(self) == *old(self),
            r is Ok ==> final(self).config == (LinearResamplerConfig {
                sample_rate_in: ratio_in_out_permille,
                sample_rate_out: 1000,
                ..old(self).config
            }),
            r is Ok ==> final(self).time_int == old(self).time_int,
            final(self).history@ == old(self).history@,
            final(self).config.lpf_order == old(self).config.lpf_order,
            final(self).config.channels == old(self).config.channels,
    {
        self.set_rate(ratio_in_out_permille, 1000)
    }

    /// Whole input frames needed beyond those already weighed in the read
    /// position to serve `output_frame_count` more output frames, capped at
    /// a 64-bit count.
    pub fn required_input_frame_count(&self, output_frame_count: u64) -> (r: u64)
        requires
            self.wf(),
        ensures
            r == cap_u64(required_input(self.time_num(), self.config.sample_rate_in as int,
                self.config.sample_rate_out as int, output_frame_count as int)),
    {
        if output_frame_count == 0 {
            return 0;
        }
        let rin = self.config.sample_rate_in as u128;
        let rout = self.config.sample_rate_out as u128;
        proof {
            assert((self.time_int as int) * (self.config.sample_rate_out as int) + self.time_frac
                <= 0xffff_ffffu64 * 0x1_0000_0000u64) by (nonlinear_arith)
                requires
                    self.time_int <= u32::MAX,
                    self.time_frac < self.config.sample_rate_out <= u32::MAX,
            ;
            assert((output_frame_count - 1) as int * (self.config.sample_rate_in as int)
                <= 0xffff_ffff_ffff_ffffu64 * 0x1_0000_0000u64) by (nonlinear_arith)
                requires
                    output_frame_count <= u64::MAX,
                    self.config.sample_rate_in <= u32::MAX,
            ;
        }
        let num: u128 = (self.time_int as u128) * rout + (self.time_frac as u128) + ((
        output_frame_count - 1) as u128) * rin;
        let whole: u128 = num / rout;
        let rem: u128 = num % rout;
        proof {
            lemma_fundamental_div_mod(num as int, rout as int);
            lemma_div_pos_is_pos(num as int, rout as int);
            assert(num as int == self.time_num() + (output_frame_count - 1) * (
            self.config.sample_rate_in as int)) by (nonlinear_arith)
                requires
                    num == (self.time_int as int) * (self.config.sample_rate_out as int)
                        + self.time_frac + (output_frame_count - 1) as int * (
                    self.config.sample_rate_in as int),
            ;
        }
        let need: u128 = whole + 1 + (if rem != 0 {
            1u128
        } else {
            0u128
        });
        if need > u64::MAX as u128 {
            u64::MAX
        } else {
            need as u64
        }
    }

    /// Whole output frames served if `input_frame_count` more input frames
    /// are fully consumed from the current read position, capped at a 64-bit
    /// count.
    pub fn expected_output_frame_count(&self, input_frame_count: u64) -> (r: u64)
        requires
            self.wf(),
        ensures
            r == cap_u64(avail_output_of(self.time_num(), self.config.sample_rate_in as int,
                self.config.sample_rate_out as int, input_frame_count as int)),
    {
        if input_frame_count == 0 {
            return 0;
        }
        let rin = self.config.sample_rate_in as u128;
        let rout = self.config.sample_rate_out as u128;
        proof {
            assert((self.time_int as int) * (self.config.sample_rate_out as int) + self.time_frac
                <= 0xffff_ffffu64 * 0x1_0000_0000u64) by (nonlinear_arith)
                requires
                    self.time_int <= u32::MAX,
                    self.time_frac < self.config.sample_rate_out <= u32::MAX,
            ;
            assert((input_frame_count - 1) as int * (self.config.sample_rate_out as int)
                <= 0xffff_ffff_ffff_ffffu64 * 0x1_0000_0000u64) by (nonlinear_arith)
                requires
                    input_frame_count <= u64::MAX,
                    self.config.sample_rate_out <= u32::MAX,
            ;
        }
        let t: u128 = (self.time_int as u128) * rout + (self.time_frac as u128);
        let l: u128 = ((input_frame_count - 1) as u128) * rout;
        proof {
            assert(l as int == (input_frame_count - 1) as int * (
            self.config.sample_rate_out as int));
            assert(t as int == self.time_num());
        }
        if t > l {
            return 0;
        }
        let q: u128 = (l - t) / rin + 1;
        proof {
            lemma_div_pos_is_pos((l - t) as int, rin as int);
        }
        if q > u64::MAX as u128 {
            u64::MAX
        } else {
            q as u64
        }
    }

    /// Latency in input frames: the one-frame lookahead of the interpolator
    /// plus one frame per filter stage.
    pub fn input_latency(&self) -> (r: u64)
        ensures
            r == 1 + self.config.lpf_order,
    {
        1 + self.config.lpf_order as u64
    }

    /// Latency in output frames: the input latency carried through the rate
    /// ratio, capped at a 64-bit count.
    pub fn output_latency(&self) -> (r: u64)
        requires
            self.wf(),
        ensures
            r == cap_u64((1 + self.config.lpf_order) * self.config.sample_rate_out as int
                / self.config.sample_rate_in as int),
    {
        proof {
            assert((1 + self.config.lpf_order as int) * (self.config.sample_rate_out as int)
                <= 0x1_0000_0000u64 * 0x1_0000_0000u64) by (nonlinear_arith)
                requires
                    self.config.lpf_order <= u32::MAX,
                    self.config.sample_rate_out <= u32::MAX,
            ;
        }
        let num: u128 = (1 + self.config.lpf_order as u128) * (self.config.sample_rate_out
            as u128);
        let q: u128 = num / (self.config.sample_rate_in as u128);
        proof {
            lemma_div_pos_is_pos(num as int, self.config.sample_rate_in as int);
        }
        if q > u64::MAX as u128 {
            u64::MAX
        } else {
            q as u64
        }
    }

    /// Integer part of the per-output-frame advance.
    pub fn in_advance_int(&self) -> (r: u32)
        ensures
            r == self.advance_int,
    {
        self.advance_int
    }

    /// Fractional part of the per-output-frame advance, over the output
    /// rate.
    pub fn in_advance_frac(&self) -> (r: u32)
        ensures
            r == self.advance_frac,
    {
        self.advance_frac
    }

    /// Integer part of the read position.
    pub fn in_time_int(&self) -> (r: u32)
        requires
            self.wf(),
        ensures
            r == self.time_int,
    {
        self.time_int as u32
    }

    /// Fractional part of the read position, over the output rate.
    pub fn in_time_frac(&self) -> (r: u32)
        ensures
            r == self.time_frac,
    {
        self.time_frac
    }
}

impl LinearResampler {
    /// True when the current read position can be served from `count` input
    /// frames: the interpolator needs the frame the position falls in, and
    /// the frame after it too when the fractional part is nonzero.
    fn can_serve(&self, count: u64) -> (b: bool)
        requires
            self.config.sample_rate_out >= 1,
            self.time_frac < self.config.sample_rate_out,
            self.time_int < u64::MAX,
        ensures
            b == crate::model::servable(self.time_num(), self.config.sample_rate_out as int,
                count as int),
    {
        let b = if self.time_frac == 0 {
            self.time_int < count
        } else {
            self.time_int + 1 < count
        };
        proof {
            let r = self.config.sample_rate_out as int;
            let ti = self.time_int as int;
            let tf = self.time_frac as int;
            if count as int >= 1 {
                if tf == 0 {
                    assert((ti <= count - 1) == (ti * r <= (count - 1) * r)) by (nonlinear_arith)
                        requires
                            r >= 1,
                    ;
                } else {
                    if ti + 1 < count {
                        assert(ti * r + tf <= (count - 1) * r) by (nonlinear_arith)
                            requires
                                r >= 1,
                                0 < tf < r,
                                ti + 1 <= count - 1,
                        ;
                    } else {
                        assert(ti * r + tf > (count - 1) * r) by (nonlinear_arith)
                            requires
                                r >= 1,
                                0 < tf,
                                ti >= count - 1,
                        ;
                    }
                }
            } else {
                assert(ti * r >= 0) by (nonlinear_arith)
                    requires
                        ti >= 0,
                        r >= 1,
                ;
                assert((count as int - 1) * r < 0) by (nonlinear_arith)
                    requires
                        count as int <= 0,
                        r >= 1,
                ;
            }
        }
        b
    }

    /// Resamples up to all of `input`'s frames into `output`, never writing
    /// past the output capacity, and reports exactly how many whole input
    /// frames were consumed and how many output frames were produced.  The
    /// sub-frame read position is kept for the next call, so splitting a
    /// stream across calls is lossless.  The interpolator reads the input
    /// through the low-pass cascade when one is configured, and the
    /// cascade's history is committed exactly for the consumed frames.
    #[verifier::loop_isolation(false)]
    #[verifier::rlimit(60)]
    pub fn process_pcm_frames(&mut self, output: &mut Frames, input: &Frames) -> (r: Result<
        (u64, u64),
        ProcessError,
    >)
        requires
            old(self).wf(),
            old(output).wf(),
            input.wf(),
            input.spec_channels() == old(self).config.channels as int,
            old(output).spec_channels() == old(self).config.channels as int,
            input.spec_frame_count() + u32::MAX < u64::MAX,
        ensures
            final(self).wf(),
            final(output).wf(),
            final(output).channels == old(output).channels,
            final(output)@.len() == old(output)@.len(),
            final(self).config == old(self).config,
            ({
                let count = input.spec_frame_count();
                let cap = old(output).spec_frame_count();
                let start = old(self).time_num();
                let rin = old(self).config.sample_rate_in as int;
                let rout = old(self).config.sample_rate_out as int;
                let c = old(self).config.channels as int;
                let eff = filtered_seq(old(self).history@, old(self).config.lpf_order as int, c,
                    old(self).alpha as int, input@, count);
                let av = avail_output(start, rin, rout, count);
                let p = if cap <= av { cap } else { av };
                let cons = if count <= (start + p * rin) / rout { count } else {
                    (start + p * rin) / rout
                };
                &&& (r matches Ok((consumed, produced)) && produced == p && consumed == cons)
                &&& final(self).time_num() == start + p * rin - cons * rout
                &&& final(self).time_frac == (start + p * rin) % rout
                &&& final(self).history@ == hist_after(old(self).history@, old(
                self).config.lpf_order as int, c, old(self).alpha as int, input@, cons)
                &&& forall|j: int, ch: int| 0 <= j < p && 0 <= ch < c ==> final(output)@[j * c
                    + ch] as int == out_sample(eff, c, rout, start, rin, j, ch)
                &&& forall|k: int| p * c <= k < old(output)@.len() ==> final(output)@[k] == old(
                output)@[k]
            }),
    {
        let count: usize = input.frame_count();
        let cap: usize = output.frame_count();
        let chans: u32 = self.config.channels;
        let c: usize = chans as usize;
        let rout: u32 = self.config.sample_rate_out;
        let order: u32 = self.config.lpf_order;
        let ghost start = self.time_num();
        let ghost rin_i = self.config.sample_rate_in as int;
        let ghost eff = filtered_seq(self.history@, order as int, chans as int, self.alpha as int,
            input@, count as int);
        let ghost out0 = output@;
        proof {
            input.lemma_len_is_frames_times_channels();
            output.lemma_len_is_frames_times_channels();
            assert(start >= 0 && start == self.time_int * (rout as int) + self.time_frac) by (
            nonlinear_arith)
                requires
                    self.time_int >= 0,
                    self.time_frac >= 0,
                    rout >= 1,
                    start == self.time_num(),
                    rout == self.config.sample_rate_out,
            ;
        }
        let _il: usize = input.samples().len();
        let filtered: Vec<i16>;
        let src: &Vec<i16>;
        if order == 0 {
            src = input.samples();
            proof {
                assert(self.history@.len() == (order as int) * (chans as int)) by (nonlinear_arith)
                    requires
                        self.history@.len() == self.config.lpf_order * self.config.channels,
                        order == self.config.lpf_order,
                        chans == self.config.channels,
                ;
                assert(self.history@.len() == 0) by (nonlinear_arith)
                    requires
                        self.history@.len() == (order as int) * (chans as int),
                        order == 0,
                ;
                crate::filter::lemma_filtered_seq_order_zero(self.history@, chans as int,
                    self.alpha as int, input@, count as int);
                assert(input@.take((count as int) * (chans as int)) =~= input@);
            }
        } else {
            let (f, _h) = filter_frames(&self.history, order, chans, self.alpha, input.samples(),
                count);
            filtered = f;
            src = &filtered;
        }
        proof {
            assert(src@ == eff);
        }
        let _sl: usize = src.len();
        let count64: u64 = count as u64;
        let mut produced: usize = 0;
        while produced < cap && self.can_serve(count64)
            invariant
                self.config == old(self).config,
                self.advance_int == old(self).advance_int,
                self.advance_frac == old(self).advance_frac,
                self.alpha == old(self).alpha,
                self.history@ == old(self).history@,
                produced <= cap,
                self.time_frac < rout,
                self.time_int <= count64 + u32::MAX as u64,
                self.time_num() == start + produced * rin_i,
                produced <= avail_output(start, rin_i, rout as int, count as int),
                output.wf(),
                output.channels == old(output).channels,
                output@.len() == out0.len(),
                forall|j: int, ch: int| 0 <= j < produced && 0 <= ch < c ==> output@[j * (
                c as int) + ch] as int == out_sample(eff, c as int, rout as int, start, rin_i, j,
                    ch),
                forall|k: int| (produced as int) * (c as int) <= k < out0.len() ==> output@[k]
                    == out0[k],
            decreases cap - produced,
        {
            proof {
                lemma_avail_output_iff(start, rin_i, rout as int, count as int, produced as int);
                if self.time_frac == 0 {
                    assert(self.time_int < count) by (nonlinear_arith)
                        requires
                            self.time_int * (rout as int) <= (count as int - 1) * (rout as int),
                            rout >= 1,
                            self.time_num() == self.time_int * (rout as int),
                            self.time_int >= 0,
                    ;
                } else {
                    assert(self.time_int + 1 < count) by (nonlinear_arith)
                        requires
                            self.time_int * (rout as int) + self.time_frac <= (count as int - 1) * (
                            rout as int),
                            0 < self.time_frac < rout,
                            self.time_int >= 0,
                    ;
                }
            }
            let i: usize = self.time_int as usize;
            let tf: u32 = self.time_frac;
            let ghost num = self.time_num();
            proof {
                lemma_fundamental_div_mod_converse(num, rout as int, self.time_int as int,
                    self.time_frac as int);
                assert(num == crate::model::pos_num(start, rin_i, produced as int));
                if tf == 0 {
                    assert((i as int) * (c as int) + (c as int) <= (count as int) * (c as int)) by (
                    nonlinear_arith)
                        requires
                            i < count,
                            c >= 1,
                    ;
                } else {
                    assert((i as int + 1) * (c as int) + (c as int) <= (count as int) * (
                    c as int)) by (nonlinear_arith)
                        requires
                            i + 1 < count,
                            c >= 1,
                    ;
                    assert((i as int + 1) * (c as int) == (i as int) * (c as int) + c) by (
                    nonlinear_arith);
                }
                assert(0 <= (i as int) * (c as int)) by (nonlinear_arith)
                    requires
                        i >= 0,
                        c >= 1,
                ;
            }
            let mut ch: u32 = 0;
            while ch < chans
                invariant
                    ch <= chans,
                    produced < cap,
                    output.wf(),
                    output.channels == old(output).channels,
                    output@.len() == out0.len(),
                    forall|j: int, chh: int| 0 <= j < produced && 0 <= chh < c ==> output@[j * (
                    c as int) + chh] as int == out_sample(eff, c as int, rout as int, start,
                        rin_i, j, chh),
                    forall|chh: int| 0 <= chh < ch ==> output@[(produced as int) * (c as int)
                        + chh] as int == out_sample(eff, c as int, rout as int, start, rin_i,
                        produced as int, chh),
                    forall|k: int| (produced as int) * (c as int) + ch <= k < out0.len()
                        ==> output@[k] == out0[k],
                decreases chans - ch,
            {
                let x0: i16 = src[i * c + (ch as usize)];
                let v: i16 = if tf == 0 {
                    x0
                } else {
                    let x1: i16 = src[(i + 1) * c + (ch as usize)];
                    lerp_exec(x0, x1, tf, rout)
                };
                proof {
                    assert(v as int == out_sample(eff, c as int, rout as int, start, rin_i,
                        produced as int, ch as int));
                }
                proof {
                    assert((produced as int) * (c as int) + ch < (cap as int) * (c as int)) by (
                    nonlinear_arith)
                        requires
                            0 <= produced < cap,
                            0 <= ch < c,
                            c >= 1,
                    ;
                    assert(out0.len() == (cap as int) * (c as int));
                }
                let ghost prev = output@;
                output.set_sample(produced, ch, v);
                ch = ch + 1;
                proof {
                    let u = (produced as int) * (c as int) + (ch - 1);
                    assert(output@ == prev.update(u, v));
                    assert forall|j: int, chh: int| 0 <= j < produced && 0 <= chh < c implies
                        output@[j * (c as int) + chh] as int == out_sample(eff, c as int,
                        rout as int, start, rin_i, j, chh) by {
                        assert(0 <= j * (c as int) + chh < u) by (nonlinear_arith)
                            requires
                                0 <= j < produced,
                                0 <= chh < c,
                                u == (produced as int) * (c as int) + (ch - 1),
                                ch >= 1,
                                c >= 1,
                        ;
                        assert(u < out0.len());
                        assert(output@[j * (c as int) + chh] == prev[j * (c as int) + chh]);
                        assert(prev[j * (c as int) + chh] as int == out_sample(eff, c as int,
                            rout as int, start, rin_i, j, chh));
                    }
                }
            }
            produced = produced + 1;
            let s: u64 = (self.time_frac as u64) + (self.advance_frac as u64);
            let ghost old_ti = self.time_int as int;
            if s >= rout as u64 {
                self.time_frac = (s - rout as u64) as u32;
                self.time_int = self.time_int + (self.advance_int as u64) + 1;
            } else {
                self.time_frac = s as u32;
                self.time_int = self.time_int + (self.advance_int as u64);
            }
            proof {
                lemma_fundamental_div_mod(rin_i, rout as int);
                vstd::arithmetic::mul::lemma_mul_is_commutative(rout as int,
                    self.advance_int as int);
                assert(self.advance_int * (rout as int) + self.advance_frac == rin_i);
                assert(self.time_num() == num + rin_i) by (nonlinear_arith)
                    requires
                        self.time_num() == self.time_int * (rout as int) + self.time_frac,
                        num == old_ti * (rout as int) + tf,
                        self.advance_int * (rout as int) + self.advance_frac == rin_i,
                        self.time_int == old_ti + self.advance_int + if tf + self.advance_frac
                            >= rout { 1int } else { 0int },
                        self.time_frac == tf + self.advance_frac - if tf + self.advance_frac
                            >= rout { rout as int } else { 0int },
                ;
                assert(self.time_num() == start + produced * rin_i) by (nonlinear_arith)
                    requires
                        self.time_num() == num + rin_i,
                        num == start + (produced - 1) * rin_i,
                ;
                assert(forall|k: int| (produced as int) * (c as int) <= k < out0.len()
                    ==> #[trigger] output@[k] == out0[k]) by {
                    assert((produced as int - 1) * (c as int) + c == (produced as int) * (
                    c as int)) by (nonlinear_arith);
                }
            }
        }
        proof {
            if produced < cap {
                lemma_avail_output_iff(start, rin_i, rout as int, count as int, produced as int);
            }
        }
        let consumed64: u64 = if count64 < self.time_int {
            count64
        } else {
            self.time_int
        };
        let ghost pre_ti = self.time_int as int;
        self.time_int = self.time_int - consumed64;
        proof {
            lemma_fundamental_div_mod_converse(start + produced * rin_i, rout as int, pre_ti,
                self.time_frac as int);
            assert(self.time_num() == start + produced * rin_i - consumed64 * (rout as int)) by (
            nonlinear_arith)
                requires
                    self.time_num() == (pre_ti - consumed64) * (rout as int) + self.time_frac,
                    start + produced * rin_i == pre_ti * (rout as int) + self.time_frac,
            ;
        }
        let consumed_us: usize = consumed64 as usize;
        if order > 0 {
            proof {
                assert((consumed_us as int) * (c as int) <= (count as int) * (c as int)) by (
                nonlinear_arith)
                    requires
                        consumed_us <= count,
                        c >= 1,
                ;
            }
            let (_f2, h2) = filter_frames(&self.history, order, chans, self.alpha,
                input.samples(), consumed_us);
            self.history = h2;
        } else {
            proof {
                crate::filter::lemma_hist_after_empty(self.history@, chans as int,
                    self.alpha as int, input@, consumed64 as int);
            }
        }
        Ok((consumed64, produced as u64))
    }
}

/// Whole input frames needed to serve `m` output frames from the position
/// with numerator `start`: the position of output `m - 1` must fall before
/// the last supplied frame.
pub open spec fn required_input(start: int, rate_in: int, rate_out: int, m: int) -> int {
    if m <= 0 {
        0
    } else {
        let p = start + (m - 1) * rate_in;
        p / rate_out + 1 + if p % rate_out == 0 {
            0int
        } else {
            1int
        }
    }
}

/// `avail_output` of the model, with the advance spelt as the input rate.
pub open spec fn avail_output_of(start: int, rate_in: int, rate_out: int, count: int) -> int {
    crate::model::avail_output(start, rate_in, rate_out, count)
}

} // verus!
