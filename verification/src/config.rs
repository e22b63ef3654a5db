use vstd::prelude::*;

verus! {

/// Denominator of the low-pass Nyquist factor: the factor is carried in
/// thousandths, so 1000 stands for 1.0 (cutoff at the Nyquist frequency).
pub const NYQUIST_PERMILLE_ONE: u32 = 1000;

/// Largest accepted quality step of the band-limited backend; larger values
/// are clamped to it.
pub const MAX_SPEEX_QUALITY: u32 = 10;

/// Default quality step of the band-limited backend.
pub const DEFAULT_SPEEX_QUALITY: u32 = 3;

/// The PCM sample encoding this library processes: interleaved signed 16-bit.
#[derive(Clone, Copy, PartialEq, Eq, Structural, Debug)]
pub enum Format {
    S16,
}

/// The resampling algorithm an engine dispatches to.  `Linear` is the
/// low-latency algorithm implemented and verified in this crate; `Speex`
/// selects the band-limited external backend, which this core treats as an
/// opaque collaborator and cannot construct itself.
#[derive(Clone, Copy, PartialEq, Eq, Structural, Debug)]
pub enum ResampleAlgorithm {
    Linear,
    Speex,
}

impl Default for ResampleAlgorithm {
    fn default() -> (r: ResampleAlgorithm)
        ensures
            r == ResampleAlgorithm::Linear,
    {
        ResampleAlgorithm::Linear
    }
}

/// A configuration or rate change was rejected; the caller can retry with a
/// corrected value.
#[derive(Clone, Copy, PartialEq, Eq, Structural, Debug)]
pub enum ConfigError {
    /// A sample rate of zero was supplied.
    ZeroSampleRate,
    /// A channel count of zero was supplied.
    ZeroChannels,
    /// The selected algorithm has no backend inside this library.
    UnsupportedAlgorithm,
}

/// A processing call failed inside an algorithm backend.  The linear
/// algorithm of this crate never raises it; the variant exists for engines
/// backed by an external algorithm.
#[derive(Clone, Copy, PartialEq, Eq, Structural, Debug)]
pub enum ProcessError {
    BackendFailure,
}

/// Configuration of the linear algorithm: rates, channel count and the
/// optional low-pass filter (order 0 disables filtering; the Nyquist factor
/// is carried in thousandths, 1000 = cutoff at half the lower rate).
#[derive(Clone, Copy, PartialEq, Eq, Structural, Debug)]
pub struct LinearResamplerConfig {
    pub channels: u32,
    pub sample_rate_in: u32,
    pub sample_rate_out: u32,
    pub lpf_order: u32,
    pub lpf_nyquist_permille: u32,
}

impl LinearResamplerConfig {
    /// A configuration with filtering disabled and the Nyquist factor at 1.0.
    pub fn new(channels: u32, sample_rate_in: u32, sample_rate_out: u32) -> (r:
        LinearResamplerConfig)
        ensures
            r == (LinearResamplerConfig {
                channels,
                sample_rate_in,
                sample_rate_out,
                lpf_order: 0,
                lpf_nyquist_permille: NYQUIST_PERMILLE_ONE,
            }),
    {
        LinearResamplerConfig {
            channels,
            sample_rate_in,
            sample_rate_out,
            lpf_order: 0,
            lpf_nyquist_permille: NYQUIST_PERMILLE_ONE,
        }
    }

    pub fn format(&self) -> (r: Format)
        ensures
            r == Format::S16,
    {
        Format::S16
    }

    pub fn channels(&self) -> (r: u32)
        ensures
            r == self.channels,
    {
        self.channels
    }

    pub fn sample_rate_in(&self) -> (r: u32)
        ensures
            r == self.sample_rate_in,
    {
        self.sample_rate_in
    }

    pub fn set_sample_rate_in(&mut self, sample_rate: u32)
        ensures
            *final(self) == (LinearResamplerConfig { sample_rate_in: sample_rate, ..*old(self) }),
    {
        self.sample_rate_in = sample_rate;
    }

    pub fn sample_rate_out(&self) -> (r: u32)
        ensures
            r == self.sample_rate_out,
    {
        self.sample_rate_out
    }

    pub fn set_sample_rate_out(&mut self, sample_rate: u32)
        ensures
            *final(self) == (LinearResamplerConfig { sample_rate_out: sample_rate, ..*old(self) }),
    {
        self.sample_rate_out = sample_rate;
    }

    /// The low-pass filter order; 0 disables filtering.
    pub fn lpf_order(&self) -> (r: u32)
        ensures
            r == self.lpf_order,
    {
        self.lpf_order
    }

    /// The low-pass filter order; 0 disables filtering.
    pub fn set_lpf_order(&mut self, lpf_order: u32)
        ensures
            *final(self) == (LinearResamplerConfig { lpf_order, ..*old(self) }),
    {
        self.lpf_order = lpf_order;
    }

    /// The Nyquist factor in thousandths: 1000 places the filter cutoff at
    /// half the lower of the two rates, 500 at a quarter, and so on.
    pub fn lpf_nyquist_factor(&self) -> (r: u32)
        ensures
            r == self.lpf_nyquist_permille,
    {
        self.lpf_nyquist_permille
    }

    /// The Nyquist factor in thousandths; values are meaningful in 1..=1000.
    pub fn set_lpf_nyquist_factor(&mut self, permille: u32)
        ensures
            *final(self) == (LinearResamplerConfig {
                lpf_nyquist_permille: permille,
                ..*old(self)
            }),
    {
        self.lpf_nyquist_permille = permille;
    }
}

/// Configuration of the engine: rates, channel count, the selected algorithm
/// and the parameters of both algorithm families.
#[derive(Clone, Copy, PartialEq, Eq, Structural, Debug)]
pub struct ResamplerConfig {
    pub channels: u32,
    pub sample_rate_in: u32,
    pub sample_rate_out: u32,
    pub algorithm: ResampleAlgorithm,
    pub linear_lpf_order: u32,
    pub linear_lpf_nyquist_permille: u32,
    pub speex_quality: u32,
}

impl ResamplerConfig {
    /// A configuration with linear filtering disabled, the Nyquist factor at
    /// 1.0 and the band-limited quality at its default.
    pub fn new(channels: u32, sample_rate_in: u32, sample_rate_out: u32, algorithm:
        ResampleAlgorithm) -> (r: ResamplerConfig)
        ensures
            r == (ResamplerConfig {
                channels,
                sample_rate_in,
                sample_rate_out,
                algorithm,
                linear_lpf_order: 0,
                linear_lpf_nyquist_permille: NYQUIST_PERMILLE_ONE,
                speex_quality: DEFAULT_SPEEX_QUALITY,
            }),
    {
        ResamplerConfig {
            channels,
            sample_rate_in,
            sample_rate_out,
            algorithm,
            linear_lpf_order: 0,
            linear_lpf_nyquist_permille: NYQUIST_PERMILLE_ONE,
            speex_quality: DEFAULT_SPEEX_QUALITY,
        }
    }

    pub fn format(&self) -> (r: Format)
        ensures
            r == Format::S16,
    {
        Format::S16
    }

    pub fn channels(&self) -> (r: u32)
        ensures
            r == self.channels,
    {
        self.channels
    }

    pub fn sample_rate_in(&self) -> (r: u32)
        ensures
            r == self.sample_rate_in,
    {
        self.sample_rate_in
    }

    pub fn set_sample_rate_in(&mut self, sample_rate: u32)
        ensures
            *final(self) == (ResamplerConfig { sample_rate_in: sample_rate, ..*old(self) }),
    {
        self.sample_rate_in = sample_rate;
    }

    pub fn sample_rate_out(&self) -> (r: u32)
        ensures
            r == self.sample_rate_out,
    {
        self.sample_rate_out
    }

    pub fn set_sample_rate_out(&mut self, sample_rate: u32)
        ensures
            *final(self) == (ResamplerConfig { sample_rate_out: sample_rate, ..*old(self) }),
    {
        self.sample_rate_out = sample_rate;
    }

    pub fn algorithm(&self) -> (r: ResampleAlgorithm)
        ensures
            r == self.algorithm,
    {
        self.algorithm
    }

    pub fn set_algorithm(&mut self, algorithm: ResampleAlgorithm)
        ensures
            *final(self) == (ResamplerConfig { algorithm, ..*old(self) }),
    {
        self.algorithm = algorithm;
    }

    pub fn linear_lpf_order(&self) -> (r: u32)
        ensures
            r == self.linear_lpf_order,
    {
        self.linear_lpf_order
    }

    pub fn set_linear_lpf_order(&mut self, order: u32)
        ensures
            *final(self) == (ResamplerConfig { linear_lpf_order: order, ..*old(self) }),
    {
        self.linear_lpf_order = order;
    }

    /// The linear algorithm's Nyquist factor in thousandths.
    pub fn linear_lpf_nyquist_factor(&self) -> (r: u32)
        ensures
            r == self.linear_lpf_nyquist_permille,
    {
        self.linear_lpf_nyquist_permille
    }

    /// The linear algorithm's Nyquist factor in thousandths.
    pub fn set_linear_lpf_nyquist_factor(&mut self, permille: u32)
        ensures
            *final(self) == (ResamplerConfig {
                linear_lpf_nyquist_permille: permille,
                ..*old(self)
            }),
    {
        self.linear_lpf_nyquist_permille = permille;
    }

    /// Quality step of the band-limited backend, from 0 to 10.
    pub fn speex_quality(&self) -> (r: u32)
        ensures
            r == self.speex_quality,
    {
        self.speex_quality
    }

    /// Stores the quality step; values above the accepted range are clamped
    /// to its upper bound, never rejected.
    pub fn set_speex_quality(&mut self, quality: u32)
        ensures
            *final(self) == (ResamplerConfig {
                speex_quality: if quality > MAX_SPEEX_QUALITY {
                    MAX_SPEEX_QUALITY
                } else {
                    quality
                },
                ..*old(self)
            }),
    {
        let q = if quality > MAX_SPEEX_QUALITY {
            MAX_SPEEX_QUALITY
        } else {
            quality
        };
        self.speex_quality = q;
    }

    /// The linear algorithm's view of this configuration.
    pub open spec fn linear_view(&self) -> LinearResamplerConfig {
        LinearResamplerConfig {
            channels: self.channels,
            sample_rate_in: self.sample_rate_in,
            sample_rate_out: self.sample_rate_out,
            lpf_order: self.linear_lpf_order,
            lpf_nyquist_permille: self.linear_lpf_nyquist_permille,
        }
    }

    /// The linear algorithm's view of this configuration.
    pub fn to_linear(&self) -> (r: LinearResamplerConfig)
        ensures
            r == self.linear_view(),
    {
        LinearResamplerConfig {
            channels: self.channels,
            sample_rate_in: self.sample_rate_in,
            sample_rate_out: self.sample_rate_out,
            lpf_order: self.linear_lpf_order,
            lpf_nyquist_permille: self.linear_lpf_nyquist_permille,
        }
    }
}

} // verus!
