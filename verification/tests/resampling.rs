use resampling::config::{
    ConfigError, Format, LinearResamplerConfig, ResampleAlgorithm, ResamplerConfig,
};
use resampling::engine::Resampler;
use resampling::frames::Frames;
use resampling::linear::LinearResampler;

fn mono(samples: Vec<i16>) -> Frames {
    Frames::from_samples(samples, 1).unwrap()
}

#[test]
fn downsample_by_two_picks_every_other_frame() {
    // mono, 44100 -> 22050, filtering disabled, 4 input frames, room for 2
    let config = LinearResamplerConfig::new(1, 44100, 22050);
    let mut r = LinearResampler::new(&config).unwrap();
    let input = mono(vec![32000, 16000, -16000, -32000]);
    let mut output = Frames::new_silence(1, 2).unwrap();
    let (consumed, produced) = r.process_pcm_frames(&mut output, &input).unwrap();
    assert_eq!(consumed, 4);
    assert_eq!(produced, 2);
    assert_eq!(output.samples(), &vec![32000, -16000]);
}

#[test]
fn equal_rates_stereo_is_bit_identical() {
    // 8000 -> 8000, 3-frame stereo input, output capacity 3
    let config = LinearResamplerConfig::new(2, 8000, 8000);
    let mut r = LinearResampler::new(&config).unwrap();
    let input = Frames::from_samples(vec![100, -100, 200, -200, 300, -300], 2).unwrap();
    let mut output = Frames::new_silence(2, 3).unwrap();
    let (consumed, produced) = r.process_pcm_frames(&mut output, &input).unwrap();
    assert_eq!(consumed, 3);
    assert_eq!(produced, 3);
    assert_eq!(output.samples(), input.samples());
}

#[test]
fn equal_rates_identity_counts_follow_capacity() {
    let config = LinearResamplerConfig::new(1, 48000, 48000);
    let mut r = LinearResampler::new(&config).unwrap();
    let input = mono(vec![5, 6, 7, 8, 9]);
    let mut output = Frames::new_silence(1, 3).unwrap();
    let (consumed, produced) = r.process_pcm_frames(&mut output, &input).unwrap();
    assert_eq!((consumed, produced), (3, 3));
    assert_eq!(output.samples(), &vec![5, 6, 7]);
}

#[test]
fn upsample_interpolates_midpoints() {
    // 1:2 upsampling places every second output halfway between inputs
    let config = LinearResamplerConfig::new(1, 22050, 44100);
    let mut r = LinearResampler::new(&config).unwrap();
    let input = mono(vec![0, 1000, 2000]);
    let mut output = Frames::new_silence(1, 4).unwrap();
    let (consumed, produced) = r.process_pcm_frames(&mut output, &input).unwrap();
    assert_eq!(produced, 4);
    assert_eq!(consumed, 2);
    assert_eq!(output.samples(), &vec![0, 500, 1000, 1500]);
}

#[test]
fn split_processing_matches_one_call() {
    // conservation: two calls over a split stream equal one call over it all
    let config = LinearResamplerConfig::new(1, 48000, 16000);
    let input_all: Vec<i16> = vec![0, 300, -600, 900, -1200, 1500, -1800, 2100, -2400, 2700];

    let mut whole = LinearResampler::new(&config).unwrap();
    let mut out_whole = Frames::new_silence(1, 16).unwrap();
    let (cons_w, prod_w) =
        whole.process_pcm_frames(&mut out_whole, &mono(input_all.clone())).unwrap();

    let mut split = LinearResampler::new(&config).unwrap();
    let mut out_a = Frames::new_silence(1, 16).unwrap();
    let (cons_a, prod_a) =
        split.process_pcm_frames(&mut out_a, &mono(input_all[..4].to_vec())).unwrap();
    let mut out_b = Frames::new_silence(1, 16).unwrap();
    let rest: Vec<i16> = input_all[cons_a as usize..].to_vec();
    let (cons_b, prod_b) = split.process_pcm_frames(&mut out_b, &mono(rest)).unwrap();

    assert_eq!(cons_a + cons_b, cons_w);
    assert_eq!(prod_a + prod_b, prod_w);
    let mut joined: Vec<i16> = out_a.samples()[..prod_a as usize].to_vec();
    joined.extend_from_slice(&out_b.samples()[..prod_b as usize]);
    assert_eq!(joined, out_whole.samples()[..prod_w as usize].to_vec());
    assert_eq!(split.in_time_int(), whole.in_time_int());
    assert_eq!(split.in_time_frac(), whole.in_time_frac());
}

#[test]
fn required_then_expected_never_under_produces() {
    let config = LinearResamplerConfig::new(1, 44100, 48000);
    let r = LinearResampler::new(&config).unwrap();
    for n in [0u64, 1, 2, 3, 10, 100, 4799, 48000] {
        let need = r.required_input_frame_count(n);
        assert!(r.expected_output_frame_count(need) >= n);
    }
    let config2 = LinearResamplerConfig::new(1, 48000, 8000);
    let r2 = LinearResampler::new(&config2).unwrap();
    for n in [0u64, 1, 7, 999] {
        let need = r2.required_input_frame_count(n);
        assert!(r2.expected_output_frame_count(need) >= n);
    }
}

#[test]
fn zero_counts_ask_for_nothing() {
    let config = LinearResamplerConfig::new(2, 44100, 22050);
    let r = LinearResampler::new(&config).unwrap();
    assert_eq!(r.required_input_frame_count(0), 0);
    assert_eq!(r.expected_output_frame_count(0), 0);
}

#[test]
fn set_rate_keeps_latency_and_position() {
    let mut config = LinearResamplerConfig::new(1, 44100, 44100);
    config.set_lpf_order(2);
    let mut r = LinearResampler::new(&config).unwrap();
    let input = mono(vec![1000, 2000, 3000, 4000]);
    let mut output = Frames::new_silence(1, 4).unwrap();
    r.process_pcm_frames(&mut output, &input).unwrap();
    let latency_before = r.input_latency();
    let time_before = r.in_time_int();
    r.set_rate(44100, 22050).unwrap();
    assert_eq!(r.input_latency(), latency_before);
    assert_eq!(r.input_latency(), 3);
    assert_eq!(r.in_time_int(), time_before);
    assert_eq!(r.config().sample_rate_out(), 22050);
}

#[test]
fn set_rate_rejects_zero_rates() {
    let config = LinearResamplerConfig::new(1, 44100, 44100);
    let mut r = LinearResampler::new(&config).unwrap();
    assert_eq!(r.set_rate(0, 48000), Err(ConfigError::ZeroSampleRate));
    assert_eq!(r.set_rate(48000, 0), Err(ConfigError::ZeroSampleRate));
    assert_eq!(r.config().sample_rate_in(), 44100);
    assert!(r.set_rate(48000, 32000).is_ok());
    assert_eq!(r.config().sample_rate_in(), 48000);
    assert_eq!(r.config().sample_rate_out(), 32000);
}

#[test]
fn set_rate_ratio_sets_rates_in_thousandths() {
    let config = LinearResamplerConfig::new(1, 44100, 44100);
    let mut r = LinearResampler::new(&config).unwrap();
    r.set_rate_ratio(2000).unwrap();
    assert_eq!(r.config().sample_rate_in(), 2000);
    assert_eq!(r.config().sample_rate_out(), 1000);
    assert_eq!(r.in_advance_int(), 2);
    assert_eq!(r.in_advance_frac(), 0);
    assert_eq!(r.set_rate_ratio(0), Err(ConfigError::ZeroSampleRate));
}

#[test]
fn construction_rejects_bad_configs() {
    match LinearResampler::new(&LinearResamplerConfig::new(0, 44100, 44100)) {
        Err(e) => assert_eq!(e, ConfigError::ZeroChannels),
        Ok(_) => panic!("zero channels must be rejected"),
    }
    match LinearResampler::new(&LinearResamplerConfig::new(1, 0, 44100)) {
        Err(e) => assert_eq!(e, ConfigError::ZeroSampleRate),
        Ok(_) => panic!("a zero input rate must be rejected"),
    }
    match LinearResampler::new(&LinearResamplerConfig::new(1, 44100, 0)) {
        Err(e) => assert_eq!(e, ConfigError::ZeroSampleRate),
        Ok(_) => panic!("a zero output rate must be rejected"),
    }
}

#[test]
fn engine_rejects_band_limited_backend() {
    let config = ResamplerConfig::new(1, 44100, 48000, ResampleAlgorithm::Speex);
    match Resampler::new(&config) {
        Err(e) => assert_eq!(e, ConfigError::UnsupportedAlgorithm),
        Ok(_) => panic!("band-limited selection must be rejected"),
    }
}

#[test]
fn engine_delegates_to_linear() {
    let config = ResamplerConfig::new(1, 44100, 22050, ResampleAlgorithm::Linear);
    let mut e = Resampler::new(&config).unwrap();
    let input = mono(vec![400, 300, 200, 100]);
    let mut output = Frames::new_silence(1, 2).unwrap();
    let (consumed, produced) = e.process_pcm_frames(&mut output, &input).unwrap();
    assert_eq!((consumed, produced), (4, 2));
    assert_eq!(output.samples(), &vec![400, 200]);
    assert_eq!(e.config().algorithm(), ResampleAlgorithm::Linear);
    assert_eq!(e.input_latency(), 1);
    assert_eq!(e.output_latency(), 0);
}

#[test]
fn speex_quality_is_clamped_not_rejected() {
    let mut config = ResamplerConfig::new(2, 44100, 48000, ResampleAlgorithm::Linear);
    assert_eq!(config.speex_quality(), 3);
    config.set_speex_quality(15);
    assert_eq!(config.speex_quality(), 10);
    config.set_speex_quality(10);
    assert_eq!(config.speex_quality(), 10);
    config.set_speex_quality(0);
    assert_eq!(config.speex_quality(), 0);
}

#[test]
fn duplicate_from_config_resets_progress() {
    let config = LinearResamplerConfig::new(1, 44100, 48000);
    let mut r = LinearResampler::new(&config).unwrap();
    let input = mono(vec![10, 20, 30, 40, 50]);
    let mut output = Frames::new_silence(1, 5).unwrap();
    r.process_pcm_frames(&mut output, &input).unwrap();
    assert!(r.in_time_int() > 0 || r.in_time_frac() > 0);
    let fresh = r.duplicate_from_config();
    assert_eq!(fresh.in_time_int(), 0);
    assert_eq!(fresh.in_time_frac(), 0);
    assert_eq!(fresh.config().sample_rate_in(), 44100);

    let snap = r.snapshot();
    assert_eq!(snap.in_time_int(), r.in_time_int());
    assert_eq!(snap.in_time_frac(), r.in_time_frac());
}

#[test]
fn low_pass_filter_smooths_a_step() {
    // equal rates with a one-stage cascade: a step input rises toward its
    // level instead of passing through unchanged
    let mut config = LinearResamplerConfig::new(1, 8000, 8000);
    config.set_lpf_order(1);
    let mut r = LinearResampler::new(&config).unwrap();
    let input = mono(vec![32000, 32000, 32000, 32000]);
    let mut output = Frames::new_silence(1, 4).unwrap();
    let (consumed, produced) = r.process_pcm_frames(&mut output, &input).unwrap();
    assert_eq!((consumed, produced), (4, 4));
    let out = output.samples();
    assert!(out[0] > 0 && out[0] < 32000);
    assert!(out[0] < out[1] && out[1] < out[2] && out[2] < out[3]);
    assert!(out[3] < 32000);
}

#[test]
fn filter_state_survives_call_boundaries() {
    // the same step split across two calls gives the same smoothed output
    let mut config = LinearResamplerConfig::new(1, 8000, 8000);
    config.set_lpf_order(2);

    let mut whole = LinearResampler::new(&config).unwrap();
    let mut out_whole = Frames::new_silence(1, 6).unwrap();
    let input: Vec<i16> = vec![20000, 20000, 20000, 20000, 20000, 20000];
    whole.process_pcm_frames(&mut out_whole, &mono(input.clone())).unwrap();

    let mut split = LinearResampler::new(&config).unwrap();
    let mut out_a = Frames::new_silence(1, 2).unwrap();
    let (cons_a, _) = split.process_pcm_frames(&mut out_a, &mono(input[..2].to_vec())).unwrap();
    let mut out_b = Frames::new_silence(1, 4).unwrap();
    split
        .process_pcm_frames(&mut out_b, &mono(input[cons_a as usize..].to_vec()))
        .unwrap();

    let mut joined = out_a.samples().clone();
    joined.extend_from_slice(out_b.samples());
    assert_eq!(&joined, out_whole.samples());
}

#[test]
fn config_getters_and_setters_round_trip() {
    let mut config = LinearResamplerConfig::new(2, 44100, 48000);
    assert_eq!(config.format(), Format::S16);
    assert_eq!(config.channels(), 2);
    assert_eq!(config.sample_rate_in(), 44100);
    assert_eq!(config.sample_rate_out(), 48000);
    assert_eq!(config.lpf_order(), 0);
    assert_eq!(config.lpf_nyquist_factor(), 1000);
    config.set_sample_rate_in(32000);
    config.set_sample_rate_out(16000);
    config.set_lpf_order(4);
    config.set_lpf_nyquist_factor(500);
    assert_eq!(config.sample_rate_in(), 32000);
    assert_eq!(config.sample_rate_out(), 16000);
    assert_eq!(config.lpf_order(), 4);
    assert_eq!(config.lpf_nyquist_factor(), 500);

    let mut rc = ResamplerConfig::new(1, 8000, 8000, ResampleAlgorithm::Linear);
    assert_eq!(rc.format(), Format::S16);
    assert_eq!(rc.algorithm(), ResampleAlgorithm::Linear);
    rc.set_algorithm(ResampleAlgorithm::Speex);
    assert_eq!(rc.algorithm(), ResampleAlgorithm::Speex);
    rc.set_sample_rate_in(48000);
    rc.set_sample_rate_out(24000);
    rc.set_linear_lpf_order(2);
    rc.set_linear_lpf_nyquist_factor(750);
    assert_eq!(rc.channels(), 1);
    assert_eq!(rc.sample_rate_in(), 48000);
    assert_eq!(rc.sample_rate_out(), 24000);
    assert_eq!(rc.linear_lpf_order(), 2);
    assert_eq!(rc.linear_lpf_nyquist_factor(), 750);
    assert_eq!(ResampleAlgorithm::default(), ResampleAlgorithm::Linear);
}

#[test]
fn frames_reject_uneven_sample_counts() {
    assert!(Frames::from_samples(vec![1, 2, 3], 2).is_err());
    assert!(Frames::from_samples(vec![1, 2, 3, 4], 0).is_err());
    let f = Frames::from_samples(vec![1, 2, 3, 4], 2).unwrap();
    assert_eq!(f.frame_count(), 2);
    assert_eq!(f.channels(), 2);
    assert_eq!(f.sample(1, 0), 3);
    assert_eq!(f.sample(1, 1), 4);
}

#[test]
fn fractional_positions_carry_across_calls() {
    // 3:2 downsampling: positions 0, 1.5, 3, 4.5, ...
    let config = LinearResamplerConfig::new(1, 48000, 32000);
    let mut r = LinearResampler::new(&config).unwrap();
    let input = mono(vec![0, 1000, 2000, 3000]);
    let mut output = Frames::new_silence(1, 8).unwrap();
    let (consumed, produced) = r.process_pcm_frames(&mut output, &input).unwrap();
    // position 4.5 needs frames 4 and 5: only 3 outputs fit in 4 frames
    assert_eq!(produced, 3);
    assert_eq!(consumed, 4);
    assert_eq!(output.samples()[..3].to_vec(), vec![0, 1500, 3000]);
    // the half-frame remainder survives the call boundary
    assert_eq!(r.in_time_int(), 0);
    assert!(r.in_time_frac() > 0);
}
