use vstd::prelude::*;
use vstd::arithmetic::div_mod::{
    lemma_fundamental_div_mod,
    lemma_div_by_multiple,
    lemma_div_pos_is_pos,
    lemma_div_is_ordered,
    lemma_mod_multiples_basic,
};
use crate::config::LinearResamplerConfig;
use crate::filter::{filtered_seq, hist_after};
use crate::linear::{required_input, LinearResampler};
use crate::model::{avail_output, out_sample, pos_num, servable};

verus! {

/// Rate-ratio identity: with equal rates, filtering disabled and the read
/// position at the origin, processing is the identity transform — the counts
/// both equal `min(count, capacity)` and every produced sample equals the
/// input sample in its place.  Stated over the quantities that
/// `process_pcm_frames` promises in its contract.
pub proof fn lemma_rate_ratio_identity(s: LinearResampler, input: Seq<i16>, count: int, cap: int)
    requires
        s.wf(),
        s.config.sample_rate_in == s.config.sample_rate_out,
        s.config.lpf_order == 0,
        s.time_int == 0,
        s.time_frac == 0,
        count >= 0,
        cap >= 0,
        input.len() == count * s.config.channels as int,
    ensures
        ({
            let r = s.config.sample_rate_in as int;
            let c = s.config.channels as int;
            let eff = filtered_seq(s.history@, 0, c, s.alpha as int, input, count);
            let av = avail_output(s.time_num(), r, r, count);
            let p = if cap <= av {
                cap
            } else {
                av
            };
            let cons = if count <= (s.time_num() + p * r) / r {
                count
            } else {
                (s.time_num() + p * r) / r
            };
            &&& av == count
            &&& p == (if cap <= count {
                cap
            } else {
                count
            })
            &&& cons == p
            &&& forall|j: int, ch: int| 0 <= j < p && 0 <= ch < c ==> out_sample(eff, c, r,
                s.time_num(), r, j, ch) == input[j * c + ch] as int
        }),
{
    let r = s.config.sample_rate_in as int;
    let c = s.config.channels as int;
    assert(s.time_num() == 0) by (nonlinear_arith)
        requires
            s.time_num() == s.time_int * s.config.sample_rate_out + s.time_frac,
            s.time_int == 0,
            s.time_frac == 0,
    ;
    assert(s.history@.len() == 0) by (nonlinear_arith)
        requires
            s.history@.len() == s.config.lpf_order * s.config.channels,
            s.config.lpf_order == 0,
    ;
    crate::filter::lemma_filtered_seq_order_zero(s.history@, c, s.alpha as int, input, count);
    let eff = filtered_seq(s.history@, 0, c, s.alpha as int, input, count);
    assert(eff =~= input) by {
        assert(input.take(count * c) =~= input);
    }
    // available outputs: exactly `count`
    if count >= 1 {
        lemma_div_by_multiple(count - 1, r);
        assert(avail_output(0, r, r, count) == count);
    } else {
        assert((count - 1) * r < 0) by (nonlinear_arith)
            requires
                count <= 0,
                r >= 1,
        ;
    }
    let av = avail_output(0, r, r, count);
    let p = if cap <= av {
        cap
    } else {
        av
    };
    // consumed: the position after `p` outputs is exactly frame `p`
    lemma_div_by_multiple(p, r);
    assert((0 + p * r) / r == p);
    // every produced sample is the input sample in its place
    assert forall|j: int, ch: int| 0 <= j < p && 0 <= ch < c implies out_sample(eff, c, r, 0, r, j,
        ch) == input[j * c + ch] as int by {
        lemma_div_by_multiple(j, r);
        lemma_mod_multiples_basic(j, r);
        assert(pos_num(0, r, j) == j * r);
        assert((j * r) / r == j && (j * r) % r == 0);
    }
}

/// Frame-count duality: supplying the whole number of input frames that
/// `required_input_frame_count` reports never serves fewer output frames
/// than were asked for.  Stated over the spec functions that the two query
/// contracts promise.
pub proof fn lemma_frame_count_duality(start: int, rate_in: int, rate_out: int, n: int)
    requires
        start >= 0,
        rate_in >= 1,
        rate_out >= 1,
        n >= 0,
    ensures
        avail_output(start, rate_in, rate_out, required_input(start, rate_in, rate_out, n)) >= n,
{
    if n == 0 {
        let cnt = required_input(start, rate_in, rate_out, 0);
        if servable(start, rate_out, cnt) {
            lemma_div_pos_is_pos((cnt - 1) * rate_out - start, rate_in);
        }
    } else {
        let p = start + (n - 1) * rate_in;
        assert(p >= start >= 0) by (nonlinear_arith)
            requires
                start >= 0,
                n >= 1,
                rate_in >= 1,
                p == start + (n - 1) * rate_in,
        ;
        lemma_fundamental_div_mod(p, rate_out);
        lemma_div_pos_is_pos(p, rate_out);
        let q = p / rate_out;
        let m = p % rate_out;
        let cnt = q + 1 + if m == 0 {
            0int
        } else {
            1int
        };
        assert(p <= (cnt - 1) * rate_out) by (nonlinear_arith)
            requires
                p == rate_out * q + m,
                0 <= m < rate_out,
                cnt == q + 1 + if m == 0 {
                    0int
                } else {
                    1int
                },
        ;
        assert(servable(start, rate_out, cnt)) by {
            assert(start <= p);
            assert(cnt >= 1);
        }
        // the numerator headroom covers n - 1 whole advances
        lemma_div_by_multiple(n - 1, rate_in);
        lemma_div_is_ordered((n - 1) * rate_in, (cnt - 1) * rate_out - start, rate_in);
        assert(avail_output(start, rate_in, rate_out, cnt) >= (n - 1) + 1);
    }
}

/// Rate-change continuity: a successful mid-stream rate change keeps the
/// filter order (hence the input latency) and the whole filter history, and
/// moves the read position by strictly less than one input frame — the
/// rescaled fractional position satisfies an exact remainder identity.
/// Stated over the fields that `set_rate` promises on success.
pub proof fn lemma_rate_change_continuity(
    before: LinearResampler,
    after: LinearResampler,
    sample_rate_in: u32,
    sample_rate_out: u32,
)
    requires
        before.wf(),
        after.wf(),
        after.config == (LinearResamplerConfig {
            sample_rate_in,
            sample_rate_out,
            ..before.config
        }),
        after.history@ == before.history@,
        after.time_int == before.time_int,
        after.time_frac == before.time_frac * sample_rate_out as int
            / before.config.sample_rate_out as int,
    ensures
        1 + after.config.lpf_order == 1 + before.config.lpf_order,
        after.history@ == before.history@,
        before.time_num() * sample_rate_out - after.time_num()
            * before.config.sample_rate_out as int == (before.time_frac * sample_rate_out as int)
            % before.config.sample_rate_out as int,
        0 <= before.time_num() * sample_rate_out - after.time_num() * (
        before.config.sample_rate_out as int),
        before.time_num() * sample_rate_out - after.time_num() * (
        before.config.sample_rate_out as int) < before.config.sample_rate_out as int,
{
    let old_r = before.config.sample_rate_out as int;
    let new_r = sample_rate_out as int;
    let ti = before.time_int as int;
    let tf = before.time_frac as int;
    lemma_fundamental_div_mod(tf * new_r, old_r);
    assert(before.time_num() * new_r - after.time_num() * old_r == (tf * new_r) % old_r) by (
    nonlinear_arith)
        requires
            before.time_num() == ti * old_r + tf,
            after.time_num() == ti * new_r + ((tf * new_r) / old_r),
            tf * new_r == old_r * ((tf * new_r) / old_r) + (tf * new_r) % old_r,
    ;
}

/// A count of servable outputs is never negative.
proof fn lemma_avail_nonneg(start: int, advance: int, rate_out: int, count: int)
    requires
        0 <= start,
        1 <= advance,
        1 <= rate_out,
    ensures
        avail_output(start, advance, rate_out, count) >= 0,
{
    if servable(start, rate_out, count) {
        lemma_div_pos_is_pos((count - 1) * rate_out - start, advance);
    }
}

/// The input frames a servable position reaches: the frame it falls in, and
/// the one after it when the fractional part is nonzero.
proof fn lemma_servable_bounds(num: int, rate_out: int, count: int)
    requires
        servable(num, rate_out, count),
        num >= 0,
        rate_out >= 1,
    ensures
        num % rate_out == 0 ==> num / rate_out <= count - 1,
        num % rate_out != 0 ==> num / rate_out + 1 <= count - 1,
{
    lemma_fundamental_div_mod(num, rate_out);
    lemma_div_pos_is_pos(num, rate_out);
    let i = num / rate_out;
    let f = num % rate_out;
    if f == 0 {
        assert(i <= count - 1) by (nonlinear_arith)
            requires
                rate_out >= 1,
                num == rate_out * i,
                num <= (count - 1) * rate_out,
        ;
    } else {
        assert(i + 1 <= count - 1) by (nonlinear_arith)
            requires
                rate_out >= 1,
                num == rate_out * i + f,
                0 < f < rate_out,
                num <= (count - 1) * rate_out,
                i >= 0,
        ;
    }
}

/// Serving `k` outputs splits the count of servable outputs exactly.
proof fn lemma_avail_decompose(start: int, advance: int, rate_out: int, count: int, k: int)
    requires
        0 <= start,
        1 <= advance,
        1 <= rate_out,
        0 <= k <= avail_output(start, advance, rate_out, count),
    ensures
        avail_output(start, advance, rate_out, count) == k + avail_output(start + k * advance,
            advance, rate_out, count),
{
    let l = (count - 1) * rate_out;
    if !servable(start, rate_out, count) {
        assert(k == 0);
        assert(start + 0 * advance == start);
    } else {
        let q = (l - start) / advance;
        lemma_fundamental_div_mod(l - start, advance);
        lemma_div_pos_is_pos(l - start, advance);
        if k <= q {
            assert(start + k * advance <= l) by (nonlinear_arith)
                requires
                    l - start == advance * q + (l - start) % advance,
                    0 <= (l - start) % advance,
                    0 <= k <= q,
                    advance >= 1,
            ;
            vstd::arithmetic::div_mod::lemma_hoist_over_denominator(l - start - k * advance, k,
                advance as nat);
            assert(servable(start + k * advance, rate_out, count));
            assert(avail_output(start + k * advance, advance, rate_out, count) == q - k + 1);
        } else {
            assert(k == q + 1);
            assert(start + k * advance > l) by (nonlinear_arith)
                requires
                    l - start == advance * q + (l - start) % advance,
                    (l - start) % advance < advance,
                    k == q + 1,
                    advance >= 1,
            ;
            assert(avail_output(start + k * advance, advance, rate_out, count) == 0);
        }
    }
}

/// Consuming `c1` whole frames rebases the position and the buffer together
/// without changing how many outputs the rest can serve.
proof fn lemma_avail_rebase(m1: int, advance: int, rate_out: int, n: int, c1: int)
    requires
        1 <= advance,
        1 <= rate_out,
        0 <= c1 <= n,
        m1 >= c1 * rate_out,
    ensures
        avail_output(m1 - c1 * rate_out, advance, rate_out, n - c1) == avail_output(m1, advance,
            rate_out, n),
{
    assert((n - c1 - 1) * rate_out == (n - 1) * rate_out - c1 * rate_out) by (nonlinear_arith);
    if n - c1 >= 1 {
        assert(servable(m1 - c1 * rate_out, rate_out, n - c1) <==> servable(m1, rate_out, n));
        assert(((n - c1 - 1) * rate_out - (m1 - c1 * rate_out)) == ((n - 1) * rate_out - m1));
    } else {
        assert(c1 == n);
        assert(m1 > (n - 1) * rate_out) by (nonlinear_arith)
            requires
                m1 >= c1 * rate_out,
                c1 == n,
                rate_out >= 1,
        ;
    }
}

/// Conservation across calls: splitting one input stream of `n` frames into
/// two processing calls at any frame boundary `split`, each call given room
/// for every output it can serve, produces exactly the output frames that
/// one call over the whole stream produces, consumes the same whole frames
/// in total, and leaves the read position in the same place.  Stated over
/// the quantities that `process_pcm_frames` promises: the first call sees
/// the first `split` frames, the second call the stream less the frames the
/// first call consumed, from the position the first call left behind.
pub proof fn lemma_conservation_across_calls(
    input: Seq<i16>,
    c: int,
    rate_in: int,
    rate_out: int,
    start: int,
    split: int,
    n: int,
)
    requires
        c >= 1,
        rate_in >= 1,
        rate_out >= 1,
        start >= 0,
        0 <= split <= n,
        input.len() == n * c,
    ensures
        ({
            let av1 = avail_output(start, rate_in, rate_out, split);
            let m1 = start + av1 * rate_in;
            let c1 = if split <= m1 / rate_out {
                split
            } else {
                m1 / rate_out
            };
            let n1 = m1 - c1 * rate_out;
            let av2 = avail_output(n1, rate_in, rate_out, n - c1);
            let m2 = n1 + av2 * rate_in;
            let c2 = if n - c1 <= m2 / rate_out {
                n - c1
            } else {
                m2 / rate_out
            };
            let avf = avail_output(start, rate_in, rate_out, n);
            let mf = start + avf * rate_in;
            let cf = if n <= mf / rate_out {
                n
            } else {
                mf / rate_out
            };
            &&& av1 + av2 == avf
            &&& c1 + c2 == cf
            &&& m2 - c2 * rate_out == mf - cf * rate_out
            &&& forall|j: int, ch: int| 0 <= j < av1 && 0 <= ch < c ==> out_sample(input.take(
                split * c), c, rate_out, start, rate_in, j, ch) == out_sample(input, c, rate_out,
                start, rate_in, j, ch)
            &&& forall|j: int, ch: int| 0 <= j < av2 && 0 <= ch < c ==> #[trigger] out_sample(
                input.skip(c1 * c), c, rate_out, n1, rate_in, j, ch) == out_sample(input, c,
                rate_out, start, rate_in, av1 + j, ch)
        }),
{
    let av1 = avail_output(start, rate_in, rate_out, split);
    let m1 = start + av1 * rate_in;
    let c1 = if split <= m1 / rate_out {
        split
    } else {
        m1 / rate_out
    };
    let n1 = m1 - c1 * rate_out;
    lemma_avail_nonneg(start, rate_in, rate_out, split);
    assert(m1 >= start) by (nonlinear_arith)
        requires
            av1 >= 0,
            rate_in >= 1,
            m1 == start + av1 * rate_in,
    ;
    lemma_fundamental_div_mod(m1, rate_out);
    lemma_div_pos_is_pos(m1, rate_out);
    assert(c1 * rate_out <= (m1 / rate_out) * rate_out <= m1) by (nonlinear_arith)
        requires
            c1 <= m1 / rate_out,
            m1 == rate_out * (m1 / rate_out) + m1 % rate_out,
            0 <= m1 % rate_out,
            rate_out >= 1,
            0 <= c1,
    ;
    // the counts of both calls together are the count of the whole stream
    crate::model::lemma_avail_output_mono(start, rate_in, rate_out, split, n);
    lemma_avail_decompose(start, rate_in, rate_out, n, av1);
    lemma_avail_rebase(m1, rate_in, rate_out, n, c1);
    let av2 = avail_output(n1, rate_in, rate_out, n - c1);
    let avf = avail_output(start, rate_in, rate_out, n);
    assert(avf == av1 + av2);
    // the consumed frames add up, and the position carries over exactly
    let m2 = n1 + av2 * rate_in;
    let mf = start + avf * rate_in;
    assert(mf == m1 + av2 * rate_in && m2 == mf - c1 * rate_out) by (nonlinear_arith)
        requires
            mf == start + (av1 + av2) * rate_in,
            m1 == start + av1 * rate_in,
            m2 == n1 + av2 * rate_in,
            n1 == m1 - c1 * rate_out,
    ;
    lemma_avail_nonneg(n1, rate_in, rate_out, n - c1);
    assert(m2 >= n1 >= 0) by (nonlinear_arith)
        requires
            av2 >= 0,
            rate_in >= 1,
            m2 == n1 + av2 * rate_in,
            n1 >= 0,
    ;
    vstd::arithmetic::div_mod::lemma_hoist_over_denominator(m2, c1, rate_out as nat);
    assert(m2 / rate_out == mf / rate_out - c1);
    lemma_div_is_ordered(m1, mf, rate_out);
    let c2 = if n - c1 <= m2 / rate_out {
        n - c1
    } else {
        m2 / rate_out
    };
    let cf = if n <= mf / rate_out {
        n
    } else {
        mf / rate_out
    };
    assert(c1 + c2 == cf);
    assert(m2 - c2 * rate_out == mf - cf * rate_out) by (nonlinear_arith)
        requires
            m2 == mf - c1 * rate_out,
            c2 == cf - c1,
    ;
    // the first call's outputs read only the frames it was given
    assert forall|j: int, ch: int| 0 <= j < av1 && 0 <= ch < c implies out_sample(input.take(split
        * c), c, rate_out, start, rate_in, j, ch) == out_sample(input, c, rate_out, start,
        rate_in, j, ch) by {
        crate::model::lemma_avail_output_iff(start, rate_in, rate_out, split, j);
        let num = pos_num(start, rate_in, j);
        assert(num >= start >= 0) by (nonlinear_arith)
            requires
                j >= 0,
                rate_in >= 1,
                num == start + j * rate_in,
                start >= 0,
        ;
        lemma_servable_bounds(num, rate_out, split);
        let i = num / rate_out;
        lemma_div_pos_is_pos(num, rate_out);
        assert(0 <= i * c && i * c + ch < split * c) by (nonlinear_arith)
            requires
                0 <= i <= split - 1,
                0 <= ch < c,
                c >= 1,
        ;
        if num % rate_out != 0 {
            assert((i + 1) * c + ch < split * c) by (nonlinear_arith)
                requires
                    0 <= i,
                    i + 1 <= split - 1,
                    0 <= ch < c,
                    c >= 1,
            ;
        }
        assert(split * c <= n * c) by (nonlinear_arith)
            requires
                split <= n,
                c >= 1,
        ;
    }
    // the second call's outputs are the remaining outputs of the whole
    assert forall|j: int, ch: int| 0 <= j < av2 && 0 <= ch < c implies #[trigger] out_sample(
        input.skip(c1 * c), c, rate_out, n1, rate_in, j, ch) == out_sample(input, c, rate_out,
        start, rate_in, av1 + j, ch) by {
        crate::model::lemma_avail_output_iff(n1, rate_in, rate_out, n - c1, j);
        let num2 = pos_num(n1, rate_in, j);
        let numf = pos_num(start, rate_in, av1 + j);
        assert(num2 >= n1 >= 0) by (nonlinear_arith)
            requires
                j >= 0,
                rate_in >= 1,
                num2 == n1 + j * rate_in,
                n1 >= 0,
        ;
        assert(numf == num2 + c1 * rate_out) by (nonlinear_arith)
            requires
                numf == start + (av1 + j) * rate_in,
                num2 == n1 + j * rate_in,
                n1 == start + av1 * rate_in - c1 * rate_out,
        ;
        vstd::arithmetic::div_mod::lemma_hoist_over_denominator(num2, c1, rate_out as nat);
        assert(numf / rate_out == num2 / rate_out + c1);
        assert(numf % rate_out == num2 % rate_out) by {
            vstd::arithmetic::div_mod::lemma_mod_multiples_vanish(c1, num2, rate_out);
            assert(rate_out * c1 + num2 == numf) by (nonlinear_arith)
                requires
                    numf == num2 + c1 * rate_out,
            ;
            vstd::arithmetic::div_mod::lemma_mod_self_0(rate_out);
            assert(num2 % rate_out == num2 % rate_out);
            lemma_fundamental_div_mod(num2, rate_out);
            vstd::arithmetic::div_mod::lemma_mod_division_less_than_divisor(num2, rate_out);
            vstd::arithmetic::div_mod::lemma_fundamental_div_mod_converse_mod(num2, rate_out, num2
                / rate_out, num2 % rate_out);
        }
        lemma_servable_bounds(num2, rate_out, n - c1);
        let i2 = num2 / rate_out;
        lemma_div_pos_is_pos(num2, rate_out);
        assert(0 <= i2 * c && c1 * c + i2 * c + ch == (i2 + c1) * c + ch && c1 * c + (i2 + 1) * c
            + ch == (i2 + 1 + c1) * c + ch) by (nonlinear_arith)
            requires
                0 <= i2,
                0 <= c1,
                0 <= ch < c,
                c >= 1,
        ;
        assert(i2 * c + ch < (n - c1) * c && (i2 + c1) * c + ch < n * c) by (nonlinear_arith)
            requires
                0 <= i2 <= n - c1 - 1,
                0 <= ch < c,
                c >= 1,
                0 <= c1,
        ;
        if num2 % rate_out != 0 {
            assert((i2 + 1) * c + ch < (n - c1) * c && (i2 + 1 + c1) * c + ch < n * c) by (
            nonlinear_arith)
                requires
                    0 <= i2,
                    i2 + 1 <= n - c1 - 1,
                    0 <= ch < c,
                    c >= 1,
                    0 <= c1,
            ;
        }
        assert((n - c1) * c + c1 * c == n * c) by (nonlinear_arith);
        assert(input.skip(c1 * c)[i2 * c + ch] == input[(i2 + c1) * c + ch]);
        if num2 % rate_out != 0 {
            assert(input.skip(c1 * c)[(i2 + 1) * c + ch] == input[(i2 + 1 + c1) * c + ch]);
        }
    }
}

/// Conservation across calls, filter engaged: the effective streams the two
/// calls interpolate are exactly the prefix and the suffix of the whole
/// stream's effective stream, and the filter history the first call commits
/// for its `c1` consumed frames is the whole stream's history at that frame.
/// Together with `lemma_conservation_across_calls` applied to the whole
/// effective stream, splitting a stream at any frame boundary diverges in
/// neither the filter state nor the produced samples.
pub proof fn lemma_conservation_with_filtering(
    hist: Seq<i16>,
    order: int,
    channels: int,
    alpha: int,
    input: Seq<i16>,
    split: int,
    c1: int,
    n: int,
)
    requires
        channels >= 1,
        0 <= c1 <= split <= n,
        input.len() == n * channels,
    ensures
        filtered_seq(hist, order, channels, alpha, input.take(split * channels), split)
            == filtered_seq(hist, order, channels, alpha, input, n).take(split * channels),
        hist_after(hist, order, channels, alpha, input.take(split * channels), c1) == hist_after(
            hist, order, channels, alpha, input, c1),
        filtered_seq(hist_after(hist, order, channels, alpha, input, c1), order, channels, alpha,
            input.skip(c1 * channels), n - c1) == filtered_seq(hist, order, channels, alpha,
            input, n).skip(c1 * channels),
{
    assert(split * channels <= n * channels) by (nonlinear_arith)
        requires
            split <= n,
            channels >= 1,
    ;
    crate::filter::lemma_filtered_seq_take(hist, order, channels, alpha, input, split, n);
    crate::filter::lemma_hist_after_take(hist, order, channels, alpha, input, split, c1);
    crate::filter::lemma_filtered_seq_skip(hist, order, channels, alpha, input, c1, n);
}

} // verus!
