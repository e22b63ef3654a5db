use vstd::prelude::*;
use vstd::arithmetic::div_mod::lemma_fundamental_div_mod_converse;
use crate::model::{lerp, lemma_lerp_bounds, lerp_exec};

verus! {

/// Denominator of the filter coefficient: the coefficient `alpha` moves each
/// stage toward the incoming sample by `alpha / 4096` of the distance.
pub const ALPHA_ONE: u32 = 4096;

/// One first-order low-pass stage: the stage state `y` moves toward the
/// incoming sample `x` by `alpha / 4096` of the distance.
pub open spec fn stage_step(y: i16, x: i16, alpha: int) -> i16 {
    lerp(y as int, x as int, alpha, ALPHA_ONE as int) as i16
}

/// The value a sample takes after passing through the first `k` stages of a
/// channel's cascade.  The history is laid out channel-major: stage `k` of
/// channel `ch` sits at index `ch * order + k`.
pub open spec fn chain_value(
    hist: Seq<i16>,
    order: int,
    ch: int,
    alpha: int,
    x: i16,
    k: int,
) -> i16
    decreases k,
{
    if k <= 0 {
        x
    } else {
        stage_step(hist[ch * order + (k - 1)], chain_value(hist, order, ch, alpha, x, k - 1), alpha)
    }
}

/// The history after one interleaved frame has passed through the cascade:
/// each stage holds the value that left it.
pub open spec fn frame_hist(
    hist: Seq<i16>,
    order: int,
    channels: int,
    alpha: int,
    frame: Seq<i16>,
) -> Seq<i16> {
    Seq::new(hist.len(), |idx: int| chain_value(hist, order, idx / order, alpha,
        frame[idx / order], idx % order + 1))
}

/// The filtered interleaved frame: each channel's sample after the whole
/// cascade.
pub open spec fn frame_out(
    hist: Seq<i16>,
    order: int,
    channels: int,
    alpha: int,
    frame: Seq<i16>,
) -> Seq<i16> {
    Seq::new(channels as nat, |ch: int| chain_value(hist, order, ch, alpha, frame[ch], order))
}

/// Frame `j` of an interleaved stream.
pub open spec fn frame_of(input: Seq<i16>, channels: int, j: int) -> Seq<i16> {
    input.subrange(j * channels, (j + 1) * channels)
}

/// The filter history after the first `t` frames of `input` have passed
/// through the cascade.
pub open spec fn hist_after(
    hist: Seq<i16>,
    order: int,
    channels: int,
    alpha: int,
    input: Seq<i16>,
    t: int,
) -> Seq<i16>
    decreases t,
{
    if t <= 0 {
        hist
    } else {
        frame_hist(hist_after(hist, order, channels, alpha, input, t - 1), order, channels, alpha,
            frame_of(input, channels, t - 1))
    }
}

/// Filtered frame `j` of the stream: the frame run through the cascade in
/// the state left behind by the frames before it.
pub open spec fn filtered_frame(
    hist: Seq<i16>,
    order: int,
    channels: int,
    alpha: int,
    input: Seq<i16>,
    j: int,
) -> Seq<i16> {
    frame_out(hist_after(hist, order, channels, alpha, input, j), order, channels, alpha,
        frame_of(input, channels, j))
}

/// The first `count` frames of the stream filtered, flat and interleaved.
/// With a cascade of zero stages this is the input itself.
pub open spec fn filtered_seq(
    hist: Seq<i16>,
    order: int,
    channels: int,
    alpha: int,
    input: Seq<i16>,
    count: int,
) -> Seq<i16> {
    Seq::new((count * channels) as nat, |idx: int| filtered_frame(hist, order, channels, alpha,
        input, idx / channels)[idx % channels])
}

/// A zero-stage cascade hands every frame through unchanged.
pub proof fn lemma_filtered_seq_order_zero(
    hist: Seq<i16>,
    channels: int,
    alpha: int,
    input: Seq<i16>,
    count: int,
)
    requires
        hist.len() == 0,
        channels >= 1,
        count >= 0,
        input.len() >= count * channels,
    ensures
        filtered_seq(hist, 0, channels, alpha, input, count) == input.take(count * channels),
{
    let f = filtered_seq(hist, 0, channels, alpha, input, count);
    assert forall|idx: int| 0 <= idx < count * channels implies f[idx] == input[idx] by {
        let j = idx / channels;
        let ch = idx % channels;
        vstd::arithmetic::div_mod::lemma_fundamental_div_mod(idx, channels);
        assert(0 <= j < count && 0 <= ch < channels) by (nonlinear_arith)
            requires
                0 <= idx < count * channels,
                channels >= 1,
                idx == j * channels + ch,
                0 <= ch < channels,
        ;
        assert(hist_after(hist, 0, channels, alpha, input, j) =~= hist) by {
            lemma_hist_after_empty(hist, channels, alpha, input, j);
        }
        assert((j + 1) * channels == j * channels + channels && 0 <= j * channels && (j + 1)
            * channels <= count * channels) by (nonlinear_arith)
            requires
                0 <= j < count,
                channels >= 1,
        ;
        assert(frame_of(input, channels, j)[ch] == input[j * channels + ch]);
        assert(f[idx] == chain_value(hist, 0, ch, alpha, input[j * channels + ch] as i16, 0));
    }
    assert(f =~= input.take(count * channels));
}

/// An empty cascade's history never changes.
pub proof fn lemma_hist_after_empty(
    hist: Seq<i16>,
    channels: int,
    alpha: int,
    input: Seq<i16>,
    t: int,
)
    requires
        hist.len() == 0,
    ensures
        hist_after(hist, 0, channels, alpha, input, t) =~= hist,
    decreases t,
{
    if t > 0 {
        lemma_hist_after_empty(hist, channels, alpha, input, t - 1);
    }
}

/// The cascade reads only the frames before `t`: cutting the buffer after
/// `m >= t` frames leaves the history it reaches unchanged.
pub proof fn lemma_hist_after_take(
    hist: Seq<i16>,
    order: int,
    channels: int,
    alpha: int,
    input: Seq<i16>,
    m: int,
    t: int,
)
    requires
        channels >= 1,
        0 <= t <= m,
        m * channels <= input.len(),
    ensures
        hist_after(hist, order, channels, alpha, input.take(m * channels), t) == hist_after(hist,
            order, channels, alpha, input, t),
    decreases t,
{
    if t > 0 {
        lemma_hist_after_take(hist, order, channels, alpha, input, m, t - 1);
        assert((t - 1) * channels + channels == t * channels && 0 <= (t - 1) * channels && t
            * channels <= m * channels) by (nonlinear_arith)
            requires
                1 <= t <= m,
                channels >= 1,
        ;
        assert(frame_of(input.take(m * channels), channels, t - 1) =~= frame_of(input, channels, t
            - 1));
    }
}

/// Feeding the rest of a stream from the history its prefix left behind
/// reaches the same history as feeding the whole stream.
pub proof fn lemma_hist_after_skip(
    hist: Seq<i16>,
    order: int,
    channels: int,
    alpha: int,
    input: Seq<i16>,
    s: int,
    t: int,
)
    requires
        channels >= 1,
        s >= 0,
        t >= 0,
        (s + t) * channels <= input.len(),
    ensures
        hist_after(hist_after(hist, order, channels, alpha, input, s), order, channels, alpha,
            input.skip(s * channels), t) == hist_after(hist, order, channels, alpha, input, s + t),
    decreases t,
{
    if t > 0 {
        assert((s + t - 1) * channels <= (s + t) * channels) by (nonlinear_arith)
            requires
                channels >= 1,
        ;
        lemma_hist_after_skip(hist, order, channels, alpha, input, s, t - 1);
        assert((t - 1) * channels + s * channels == (s + t - 1) * channels && t * channels + s
            * channels == (s + t) * channels && 0 <= (t - 1) * channels && (t - 1) * channels
            + channels == t * channels && (s + t - 1) * channels + channels == (s + t) * channels)
            by (nonlinear_arith)
            requires
                t >= 1,
                s >= 0,
                channels >= 1,
        ;
        assert(0 <= s * channels) by (nonlinear_arith)
            requires
                s >= 0,
                channels >= 1,
        ;
        assert(frame_of(input.skip(s * channels), channels, t - 1) =~= frame_of(input, channels, s
            + t - 1));
    }
}

/// The filtered stream of a stream's first `m` frames is the prefix of the
/// whole stream's filtered stream.
pub proof fn lemma_filtered_seq_take(
    hist: Seq<i16>,
    order: int,
    channels: int,
    alpha: int,
    input: Seq<i16>,
    m: int,
    n: int,
)
    requires
        channels >= 1,
        0 <= m <= n,
        n * channels <= input.len(),
    ensures
        filtered_seq(hist, order, channels, alpha, input.take(m * channels), m) == filtered_seq(
            hist, order, channels, alpha, input, n).take(m * channels),
{
    let lhs = filtered_seq(hist, order, channels, alpha, input.take(m * channels), m);
    let whole = filtered_seq(hist, order, channels, alpha, input, n);
    assert(m * channels <= n * channels && 0 <= m * channels) by (nonlinear_arith)
        requires
            0 <= m <= n,
            channels >= 1,
    ;
    assert forall|k: int| 0 <= k < m * channels implies lhs[k] == whole[k] by {
        let j = k / channels;
        let ch = k % channels;
        vstd::arithmetic::div_mod::lemma_fundamental_div_mod(k, channels);
        assert(0 <= j < m && 0 <= ch < channels) by (nonlinear_arith)
            requires
                0 <= k < m * channels,
                channels >= 1,
                k == j * channels + ch,
                0 <= ch < channels,
        ;
        lemma_hist_after_take(hist, order, channels, alpha, input, m, j);
        assert(j * channels + channels == (j + 1) * channels && (j + 1) * channels <= m * channels
            && 0 <= j * channels) by (nonlinear_arith)
            requires
                0 <= j < m,
                channels >= 1,
        ;
        assert(frame_of(input.take(m * channels), channels, j) =~= frame_of(input, channels, j));
    }
    assert(lhs =~= whole.take(m * channels));
}

/// The filtered stream the rest of a stream yields, from the history its
/// consumed prefix left behind, is the suffix of the whole stream's filtered
/// stream.
pub proof fn lemma_filtered_seq_skip(
    hist: Seq<i16>,
    order: int,
    channels: int,
    alpha: int,
    input: Seq<i16>,
    s: int,
    n: int,
)
    requires
        channels >= 1,
        0 <= s <= n,
        n * channels <= input.len(),
    ensures
        filtered_seq(hist_after(hist, order, channels, alpha, input, s), order, channels, alpha,
            input.skip(s * channels), n - s) == filtered_seq(hist, order, channels, alpha, input,
            n).skip(s * channels),
{
    let h1 = hist_after(hist, order, channels, alpha, input, s);
    let lhs = filtered_seq(h1, order, channels, alpha, input.skip(s * channels), n - s);
    let whole = filtered_seq(hist, order, channels, alpha, input, n);
    assert(s * channels <= n * channels && 0 <= s * channels && (n - s) * channels + s * channels
        == n * channels) by (nonlinear_arith)
        requires
            0 <= s <= n,
            channels >= 1,
    ;
    assert forall|k: int| 0 <= k < (n - s) * channels implies lhs[k] == whole[s * channels + k]
        by {
        let j = k / channels;
        let ch = k % channels;
        vstd::arithmetic::div_mod::lemma_fundamental_div_mod(k, channels);
        assert(0 <= j < n - s && 0 <= ch < channels) by (nonlinear_arith)
            requires
                0 <= k < (n - s) * channels,
                channels >= 1,
                k == j * channels + ch,
                0 <= ch < channels,
        ;
        assert((s + j) * channels <= n * channels && (s + j + 1) * channels <= n * channels && j
            * channels + s * channels == (s + j) * channels && j * channels + channels == (j + 1)
            * channels && (s + j) * channels + channels == (s + j + 1) * channels && 0 <= j
            * channels) by (nonlinear_arith)
            requires
                0 <= j < n - s,
                0 <= s,
                channels >= 1,
        ;
        lemma_hist_after_skip(hist, order, channels, alpha, input, s, j);
        assert(frame_of(input.skip(s * channels), channels, j) =~= frame_of(input, channels, s
            + j));
        // the whole stream's entry at the shifted index names the same frame
        let kk = s * channels + k;
        assert(kk == (s + j) * channels + ch) by (nonlinear_arith)
            requires
                kk == s * channels + k,
                k == channels * j + ch,
        ;
        vstd::arithmetic::div_mod::lemma_fundamental_div_mod_converse(kk, channels, s + j, ch);
        assert(whole[kk] == filtered_frame(hist, order, channels, alpha, input, s + j)[ch]);
    }
    assert(lhs =~= whole.skip(s * channels));
}

/// Runs the first `count` frames of `input` through the cascade, returning
/// the filtered frames and the history the cascade is left with.
pub fn filter_frames(
    hist: &Vec<i16>,
    order: u32,
    channels: u32,
    alpha: u32,
    input: &Vec<i16>,
    count: usize,
) -> (r: (Vec<i16>, Vec<i16>))
    requires
        channels >= 1,
        alpha <= ALPHA_ONE,
        hist@.len() == order * channels,
        input@.len() >= count * channels,
        count * channels <= usize::MAX,
    ensures
        r.0@ == filtered_seq(hist@, order as int, channels as int, alpha as int, input@,
            count as int),
        r.1@ == hist_after(hist@, order as int, channels as int, alpha as int, input@,
            count as int),
        r.0@.len() == count * channels,
        r.1@.len() == hist@.len(),
{
    let ghost orig_hist = hist@;
    let o = order as usize;
    let c = channels as usize;
    let mut cur: Vec<i16> = Vec::new();
    let hl: usize = hist.len();
    let mut ci: usize = 0;
    while ci < hl
        invariant
            ci <= hl,
            hl == hist@.len(),
            cur@ =~= hist@.take(ci as int),
        decreases hl - ci,
    {
        let v: i16 = hist[ci];
        cur.push(v);
        ci = ci + 1;
        proof {
            assert(cur@ =~= hist@.take(ci as int));
        }
    }
    proof {
        assert(cur@ =~= hist@);
    }
    let mut out: Vec<i16> = Vec::new();
    let mut t: usize = 0;
    while t < count
        invariant
            channels >= 1,
            alpha <= ALPHA_ONE,
            o == order,
            c == channels,
            t <= count,
            input@.len() >= count * channels,
            count * channels <= usize::MAX,
            orig_hist.len() == order * channels,
            cur@ =~= hist_after(orig_hist, order as int, channels as int, alpha as int, input@,
                t as int),
            cur@.len() == order * channels,
            out@ =~= filtered_seq(orig_hist, order as int, channels as int, alpha as int, input@,
                t as int),
            out@.len() == t * channels,
        decreases count - t,
    {
        proof {
            assert((t + 1) * channels <= count * channels && t * channels + channels == (t + 1)
                * channels && 0 <= t * channels) by (nonlinear_arith)
                requires
                    0 <= t < count,
                    channels >= 1,
            ;
        }
        let ghost pre_hist = cur@;
        let ghost frame = frame_of(input@, channels as int, t as int);
        let mut next: Vec<i16> = Vec::new();
        let mut ch: usize = 0;
        while ch < c
            invariant
                channels >= 1,
                alpha <= ALPHA_ONE,
                o == order,
                c == channels,
                ch <= c,
                t < count,
                input@.len() >= count * channels,
                (t + 1) * channels <= count * channels,
                t * channels + channels == (t + 1) * channels,
                0 <= t * channels,
                cur@ == pre_hist,
                pre_hist.len() == order * channels,
                frame == frame_of(input@, channels as int, t as int),
                next@.len() == ch * order,
                forall|i: int| 0 <= i < ch * order ==> next@[i] == chain_value(pre_hist,
                    order as int, i / (order as int), alpha as int, frame[i / (order as int)],
                    i % (order as int) + 1),
                out@.len() == t * channels + ch,
                forall|i: int| 0 <= i < t * channels ==> out@[i] == filtered_seq(orig_hist,
                    order as int, channels as int, alpha as int, input@, t as int)[i],
                forall|i: int| t * channels <= i < t * channels + ch ==> out@[i] == frame_out(
                    pre_hist, order as int, channels as int, alpha as int, frame)[i - t
                    * channels],
            decreases c - ch,
        {
            proof {
                assert(t * channels + ch < input@.len()) by (nonlinear_arith)
                    requires
                        0 <= t < count,
                        0 <= ch < channels,
                        (t + 1) * channels <= count * channels,
                        t * channels + channels == (t + 1) * channels,
                        input@.len() >= count * channels,
                        channels >= 1,
                        count * channels >= (t + 1) * channels,
                ;
                assert((t + 1) * (channels as int) == t * (channels as int) + channels) by (
                nonlinear_arith);
            }
            let _il: usize = input.len();
            proof {
                assert(t * channels + ch < count * channels && 0 <= t * channels + ch && (t + 1)
                    * channels <= count * channels && 0 <= t * channels) by (nonlinear_arith)
                    requires
                        0 <= t < count,
                        0 <= ch < channels,
                        channels >= 1,
                ;
            }
            let mut v: i16 = input[t * c + ch];
            proof {
                assert(frame[ch as int] == input@[t * (channels as int) + ch]);
                assert(v == chain_value(pre_hist, order as int, ch as int, alpha as int,
                    frame[ch as int], 0));
            }
            let mut k: usize = 0;
            while k < o
                invariant
                    channels >= 1,
                    alpha <= ALPHA_ONE,
                    o == order,
                    c == channels,
                    k <= o,
                    ch < c,
                    cur@ == pre_hist,
                    pre_hist.len() == order * channels,
                    v == chain_value(pre_hist, order as int, ch as int, alpha as int,
                        frame[ch as int], k as int),
                    next@.len() == ch * order + k,
                    forall|i: int| 0 <= i < ch * order ==> next@[i] == chain_value(pre_hist,
                        order as int, i / (order as int), alpha as int, frame[i / (
                        order as int)], i % (order as int) + 1),
                    forall|i: int| ch * order <= i < ch * order + k ==> next@[i] == chain_value(
                        pre_hist, order as int, ch as int, alpha as int, frame[ch as int], i - ch
                        * order + 1),
                decreases o - k,
            {
                proof {
                    assert(ch * order + k < (order as int) * (channels as int) && 0 <= ch * order)
                        by (nonlinear_arith)
                        requires
                            0 <= ch < channels,
                            0 <= k < order,
                    ;
                }
                let _cl: usize = cur.len();
                let y: i16 = cur[ch * o + k];
                let nv: i16 = lerp_exec(y, v, alpha, ALPHA_ONE);
                proof {
                    lemma_lerp_bounds(y as int, v as int, alpha as int, ALPHA_ONE as int);
                    assert(nv == stage_step(y, v, alpha as int));
                    assert(nv == chain_value(pre_hist, order as int, ch as int, alpha as int,
                        frame[ch as int], k + 1));
                }
                next.push(nv);
                v = nv;
                k = k + 1;
            }
            out.push(v);
            ch = ch + 1;
            proof {
                assert(v == frame_out(pre_hist, order as int, channels as int, alpha as int,
                    frame)[ch - 1]);
                assert(next@.len() == ch * order) by (nonlinear_arith)
                    requires
                        next@.len() == (ch - 1) * order + order,
                ;
                assert forall|i: int| (ch - 1) * (order as int) <= i < ch * (order as int)
                    implies next@[i] == chain_value(pre_hist, order as int, i / (order as int),
                    alpha as int, frame[i / (order as int)], i % (order as int) + 1) by {
                    if order > 0 {
                        lemma_fundamental_div_mod_converse(i, order as int, ch - 1, i - (ch - 1)
                            * (order as int));
                    }
                }
            }
        }
        proof {
            assert(next@ =~= frame_hist(pre_hist, order as int, channels as int, alpha as int,
                frame)) by {
                assert forall|i: int| 0 <= i < pre_hist.len() implies next@[i] == chain_value(
                    pre_hist, order as int, i / (order as int), alpha as int, frame[i / (
                    order as int)], i % (order as int) + 1) by {
                    assert(pre_hist.len() == (channels as int) * (order as int)) by (
                    nonlinear_arith)
                        requires
                            pre_hist.len() == (order as int) * (channels as int),
                    ;
                    assert(i < (channels as int) * (order as int));
                    assert(i / (order as int) < channels) by {
                        if order > 0 {
                            vstd::arithmetic::div_mod::lemma_multiply_divide_lt(i, order as int,
                                channels as int);
                        }
                    }
                }
                assert(next@.len() == pre_hist.len()) by (nonlinear_arith)
                    requires
                        next@.len() == (channels as int) * (order as int),
                        pre_hist.len() == (order as int) * (channels as int),
                ;
            }
        }
        cur = next;
        t = t + 1;
        proof {
            assert(cur@ =~= hist_after(orig_hist, order as int, channels as int, alpha as int,
                input@, t as int));
            let fs = filtered_seq(orig_hist, order as int, channels as int, alpha as int, input@,
                t as int);
            assert(out@ =~= fs) by {
                assert forall|i: int| 0 <= i < t * channels implies out@[i] == fs[i] by {
                    let j = i / (channels as int);
                    let chh = i % (channels as int);
                    vstd::arithmetic::div_mod::lemma_fundamental_div_mod(i, channels as int);
                    if i < (t - 1) * (channels as int) {
                        assert(j < t - 1) by (nonlinear_arith)
                            requires
                                i < (t - 1) * (channels as int),
                                channels >= 1,
                                i == j * (channels as int) + chh,
                                0 <= chh < channels,
                                0 <= i,
                        ;
                        assert(out@[i] == filtered_seq(orig_hist, order as int, channels as int,
                            alpha as int, input@, t - 1)[i]);
                    } else {
                        assert(j == t - 1) by (nonlinear_arith)
                            requires
                                (t - 1) * (channels as int) <= i < t * (channels as int),
                                channels >= 1,
                                i == j * (channels as int) + chh,
                                0 <= chh < channels,
                        ;
                        assert(pre_hist == hist_after(orig_hist, order as int, channels as int,
                            alpha as int, input@, t - 1));
                        assert(out@[i] == frame_out(pre_hist, order as int, channels as int,
                            alpha as int, frame)[i - (t - 1) * (channels as int)]);
                        assert(i - (t - 1) * (channels as int) == chh);
                    }
                }
                assert(out@.len() == t * channels && fs.len() == t * channels);
            }
        }
    }
    (out, cur)
}

} // verus!
