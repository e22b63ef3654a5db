use vstd::prelude::*;
use vstd::arithmetic::div_mod::{
    lemma_fundamental_div_mod,
    lemma_fundamental_div_mod_converse,
    lemma_div_is_ordered,
    lemma_div_by_multiple,
    lemma_div_pos_is_pos,
};
use vstd::arithmetic::mul::{lemma_mul_inequality, lemma_mul_is_commutative};

verus! {

/// Fixed-point linear interpolation: `x0` moved toward `x1` by the fraction
/// `frac / den`, the magnitude of the step rounded down.
pub open spec fn lerp(x0: int, x1: int, frac: int, den: int) -> int {
    if x1 >= x0 {
        x0 + (x1 - x0) * frac / den
    } else {
        x0 - (x0 - x1) * frac / den
    }
}

/// The interpolated value lies between the two samples, and a zero fraction
/// returns the first sample exactly.
pub proof fn lemma_lerp_bounds(x0: int, x1: int, frac: int, den: int)
    requires
        0 < den,
        0 <= frac <= den,
    ensures
        x1 >= x0 ==> x0 <= lerp(x0, x1, frac, den) <= x1,
        x1 < x0 ==> x1 <= lerp(x0, x1, frac, den) <= x0,
        frac == 0 ==> lerp(x0, x1, frac, den) == x0,
{
    let d = if x1 >= x0 {
        x1 - x0
    } else {
        x0 - x1
    };
    lemma_mul_is_commutative(d, frac);
    lemma_mul_inequality(frac, den, d);
    lemma_mul_is_commutative(d, den);
    lemma_div_is_ordered(d * frac, d * den, den);
    lemma_div_by_multiple(d, den);
    lemma_div_pos_is_pos(d * frac, den);
    if frac == 0 {
        assert(d * 0 == 0);
        assert(0int / den == 0) by {
            vstd::arithmetic::div_mod::lemma_div_of0(den);
        }
    }
}

/// Runs `lerp` on machine integers.
pub fn lerp_exec(x0: i16, x1: i16, frac: u32, den: u32) -> (r: i16)
    requires
        0 < den,
        frac <= den,
    ensures
        r as int == lerp(x0 as int, x1 as int, frac as int, den as int),
{
    proof {
        lemma_lerp_bounds(x0 as int, x1 as int, frac as int, den as int);
    }
    if x1 >= x0 {
        let d: u64 = (x1 as i64 - x0 as i64) as u64;
        proof {
            assert((d as int) * (frac as int) <= 65535 * 4294967295int) by (nonlinear_arith)
                requires
                    0 <= d <= 65535,
                    0 <= frac <= 4294967295u32,
            ;
        }
        let step: u64 = d * (frac as u64) / (den as u64);
        proof {
            lemma_mul_is_commutative(d as int, frac as int);
            lemma_mul_inequality(frac as int, den as int, d as int);
            lemma_mul_is_commutative(d as int, den as int);
            lemma_div_is_ordered(d as int * frac as int, d as int * den as int, den as int);
            lemma_div_by_multiple(d as int, den as int);
        }
        (x0 as i64 + step as i64) as i16
    } else {
        let d: u64 = (x0 as i64 - x1 as i64) as u64;
        proof {
            assert((d as int) * (frac as int) <= 65535 * 4294967295int) by (nonlinear_arith)
                requires
                    0 <= d <= 65535,
                    0 <= frac <= 4294967295u32,
            ;
        }
        let step: u64 = d * (frac as u64) / (den as u64);
        proof {
            lemma_mul_is_commutative(d as int, frac as int);
            lemma_mul_inequality(frac as int, den as int, d as int);
            lemma_mul_is_commutative(d as int, den as int);
            lemma_div_is_ordered(d as int * frac as int, d as int * den as int, den as int);
            lemma_div_by_multiple(d as int, den as int);
        }
        (x0 as i64 - step as i64) as i16
    }
}

/// Numerator of the fixed-point read position of output frame `j`: the
/// position starts at `start` and advances by `advance` once per output
/// frame, all over the denominator `rate_out`.
pub open spec fn pos_num(start: int, advance: int, j: int) -> int {
    start + j * advance
}

/// A buffer of `count` whole input frames can serve an output at the
/// position with numerator `num` over `rate_out`: the position must not
/// point past the last frame (a position with a nonzero fractional part
/// needs the following frame as well, which this inequality captures
/// exactly).
pub open spec fn servable(num: int, rate_out: int, count: int) -> bool {
    count >= 1 && num <= (count - 1) * rate_out
}

/// How many output frames a buffer of `count` input frames can serve,
/// starting from position numerator `start` and stepping by `advance`.
pub open spec fn avail_output(start: int, advance: int, rate_out: int, count: int) -> int {
    if !servable(start, rate_out, count) {
        0
    } else {
        ((count - 1) * rate_out - start) / advance + 1
    }
}

/// The value carried by output frame `j`, channel `ch`, when resampling the
/// interleaved stream `input`: the input samples surrounding the read
/// position, linearly interpolated.
pub open spec fn out_sample(
    input: Seq<i16>,
    channels: int,
    rate_out: int,
    start: int,
    advance: int,
    j: int,
    ch: int,
) -> int {
    let num = pos_num(start, advance, j);
    let i = num / rate_out;
    let f = num % rate_out;
    if f == 0 {
        input[i * channels + ch] as int
    } else {
        lerp(
            input[i * channels + ch] as int,
            input[(i + 1) * channels + ch] as int,
            f,
            rate_out,
        )
    }
}

/// Output frame `j` can be served exactly when `j` lies below the count of
/// servable outputs.
pub proof fn lemma_avail_output_iff(start: int, advance: int, rate_out: int, count: int, j: int)
    requires
        0 <= start,
        1 <= advance,
        1 <= rate_out,
        0 <= j,
    ensures
        servable(pos_num(start, advance, j), rate_out, count) <==> j < avail_output(start,
            advance, rate_out, count),
{
    let l = (count - 1) * rate_out;
    assert(0 <= j * advance) by (nonlinear_arith)
        requires
            0 <= j,
            1 <= advance,
    ;
    if count >= 1 && start <= l {
        let q = (l - start) / advance;
        lemma_fundamental_div_mod(l - start, advance);
        if start + j * advance <= l {
            // j * advance <= q * advance + remainder, hence j <= q
            assert(j <= q) by (nonlinear_arith)
                requires
                    1 <= advance,
                    j * advance <= q * advance + (l - start) % advance,
                    0 <= (l - start) % advance < advance,
                    0 <= q,
            ;
        } else {
            assert(q < j) by (nonlinear_arith)
                requires
                    1 <= advance,
                    q * advance + (l - start) % advance < j * advance,
                    0 <= (l - start) % advance < advance,
            ;
        }
    }
}

/// More input frames never serve fewer outputs.
pub proof fn lemma_avail_output_mono(start: int, advance: int, rate_out: int, c1: int, c2: int)
    requires
        0 <= start,
        1 <= advance,
        1 <= rate_out,
        c1 <= c2,
    ensures
        avail_output(start, advance, rate_out, c1) <= avail_output(start, advance, rate_out, c2),
{
    if c1 >= 1 && servable(start, rate_out, c1) {
        assert((c1 - 1) * rate_out <= (c2 - 1) * rate_out) by (nonlinear_arith)
            requires
                c1 <= c2,
                1 <= rate_out,
        ;
        lemma_div_is_ordered((c1 - 1) * rate_out - start, (c2 - 1) * rate_out - start, advance);
    }
}

} // verus!
