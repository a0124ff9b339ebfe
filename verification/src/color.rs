use vstd::prelude::*;

verus! {

/// One three-channel, 8-bit color value: either a sampled pixel or a
/// truncated per-channel mean (a mean of 8-bit samples always fits in 8 bits).
#[derive(Clone, Copy, Debug, PartialEq, Eq, Structural)]
pub struct Rgb {
    pub r: u8,
    pub g: u8,
    pub b: u8,
}

/// Sum of the red channel over a sequence of color samples.
pub open spec fn sum_r(s: Seq<Rgb>) -> int
    decreases s.len(),
{
    if s.len() == 0 {
        0
    } else {
        sum_r(s.drop_last()) + s.last().r
    }
}

/// Sum of the green channel over a sequence of color samples.
pub open spec fn sum_g(s: Seq<Rgb>) -> int
    decreases s.len(),
{
    if s.len() == 0 {
        0
    } else {
        sum_g(s.drop_last()) + s.last().g
    }
}

/// Sum of the blue channel over a sequence of color samples.
pub open spec fn sum_b(s: Seq<Rgb>) -> int
    decreases s.len(),
{
    if s.len() == 0 {
        0
    } else {
        sum_b(s.drop_last()) + s.last().b
    }
}

/// The per-channel mean of a non-empty sequence of samples: integer sum
/// divided by sample count, truncating.
pub open spec fn spec_mean(s: Seq<Rgb>) -> Rgb
    recommends
        s.len() > 0,
{
    Rgb {
        r: (sum_r(s) / s.len() as int) as u8,
        g: (sum_g(s) / s.len() as int) as u8,
        b: (sum_b(s) / s.len() as int) as u8,
    }
}

/// Each channel sum is non-negative and at most 255 per sample.
pub proof fn lemma_sum_bounds(s: Seq<Rgb>)
    ensures
        0 <= sum_r(s) <= 255 * s.len(),
        0 <= sum_g(s) <= 255 * s.len(),
        0 <= sum_b(s) <= 255 * s.len(),
    decreases s.len(),
{
    if s.len() > 0 {
        lemma_sum_bounds(s.drop_last());
    }
}

/// Channel sums distribute over concatenation.
pub proof fn lemma_sum_concat(s: Seq<Rgb>, t: Seq<Rgb>)
    ensures
        sum_r(s + t) == sum_r(s) + sum_r(t),
        sum_g(s + t) == sum_g(s) + sum_g(t),
        sum_b(s + t) == sum_b(s) + sum_b(t),
    decreases t.len(),
{
    if t.len() == 0 {
        assert(s + t =~= s);
    } else {
        assert((s + t).drop_last() =~= s + t.drop_last());
        lemma_sum_concat(s, t.drop_last());
    }
}

/// Adds up each channel over a vector of samples. The sums are exact: a
/// `u128` accumulator cannot overflow on fewer than 2^64 samples of at
/// most 255 each.
pub fn channel_sums(samples: &Vec<Rgb>) -> (sums: (u128, u128, u128))
    ensures
        sums.0 == sum_r(samples@),
        sums.1 == sum_g(samples@),
        sums.2 == sum_b(samples@),
{
    let mut rs: u128 = 0;
    let mut gs: u128 = 0;
    let mut bs: u128 = 0;
    for i in 0..samples.len()
        invariant
            rs == sum_r(samples@.take(i as int)),
            gs == sum_g(samples@.take(i as int)),
            bs == sum_b(samples@.take(i as int)),
            rs <= 255 * i,
            gs <= 255 * i,
            bs <= 255 * i,
    {
        let p = samples[i];
        proof {
            assert(samples@.take(i as int + 1).drop_last() =~= samples@.take(i as int));
            assert(samples@.take(i as int + 1).last() == samples@[i as int]);
        }
        rs = rs + p.r as u128;
        gs = gs + p.g as u128;
        bs = bs + p.b as u128;
    }
    proof {
        assert(samples@.take(samples@.len() as int) =~= samples@);
    }
    (rs, gs, bs)
}

/// The truncated per-channel mean of a non-empty vector of samples.
pub fn mean_color(samples: &Vec<Rgb>) -> (m: Rgb)
    requires
        samples@.len() >= 1,
    ensures
        m == spec_mean(samples@),
{
    let (rs, gs, bs) = channel_sums(samples);
    let n: u128 = samples.len() as u128;
    proof {
        lemma_sum_bounds(samples@);
        assert((255 * (n as int)) / (n as int) == 255) by (nonlinear_arith)
            requires
                n >= 1,
        ;
        vstd::arithmetic::div_mod::lemma_div_is_ordered(rs as int, 255 * (n as int), n as int);
        vstd::arithmetic::div_mod::lemma_div_is_ordered(gs as int, 255 * (n as int), n as int);
        vstd::arithmetic::div_mod::lemma_div_is_ordered(bs as int, 255 * (n as int), n as int);
    }
    Rgb { r: (rs / n) as u8, g: (gs / n) as u8, b: (bs / n) as u8 }
}

} // verus!
