//! Stereo-linked feedback compressor over fixed-point samples.
//!
//! Samples and parameters are fixed-point numbers with `SCALE` as the unit:
//! a value `v` stands for the real amplitude `v / SCALE`. The envelope
//! follower smooths the instantaneous stereo level with one of two
//! coefficients — the attack coefficient while the level rises above the
//! envelope, the release coefficient while it falls — and the gain computer
//! leaves signals at or below the threshold untouched while dividing the
//! excess above it by the ratio.
//!
//! Rounding policy. A rising envelope step rounds up and a falling step
//! rounds down, so an attack always makes strict progress toward the held
//! level and a release always decays to exact silence — neither can stall
//! on a sub-unit increment. The gain computer rounds up as well: the
//! computed gain is never zero, so the compressor attenuates but never
//! silences a signal.

use vstd::prelude::*;
use vstd::arithmetic::div_mod::{
    lemma_div_by_self, lemma_div_is_ordered, lemma_div_is_ordered_by_denominator, lemma_div_of0,
    lemma_div_multiples_vanish, lemma_fundamental_div_mod, lemma_mod_division_less_than_divisor,
    lemma_multiply_divide_lt,
};

verus! {

/// Fixed-point unit: the representation of the real amplitude 1.0.
pub const SCALE: u64 = 65536;

/// Largest admitted sample magnitude (256.0 in real amplitude), chosen so
/// that every intermediate product in the processing path fits in 64 bits.
pub const AMP_LIMIT: u64 = 16777216;

/// Largest admitted makeup gain (16.0 in real amplitude).
pub const MAX_MAKEUP: u64 = 1048576;

/// Magnitude of a sample value.
pub open spec fn mag(x: int) -> int {
    if x < 0 {
        -x
    } else {
        x
    }
}

/// Stereo-linked detection level: the larger channel magnitude.
pub open spec fn pair_level(l: int, r: int) -> int {
    if mag(l) >= mag(r) {
        mag(l)
    } else {
        mag(r)
    }
}

/// One falling step of first-order exponential smoothing toward `x` with
/// the given coefficient, in fixed point, rounding down — so a release
/// decays all the way to silence.
pub open spec fn env_fall(coeff: int, env: int, x: int) -> int {
    (coeff * env + (SCALE - coeff) * x) / (SCALE as int)
}

/// One rising step of the same smoothing, rounding up — so an attack makes
/// strict progress toward a level above the envelope instead of stalling
/// on a sub-unit increment.
pub open spec fn env_rise(coeff: int, env: int, x: int) -> int {
    (coeff * env + (SCALE - coeff) * x + SCALE - 1) / (SCALE as int)
}

/// The envelope after one sample of detected level `x`: the attack
/// coefficient smooths a rising level, the release coefficient a falling one.
pub open spec fn env_next(ac: int, rc: int, env: int, x: int) -> int {
    if x > env {
        env_rise(ac, env, x)
    } else {
        env_fall(rc, env, x)
    }
}

/// Static compression gain (fixed point): unity at or below the threshold,
/// `(t + (env - t)/ratio) / env` above it, computed against a numerator
/// held at `SCALE * SCALE` precision and rounded up — so the gain is
/// always positive and tracks the ideal ratio to within one unit.
pub open spec fn static_gain(t: int, r: int, env: int) -> int {
    if env <= t {
        SCALE as int
    } else {
        (t * (SCALE as int) + (env - t) * (SCALE as int) * (SCALE as int) / r + env - 1) / env
    }
}

/// The gain actually applied to both channels: static gain times makeup
/// gain, rounded up — positive whenever both factors are.
pub open spec fn total_gain(t: int, r: int, mg: int, env: int) -> int {
    (static_gain(t, r, env) * mg + SCALE - 1) / (SCALE as int)
}

/// A sample multiplied by a fixed-point gain, rounding the magnitude down.
pub open spec fn scaled(x: int, g: int) -> int {
    if x >= 0 {
        x * g / (SCALE as int)
    } else {
        -((-x) * g / (SCALE as int))
    }
}

/// Admitted constructor parameters: threshold strictly between 0 and 1,
/// ratio at least 1, smoothing coefficients strictly below 1, makeup gain
/// positive and bounded.
pub open spec fn valid_params(t: int, r: int, ac: int, rc: int, mg: int) -> bool {
    &&& 1 <= t < SCALE
    &&& r >= SCALE
    &&& 0 <= ac < SCALE
    &&& 0 <= rc < SCALE
    &&& 1 <= mg <= MAX_MAKEUP
}

/// Stateful stereo compressor. The parameter fields are fixed after
/// construction; only `envelope` changes, once per processed sample.
pub struct Compressor {
    /// Amplitude above which gain reduction begins (fixed point, below `SCALE`).
    pub threshold: u64,
    /// Compression ratio (fixed point, at least `SCALE`).
    pub ratio: u64,
    /// Smoothing coefficient applied while the level rises.
    pub attack_coeff: u64,
    /// Smoothing coefficient applied while the level falls.
    pub release_coeff: u64,
    /// Running estimate of the stereo signal level.
    pub envelope: u64,
    /// Fixed post-compression multiplier.
    pub makeup_gain: u64,
}

impl Compressor {
    /// Well-formedness: parameters in range and the envelope within the
    /// admitted amplitude band.
    pub open spec fn wf(self) -> bool {
        &&& valid_params(
            self.threshold as int,
            self.ratio as int,
            self.attack_coeff as int,
            self.release_coeff as int,
            self.makeup_gain as int,
        )
        &&& self.envelope <= AMP_LIMIT
    }

    /// The two compressors agree on every parameter field.
    pub open spec fn same_params(self, other: Self) -> bool {
        &&& self.threshold == other.threshold
        &&& self.ratio == other.ratio
        &&& self.attack_coeff == other.attack_coeff
        &&& self.release_coeff == other.release_coeff
        &&& self.makeup_gain == other.makeup_gain
    }

    /// Builds a compressor from in-range parameters with a settled (zero)
    /// envelope.
    pub fn new(threshold: u64, ratio: u64, attack_coeff: u64, release_coeff: u64, makeup_gain: u64) -> (c: Self)
        requires
            valid_params(
                threshold as int,
                ratio as int,
                attack_coeff as int,
                release_coeff as int,
                makeup_gain as int,
            ),
        ensures
            c.wf(),
            c.threshold == threshold,
            c.ratio == ratio,
            c.attack_coeff == attack_coeff,
            c.release_coeff == release_coeff,
            c.makeup_gain == makeup_gain,
            c.envelope == 0,
    {
        Compressor {
            threshold,
            ratio,
            attack_coeff,
            release_coeff,
            envelope: 0,
            makeup_gain,
        }
    }

    /// Builds a compressor exactly when the parameters are in range;
    /// out-of-range parameters are a configuration error and yield `None`.
    pub fn try_new(threshold: u64, ratio: u64, attack_coeff: u64, release_coeff: u64, makeup_gain: u64) -> (r: Option<Self>)
        ensures
            r is Some <==> valid_params(
                threshold as int,
                ratio as int,
                attack_coeff as int,
                release_coeff as int,
                makeup_gain as int,
            ),
            r matches Some(c) ==> {
                &&& c.wf()
                &&& c.threshold == threshold
                &&& c.ratio == ratio
                &&& c.attack_coeff == attack_coeff
                &&& c.release_coeff == release_coeff
                &&& c.makeup_gain == makeup_gain
                &&& c.envelope == 0
            },
    {
        if 1 <= threshold && threshold < SCALE && ratio >= SCALE && attack_coeff < SCALE
            && release_coeff < SCALE && 1 <= makeup_gain && makeup_gain <= MAX_MAKEUP {
            Some(Self::new(threshold, ratio, attack_coeff, release_coeff, makeup_gain))
        } else {
            None
        }
    }

    /// Moves the envelope one step toward the detected level, with the
    /// attack coefficient on a rise and the release coefficient on a fall.
    pub fn update_envelope(&mut self, input_abs: u64)
        requires
            old(self).wf(),
            input_abs <= AMP_LIMIT,
        ensures
            final(self).wf(),
            old(self).same_params(*final(self)),
            final(self).envelope as int == env_next(
                old(self).attack_coeff as int,
                old(self).release_coeff as int,
                old(self).envelope as int,
                input_abs as int,
            ),
    {
        if input_abs > self.envelope {
            let coeff = self.attack_coeff;
            proof {
                lemma_env_rise_between(coeff as int, self.envelope as int, input_abs as int);
            }
            let num: u64 = coeff * self.envelope + (SCALE - coeff) * input_abs + (SCALE - 1);
            self.envelope = num / SCALE;
        } else {
            let coeff = self.release_coeff;
            proof {
                lemma_env_fall_between(coeff as int, self.envelope as int, input_abs as int);
            }
            let num: u64 = coeff * self.envelope + (SCALE - coeff) * input_abs;
            self.envelope = num / SCALE;
        }
    }

    /// The gain to apply to the current sample pair, from the envelope the
    /// follower holds now: unity below the threshold, reduced above it, and
    /// in either case multiplied by the makeup gain. The result is never
    /// zero: the compressor attenuates but never silences.
    pub fn calculate_gain(&self) -> (g: u64)
        requires
            self.wf(),
        ensures
            g as int == total_gain(
                self.threshold as int,
                self.ratio as int,
                self.makeup_gain as int,
                self.envelope as int,
            ),
            1 <= g <= self.makeup_gain,
    {
        proof {
            lemma_static_gain_bounds(self.threshold as int, self.ratio as int, self.envelope as int);
        }
        let s_gain: u64 = if self.envelope > self.threshold {
            let excess: u64 = self.envelope - self.threshold;
            proof {
                assert((excess as int) * (SCALE as int) * (SCALE as int) >= 0) by (nonlinear_arith)
                    requires
                        excess as int >= 0;
                vstd::arithmetic::div_mod::lemma_div_nonincreasing(
                    (excess as int) * (SCALE as int) * (SCALE as int),
                    self.ratio as int,
                );
            }
            let shrunk: u64 = (excess * SCALE * SCALE) / self.ratio;
            (self.threshold * SCALE + shrunk + (self.envelope - 1)) / self.envelope
        } else {
            SCALE
        };
        proof {
            assert((s_gain as int) * (self.makeup_gain as int)
                <= (SCALE as int) * (self.makeup_gain as int)
                <= (SCALE as int) * (MAX_MAKEUP as int)) by (nonlinear_arith)
                requires
                    0 <= s_gain as int <= SCALE as int,
                    0 <= self.makeup_gain as int <= MAX_MAKEUP as int;
            let prod = (s_gain as int) * (self.makeup_gain as int);
            let num = prod + (SCALE as int) - 1;
            assert(prod >= 1) by (nonlinear_arith)
                requires
                    prod == (s_gain as int) * (self.makeup_gain as int),
                    s_gain as int >= 1,
                    self.makeup_gain as int >= 1;
            lemma_div_is_ordered(SCALE as int, num, SCALE as int);
            lemma_div_by_self(SCALE as int);
            assert(num < (SCALE as int) * ((self.makeup_gain as int) + 1)) by (nonlinear_arith)
                requires
                    prod <= (SCALE as int) * (self.makeup_gain as int),
                    num == prod + (SCALE as int) - 1,
                    SCALE as int >= 1;
            lemma_multiply_divide_lt(num, SCALE as int, (self.makeup_gain as int) + 1);
        }
        (s_gain * self.makeup_gain + (SCALE - 1)) / SCALE
    }

    /// Processes one stereo sample pair: updates the envelope from the
    /// stereo-linked level `max(|left|, |right|)`, computes a single gain
    /// from the new envelope, and applies that same gain to both channels.
    pub fn process(&mut self, left: i64, right: i64) -> (out: (i64, i64))
        requires
            old(self).wf(),
            mag(left as int) <= AMP_LIMIT,
            mag(right as int) <= AMP_LIMIT,
        ensures
            final(self).wf(),
            old(self).same_params(*final(self)),
            final(self).envelope as int == env_next(
                old(self).attack_coeff as int,
                old(self).release_coeff as int,
                old(self).envelope as int,
                pair_level(left as int, right as int),
            ),
            out.0 as int == scaled(
                left as int,
                total_gain(
                    old(self).threshold as int,
                    old(self).ratio as int,
                    old(self).makeup_gain as int,
                    final(self).envelope as int,
                ),
            ),
            out.1 as int == scaled(
                right as int,
                total_gain(
                    old(self).threshold as int,
                    old(self).ratio as int,
                    old(self).makeup_gain as int,
                    final(self).envelope as int,
                ),
            ),
            mag(out.0 as int) <= mag(left as int) * (MAX_MAKEUP as int) / (SCALE as int),
            mag(out.1 as int) <= mag(right as int) * (MAX_MAKEUP as int) / (SCALE as int),
    {
        let la: u64 = if left >= 0 {
            left as u64
        } else {
            (-left) as u64
        };
        let ra: u64 = if right >= 0 {
            right as u64
        } else {
            (-right) as u64
        };
        let level: u64 = if la >= ra {
            la
        } else {
            ra
        };
        self.update_envelope(level);
        let g = self.calculate_gain();
        proof {
            assert((la as int) * (g as int) <= (AMP_LIMIT as int) * (MAX_MAKEUP as int))
                by (nonlinear_arith)
                requires
                    0 <= la as int <= AMP_LIMIT as int,
                    0 <= g as int <= MAX_MAKEUP as int;
            assert((ra as int) * (g as int) <= (AMP_LIMIT as int) * (MAX_MAKEUP as int))
                by (nonlinear_arith)
                requires
                    0 <= ra as int <= AMP_LIMIT as int,
                    0 <= g as int <= MAX_MAKEUP as int;
        }
        let out_l_mag: u64 = (la * g) / SCALE;
        let out_r_mag: u64 = (ra * g) / SCALE;
        proof {
            lemma_scaled_mag_bound(la as int, g as int, self.makeup_gain as int);
            lemma_scaled_mag_bound(ra as int, g as int, self.makeup_gain as int);
            assert((self.makeup_gain as int) * (MAX_MAKEUP as int)
                >= (self.makeup_gain as int) * (self.makeup_gain as int)) by (nonlinear_arith)
                requires
                    0 <= self.makeup_gain as int <= MAX_MAKEUP as int;
            assert((la as int) * (self.makeup_gain as int) <= (la as int) * (MAX_MAKEUP as int))
                by (nonlinear_arith)
                requires
                    0 <= la as int,
                    self.makeup_gain as int <= MAX_MAKEUP as int;
            lemma_div_is_ordered(
                (la as int) * (self.makeup_gain as int),
                (la as int) * (MAX_MAKEUP as int),
                SCALE as int,
            );
            assert((ra as int) * (self.makeup_gain as int) <= (ra as int) * (MAX_MAKEUP as int))
                by (nonlinear_arith)
                requires
                    0 <= ra as int,
                    self.makeup_gain as int <= MAX_MAKEUP as int;
            lemma_div_is_ordered(
                (ra as int) * (self.makeup_gain as int),
                (ra as int) * (MAX_MAKEUP as int),
                SCALE as int,
            );
        }
        let out_l: i64 = if left >= 0 {
            out_l_mag as i64
        } else {
            -(out_l_mag as i64)
        };
        let out_r: i64 = if right >= 0 {
            out_r_mag as i64
        } else {
            -(out_r_mag as i64)
        };
        (out_l, out_r)
    }
}

/// The envelope after a whole block of stereo samples, folding `env_next`
/// over the detected level of each pair in order.
pub open spec fn env_after(ac: int, rc: int, e0: int, l: Seq<i64>, r: Seq<i64>) -> int
    decreases l.len(),
{
    if l.len() == 0 {
        e0
    } else {
        env_next(
            ac,
            rc,
            env_after(ac, rc, e0, l.drop_last(), r.drop_last()),
            pair_level(l.last() as int, r.last() as int),
        )
    }
}

impl Compressor {
    /// Processes one block of stereo samples in order, threading the
    /// envelope through every pair: each output pair carries the gain
    /// computed from the envelope as it stood right after its own input
    /// pair was detected.
    pub fn process_block(&mut self, left: &Vec<i64>, right: &Vec<i64>) -> (out: (Vec<i64>, Vec<i64>))
        requires
            old(self).wf(),
            left@.len() == right@.len(),
            forall|i: int| 0 <= i < left@.len() ==> mag(#[trigger] left@[i] as int) <= AMP_LIMIT,
            forall|i: int| 0 <= i < right@.len() ==> mag(#[trigger] right@[i] as int) <= AMP_LIMIT,
        ensures
            final(self).wf(),
            old(self).same_params(*final(self)),
            final(self).envelope as int == env_after(
                old(self).attack_coeff as int,
                old(self).release_coeff as int,
                old(self).envelope as int,
                left@,
                right@,
            ),
            out.0@.len() == left@.len(),
            out.1@.len() == left@.len(),
            forall|i: int| 0 <= i < left@.len() ==> #[trigger] out.0@[i] as int == scaled(
                left@[i] as int,
                total_gain(
                    old(self).threshold as int,
                    old(self).ratio as int,
                    old(self).makeup_gain as int,
                    env_after(
                        old(self).attack_coeff as int,
                        old(self).release_coeff as int,
                        old(self).envelope as int,
                        left@.take(i + 1),
                        right@.take(i + 1),
                    ),
                ),
            ),
            forall|i: int| 0 <= i < left@.len() ==> #[trigger] out.1@[i] as int == scaled(
                right@[i] as int,
                total_gain(
                    old(self).threshold as int,
                    old(self).ratio as int,
                    old(self).makeup_gain as int,
                    env_after(
                        old(self).attack_coeff as int,
                        old(self).release_coeff as int,
                        old(self).envelope as int,
                        left@.take(i + 1),
                        right@.take(i + 1),
                    ),
                ),
            ),
    {
        let ghost c0 = *old(self);
        let mut out_l: Vec<i64> = Vec::new();
        let mut out_r: Vec<i64> = Vec::new();
        let mut i: usize = 0;
        while i < left.len()
            invariant
                i <= left@.len(),
                left@.len() == right@.len(),
                self.wf(),
                c0.wf(),
                c0.same_params(*self),
                forall|k: int| 0 <= k < left@.len() ==> mag(#[trigger] left@[k] as int) <= AMP_LIMIT,
                forall|k: int| 0 <= k < right@.len() ==> mag(#[trigger] right@[k] as int) <= AMP_LIMIT,
                self.envelope as int == env_after(
                    c0.attack_coeff as int,
                    c0.release_coeff as int,
                    c0.envelope as int,
                    left@.take(i as int),
                    right@.take(i as int),
                ),
                out_l@.len() == i,
                out_r@.len() == i,
                forall|j: int| 0 <= j < i ==> #[trigger] out_l@[j] as int == scaled(
                    left@[j] as int,
                    total_gain(
                        c0.threshold as int,
                        c0.ratio as int,
                        c0.makeup_gain as int,
                        env_after(
                            c0.attack_coeff as int,
                            c0.release_coeff as int,
                            c0.envelope as int,
                            left@.take(j + 1),
                            right@.take(j + 1),
                        ),
                    ),
                ),
                forall|j: int| 0 <= j < i ==> #[trigger] out_r@[j] as int == scaled(
                    right@[j] as int,
                    total_gain(
                        c0.threshold as int,
                        c0.ratio as int,
                        c0.makeup_gain as int,
                        env_after(
                            c0.attack_coeff as int,
                            c0.release_coeff as int,
                            c0.envelope as int,
                            left@.take(j + 1),
                            right@.take(j + 1),
                        ),
                    ),
                ),
            decreases left@.len() - i,
        {
            let (ol, or) = self.process(left[i], right[i]);
            proof {
                assert(left@.take(i + 1).drop_last() =~= left@.take(i as int));
                assert(right@.take(i + 1).drop_last() =~= right@.take(i as int));
                assert(left@.take(i + 1).last() == left@[i as int]);
                assert(right@.take(i + 1).last() == right@[i as int]);
            }
            out_l.push(ol);
            out_r.push(or);
            i += 1;
        }
        proof {
            assert(left@.take(left@.len() as int) =~= left@);
            assert(right@.take(right@.len() as int) =~= right@);
        }
        (out_l, out_r)
    }
}

/// A falling smoothing step lands between its two operands: the envelope
/// can overshoot neither the level it chases nor the value it leaves.
pub proof fn lemma_env_fall_between(coeff: int, env: int, x: int)
    requires
        0 <= coeff < SCALE,
        0 <= env,
        0 <= x,
    ensures
        env <= x ==> env <= env_fall(coeff, env, x) <= x,
        x <= env ==> x <= env_fall(coeff, env, x) <= env,
{
    let s = SCALE as int;
    let num = coeff * env + (s - coeff) * x;
    if env <= x {
        assert(s * env <= num <= s * x) by (nonlinear_arith)
            requires
                0 <= coeff < s,
                0 <= env <= x,
                num == coeff * env + (s - coeff) * x;
        lemma_div_is_ordered(s * env, num, s);
        lemma_div_is_ordered(num, s * x, s);
        lemma_div_multiples_vanish(env, s);
        lemma_div_multiples_vanish(x, s);
    } else {
        assert(s * x <= num <= s * env) by (nonlinear_arith)
            requires
                0 <= coeff < s,
                0 <= x <= env,
                num == coeff * env + (s - coeff) * x;
        lemma_div_is_ordered(s * x, num, s);
        lemma_div_is_ordered(num, s * env, s);
        lemma_div_multiples_vanish(env, s);
        lemma_div_multiples_vanish(x, s);
    }
}

/// A rising smoothing step makes strict progress: from an envelope below
/// the level it lands strictly above the envelope — rounding up forbids a
/// stall on a sub-unit increment — and still never overshoots the level.
pub proof fn lemma_env_rise_between(coeff: int, env: int, x: int)
    requires
        0 <= coeff < SCALE,
        0 <= env < x,
    ensures
        env < env_rise(coeff, env, x) <= x,
{
    let s = SCALE as int;
    let num = coeff * env + (s - coeff) * x;
    assert(s * env + 1 <= num <= s * x) by (nonlinear_arith)
        requires
            0 <= coeff < s,
            0 <= env < x,
            num == coeff * env + (s - coeff) * x;
    assert(s * (env + 1) <= num + s - 1);
    lemma_div_is_ordered(s * (env + 1), num + s - 1, s);
    lemma_div_multiples_vanish(env + 1, s);
    assert(num + s - 1 < s * (x + 1)) by (nonlinear_arith)
        requires
            num <= s * x,
            s >= 1;
    lemma_multiply_divide_lt(num + s - 1, s, x + 1);
}

/// While the detected level sits strictly below the envelope, one falling
/// step strictly lowers the envelope: a dropped input decays, it never
/// sticks.
pub proof fn lemma_env_fall_strict_decrease(coeff: int, env: int, x: int)
    requires
        0 <= coeff < SCALE,
        0 <= x < env,
    ensures
        x <= env_fall(coeff, env, x) < env,
{
    let s = SCALE as int;
    let num = coeff * env + (s - coeff) * x;
    lemma_env_fall_between(coeff, env, x);
    assert(num < s * env) by (nonlinear_arith)
        requires
            0 <= coeff < s,
            0 <= x < env,
            num == coeff * env + (s - coeff) * x;
    lemma_multiply_divide_lt(num, s, env);
}

/// The static gain is unity at or below the threshold, and everywhere
/// positive and at most unity: the compressor attenuates but never
/// silences.
pub proof fn lemma_static_gain_bounds(t: int, r: int, env: int)
    requires
        1 <= t,
        r >= SCALE,
        0 <= env <= AMP_LIMIT,
    ensures
        env <= t ==> static_gain(t, r, env) == SCALE,
        1 <= static_gain(t, r, env) <= SCALE,
{
    let s = SCALE as int;
    if env > t {
        let excess = env - t;
        let q = excess * s * s / r;
        lemma_div_is_ordered_by_denominator(excess * s * s, s, r);
        assert(excess * s * s == s * (excess * s)) by (nonlinear_arith);
        lemma_div_multiples_vanish(excess * s, s);
        assert(q <= excess * s);
        assert(excess * s * s >= 0) by (nonlinear_arith)
            requires
                excess >= 0,
                s >= 0;
        lemma_div_of0(r);
        lemma_div_is_ordered(0, excess * s * s, r);
        let num = t * s + q + env - 1;
        assert(t * s + excess * s == env * s) by (nonlinear_arith)
            requires
                t + excess == env;
        assert(num < env * (s + 1)) by (nonlinear_arith)
            requires
                q <= excess * s,
                t * s + excess * s == env * s,
                num == t * s + q + env - 1,
                env >= 1;
        lemma_multiply_divide_lt(num, env, s + 1);
        assert(t * s >= s) by (nonlinear_arith)
            requires
                t >= 1,
                s >= 0;
        assert(num >= env);
        lemma_div_is_ordered(env, num, env);
        lemma_div_by_self(env);
    }
}

/// Once the envelope has settled at or below the threshold, a sample pair
/// whose magnitudes stay at or below the threshold keeps it there, the
/// static gain is exactly unity, and the applied gain is exactly the makeup
/// gain — such signals pass through scaled by makeup alone.
pub proof fn lemma_settled_below_threshold(c: Compressor, l: int, r: int)
    requires
        c.wf(),
        c.envelope <= c.threshold,
        mag(l) <= c.threshold,
        mag(r) <= c.threshold,
    ensures
        env_next(
            c.attack_coeff as int,
            c.release_coeff as int,
            c.envelope as int,
            pair_level(l, r),
        ) <= c.threshold,
        total_gain(
            c.threshold as int,
            c.ratio as int,
            c.makeup_gain as int,
            env_next(
                c.attack_coeff as int,
                c.release_coeff as int,
                c.envelope as int,
                pair_level(l, r),
            ),
        ) == c.makeup_gain,
{
    let s = SCALE as int;
    let level = pair_level(l, r);
    let e = c.envelope as int;
    if level > e {
        lemma_env_rise_between(c.attack_coeff as int, e, level);
    } else {
        lemma_env_fall_between(c.release_coeff as int, e, level);
    }
    let e2 = env_next(c.attack_coeff as int, c.release_coeff as int, e, level);
    assert(e2 <= c.threshold);
    let mg = c.makeup_gain as int;
    let num = s * mg + s - 1;
    lemma_div_is_ordered(s * mg, num, s);
    lemma_div_multiples_vanish(mg, s);
    assert(num < s * (mg + 1)) by (nonlinear_arith)
        requires
            num == s * mg + s - 1,
            s >= 1;
    lemma_multiply_divide_lt(num, s, mg + 1);
    assert(s * mg == mg * s) by (nonlinear_arith);
}

/// A detected level above the envelope is chased with the attack
/// coefficient — not the release coefficient — and the envelope rises
/// toward it strictly monotonically without overshooting it.
pub proof fn lemma_attack_rise(ac: int, rc: int, env: int, x: int)
    requires
        0 <= ac < SCALE,
        0 <= rc < SCALE,
        0 <= env < x,
    ensures
        env_next(ac, rc, env, x) == env_rise(ac, env, x),
        env < env_next(ac, rc, env, x) <= x,
{
    lemma_env_rise_between(ac, env, x);
}

/// A detected level below the envelope is released with the release
/// coefficient — not the attack coefficient — and the envelope strictly
/// decays toward it without undershooting it. In particular a step down
/// to silence decays toward zero.
pub proof fn lemma_release_decay(ac: int, rc: int, env: int, x: int)
    requires
        0 <= ac < SCALE,
        0 <= rc < SCALE,
        0 <= x < env,
    ensures
        env_next(ac, rc, env, x) == env_fall(rc, env, x),
        x <= env_next(ac, rc, env, x) < env,
{
    lemma_env_fall_strict_decrease(rc, env, x);
}

/// The smoothing rate is governed by the coefficient exactly as
/// configured: with the same envelope and level, a larger coefficient
/// decays more slowly on a fall and rises more slowly on a rise, so
/// distinct attack and release coefficients give distinct rates.
pub proof fn lemma_coeff_governs_rate(c1: int, c2: int, env: int, x: int)
    requires
        0 <= c1 <= c2 < SCALE,
        0 <= env,
        0 <= x,
    ensures
        x <= env ==> env_fall(c1, env, x) <= env_fall(c2, env, x),
        env <= x ==> env_rise(c2, env, x) <= env_rise(c1, env, x),
{
    let s = SCALE as int;
    let n1 = c1 * env + (s - c1) * x;
    let n2 = c2 * env + (s - c2) * x;
    if x <= env {
        assert(n1 <= n2) by (nonlinear_arith)
            requires
                0 <= c1 <= c2,
                0 <= x <= env,
                n1 == c1 * env + (s - c1) * x,
                n2 == c2 * env + (s - c2) * x;
        lemma_div_is_ordered(n1, n2, s);
    }
    if env <= x {
        assert(n2 <= n1) by (nonlinear_arith)
            requires
                0 <= c1 <= c2,
                0 <= env <= x,
                n1 == c1 * env + (s - c1) * x,
                n2 == c2 * env + (s - c2) * x;
        lemma_div_is_ordered(n2 + s - 1, n1 + s - 1, s);
    }
}

/// Block-level settling: starting from an envelope at or below the
/// threshold, a whole block whose sample magnitudes stay at or below the
/// threshold keeps the envelope there — so by `lemma_settled_below_threshold`
/// every sample of such a block passes through scaled by the makeup gain
/// alone.
pub proof fn lemma_settled_envelope_block(
    ac: int,
    rc: int,
    t: int,
    e0: int,
    l: Seq<i64>,
    r: Seq<i64>,
)
    requires
        0 <= ac < SCALE,
        0 <= rc < SCALE,
        0 <= e0 <= t,
        l.len() == r.len(),
        forall|i: int| 0 <= i < l.len() ==> mag((#[trigger] l[i]) as int) <= t,
        forall|i: int| 0 <= i < r.len() ==> mag((#[trigger] r[i]) as int) <= t,
    ensures
        0 <= env_after(ac, rc, e0, l, r) <= t,
    decreases l.len(),
{
    if l.len() > 0 {
        assert forall|i: int| 0 <= i < l.drop_last().len() implies mag(
            (#[trigger] l.drop_last()[i]) as int,
        ) <= t by {
            assert(l.drop_last()[i] == l[i]);
        }
        assert forall|i: int| 0 <= i < r.drop_last().len() implies mag(
            (#[trigger] r.drop_last()[i]) as int,
        ) <= t by {
            assert(r.drop_last()[i] == r[i]);
        }
        lemma_settled_envelope_block(ac, rc, t, e0, l.drop_last(), r.drop_last());
        let e1 = env_after(ac, rc, e0, l.drop_last(), r.drop_last());
        let level = pair_level(l.last() as int, r.last() as int);
        assert(mag(l.last() as int) <= t && mag(r.last() as int) <= t);
        if level > e1 {
            lemma_env_rise_between(ac, e1, level);
        } else {
            lemma_env_fall_between(rc, e1, level);
        }
    }
}

/// Stereo-link invariant: the gain a sample pair receives is one value
/// computed from the pair's common detected level `max(|l|, |r|)` — it is
/// applied identically to both channels in `process`, and it does not
/// depend on which channel carries the louder signal.
pub proof fn lemma_stereo_link(c: Compressor, l: int, r: int)
    requires
        c.wf(),
    ensures
        pair_level(l, r) == pair_level(r, l),
        total_gain(
            c.threshold as int,
            c.ratio as int,
            c.makeup_gain as int,
            env_next(
                c.attack_coeff as int,
                c.release_coeff as int,
                c.envelope as int,
                pair_level(l, r),
            ),
        ) == total_gain(
            c.threshold as int,
            c.ratio as int,
            c.makeup_gain as int,
            env_next(
                c.attack_coeff as int,
                c.release_coeff as int,
                c.envelope as int,
                pair_level(r, l),
            ),
        ),
{
}

/// The ideal (unquantized) compression transfer is anti-monotone in the
/// envelope above the threshold: a larger envelope never earns a larger
/// gain ratio. Stated over the cross-multiplied ratio
/// `(t*ratio + (e - t)*SCALE) / (ratio*e)`; `static_gain` rounds
/// `SCALE` times this ratio up at unit precision, and
/// `lemma_gain_antimonotone_within_one` carries the ordering over to that
/// realized gain with a one-unit allowance.
pub proof fn lemma_ideal_gain_antimonotone(t: int, r: int, e1: int, e2: int)
    requires
        1 <= t,
        r >= SCALE,
        t < e1 <= e2,
    ensures
        (t * r + (e2 - t) * (SCALE as int)) * e1 <= (t * r + (e1 - t) * (SCALE as int)) * e2,
{
    let s = SCALE as int;
    assert((t * r + (e2 - t) * s) * e1 <= (t * r + (e1 - t) * s) * e2) by (nonlinear_arith)
        requires
            1 <= t,
            r >= s,
            t < e1 <= e2,
            s >= 1;
}

/// The realized gain inherits the ideal anti-monotonicity to within one
/// quantization unit: above the threshold, a larger envelope never earns
/// a gain more than one unit above a smaller envelope's gain. (Exact
/// anti-monotonicity cannot hold of any unit-precision rounding: between
/// adjacent envelopes the ideal ratio may move by less than one unit in
/// either direction of the rounding.)
pub proof fn lemma_gain_antimonotone_within_one(t: int, r: int, e1: int, e2: int)
    requires
        1 <= t,
        r >= SCALE,
        t < e1 <= e2 <= AMP_LIMIT,
    ensures
        static_gain(t, r, e2) <= static_gain(t, r, e1) + 1,
{
    let s = SCALE as int;
    let q1 = (e1 - t) * s * s / r;
    let q2 = (e2 - t) * s * s / r;
    let m1 = t * s + q1;
    let m2 = t * s + q2;
    let g1 = (m1 + e1 - 1) / e1;
    let g2 = (m2 + e2 - 1) / e2;
    assert(static_gain(t, r, e1) == g1);
    assert(static_gain(t, r, e2) == g2);
    // bracket the inner divisions: r*q_i <= (e_i - t)*s*s < r*q_i + r
    lemma_fundamental_div_mod((e1 - t) * s * s, r);
    lemma_mod_division_less_than_divisor((e1 - t) * s * s, r);
    lemma_fundamental_div_mod((e2 - t) * s * s, r);
    lemma_mod_division_less_than_divisor((e2 - t) * s * s, r);
    assert(r * q1 <= (e1 - t) * s * s < r * q1 + r);
    assert(r * q2 <= (e2 - t) * s * s < r * q2 + r);
    // bracket the outer divisions: m_i <= e_i * g_i < m_i + e_i
    lemma_fundamental_div_mod(m1 + e1 - 1, e1);
    lemma_mod_division_less_than_divisor(m1 + e1 - 1, e1);
    lemma_fundamental_div_mod(m2 + e2 - 1, e2);
    lemma_mod_division_less_than_divisor(m2 + e2 - 1, e2);
    assert(m1 <= e1 * g1 < m1 + e1);
    assert(m2 <= e2 * g2 < m2 + e2);
    // the ideal ratio is anti-monotone
    let ideal1 = t * r * s + (e1 - t) * s * s;
    let ideal2 = t * r * s + (e2 - t) * s * s;
    lemma_ideal_gain_antimonotone(t, r, e1, e2);
    assert(ideal2 * e1 <= ideal1 * e2) by (nonlinear_arith)
        requires
            (t * r + (e2 - t) * s) * e1 <= (t * r + (e1 - t) * s) * e2,
            ideal1 == t * r * s + (e1 - t) * s * s,
            ideal2 == t * r * s + (e2 - t) * s * s,
            s >= 0;
    // chain the brackets through the ideal ordering, one product at a time
    assert(r * m2 * e1 <= ideal2 * e1) by (nonlinear_arith)
        requires
            m2 == t * s + q2,
            r * q2 <= (e2 - t) * s * s,
            ideal2 == t * r * s + (e2 - t) * s * s,
            e1 >= 0;
    assert(ideal1 * e2 < r * (m1 + 1) * e2) by (nonlinear_arith)
        requires
            (e1 - t) * s * s < r * q1 + r,
            m1 == t * s + q1,
            ideal1 == t * r * s + (e1 - t) * s * s,
            e2 >= 1;
    assert(r * (m1 + 1) * e2 <= r * (e1 * g1 + 1) * e2) by (nonlinear_arith)
        requires
            m1 <= e1 * g1,
            r >= 1,
            e2 >= 1;
    assert(r * m2 * e1 < r * (e1 * g1 + 1) * e2);
    assert(r * e1 * (e2 * g2) <= r * m2 * e1 + r * e1 * e2 - r * e1) by (nonlinear_arith)
        requires
            e2 * g2 < m2 + e2,
            r >= 1,
            e1 >= 1;
    assert(r * e1 * (e2 * g2) < r * e1 * e2 * (g1 + 2)) by (nonlinear_arith)
        requires
            r * e1 * (e2 * g2) <= r * m2 * e1 + r * e1 * e2 - r * e1,
            r * m2 * e1 < r * (e1 * g1 + 1) * e2,
            r >= 1,
            2 <= e1 <= e2;
    assert(g2 < g1 + 2) by (nonlinear_arith)
        requires
            r * e1 * (e2 * g2) < r * e1 * e2 * (g1 + 2),
            r >= 1,
            e1 >= 1,
            e2 >= 1;
}

/// Applying a gain bounded by the makeup gain keeps a sample magnitude
/// within `x * makeup / SCALE`.
proof fn lemma_scaled_mag_bound(x: int, g: int, mg: int)
    requires
        0 <= x,
        0 <= g <= mg,
    ensures
        0 <= x * g / (SCALE as int) <= x * mg / (SCALE as int),
{
    let s = SCALE as int;
    assert(0 <= x * g <= x * mg) by (nonlinear_arith)
        requires
            0 <= x,
            0 <= g <= mg;
    lemma_div_is_ordered(0, x * g, s);
    lemma_div_is_ordered(x * g, x * mg, s);
}

} // verus!
