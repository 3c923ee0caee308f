//! An audio clip in the frequency domain, and its additive synthesis into
//! time-domain samples.

use vstd::prelude::*;
use vstd::pervasive::VecAdditionalExecFns;
use vstd::arithmetic::div_mod::{
    lemma_div_is_ordered, lemma_div_multiples_vanish, lemma_div_pos_is_pos,
};
use vstd::arithmetic::mul::{
    lemma_mul_by_zero_is_zero, lemma_mul_inequality, lemma_mul_is_commutative,
    lemma_mul_nonnegative, lemma_mul_upper_bound,
};
use crate::audio_types::{amp_clamped, Amplitude, Value};
use crate::logscale::{bin_frequency, frequency_of_bin};
use crate::sine::{sin_turns, sine_wave};
use crate::{AMP_ONE, FIX_ONE, QUANT_MAX, SIG_ONE};

verus! {

/// The sequence of fixed-point signal values held by a sequence of samples.
pub open spec fn signal_seq(s: Seq<Value>) -> Seq<int> {
    s.map_values(|v: Value| v@)
}

/// The largest absolute value in a sequence of signal values (0 if empty).
pub open spec fn max_abs(s: Seq<int>) -> int
    decreases s.len(),
{
    if s.len() == 0 {
        0
    } else {
        let m = max_abs(s.drop_last());
        let a = vstd::math::abs(s.last()) as int;
        if a > m {
            a
        } else {
            m
        }
    }
}

/// What normalization does to one signal value: scale by `SIG_ONE / m`
/// (rounding toward zero), where `m` is the peak absolute value of the
/// whole waveform; a silent waveform (`m == 0`) is left untouched.
pub open spec fn normalized_value(v: int, m: int) -> int {
    if m == 0 {
        v
    } else if v >= 0 {
        (v * (SIG_ONE as int)) / m
    } else {
        -(((-v) * (SIG_ONE as int)) / m)
    }
}

/// What quantization does to one normalized signal value: scale by
/// `QUANT_MAX / SIG_ONE`, rounding toward zero, so that `SIG_ONE` maps to
/// exactly `QUANT_MAX` and `-SIG_ONE` to exactly `-QUANT_MAX`.
pub open spec fn quantized_value(v: int) -> int {
    if v >= 0 {
        (v * (QUANT_MAX as int)) / (SIG_ONE as int)
    } else {
        -(((-v) * (QUANT_MAX as int)) / (SIG_ONE as int))
    }
}

/// An audio clip in the frequency domain: a grid of amplitudes over time
/// (outer axis) and frequency (inner axis, highest frequency first), with
/// the time span and frequency range the grid covers.
pub struct FrequencyDomainAudio {
    /// The amplitude at various frequencies over time. Each inner vector
    /// is one time slice, ordered from the highest frequency bin to the
    /// lowest.
    samples: Vec<Vec<Amplitude>>,
    /// The duration of this audio clip, in Q32.32 seconds. Positive.
    duration: u64,
    /// The lowest mapped frequency, in hertz. Positive.
    low_frequency: u32,
    /// The highest mapped frequency, in hertz. At least `low_frequency`.
    high_frequency: u32,
}

impl FrequencyDomainAudio {
    /// The amplitude grid: one inner sequence of fixed-point amplitude
    /// values per time slice, highest frequency bin first.
    pub closed spec fn grid(&self) -> Seq<Seq<int>> {
        self.samples@.map_values(|column: Vec<Amplitude>| column@.map_values(|a: Amplitude| a@))
    }

    /// The number of frequency bins in each time slice.
    pub open spec fn height(&self) -> int {
        self.grid()[0].len() as int
    }

    /// The duration, in Q32.32 seconds.
    pub closed spec fn duration_q32(&self) -> int {
        self.duration as int
    }

    /// The lowest mapped frequency, in hertz.
    pub closed spec fn low_hz(&self) -> int {
        self.low_frequency as int
    }

    /// The highest mapped frequency, in hertz.
    pub closed spec fn high_hz(&self) -> int {
        self.high_frequency as int
    }

    /// Well-formedness: a rectangular, non-empty grid of clamped
    /// amplitudes, a positive duration, and a positive frequency range.
    pub open spec fn wf(&self) -> bool {
        &&& 1 <= self.grid().len() <= 0xFFFF_FFFF
        &&& 1 <= self.height() <= 0xFFFF_FFFF
        &&& forall|c: int|
            0 <= c < self.grid().len() ==> (#[trigger] self.grid()[c]).len() == self.height()
        &&& forall|c: int, i: int|
            0 <= c < self.grid().len() && 0 <= i < self.height() ==> 0 <= #[trigger] self.grid()[c][i]
                <= AMP_ONE
        &&& self.duration_q32() >= 1
        &&& 1 <= self.low_hz() <= self.high_hz()
    }

    /// The time slice a given Q32.32 time selects: `floor(t / duration * w)`,
    /// clamped to the last slice (which guards `t == duration`).
    pub open spec fn bin_of_time(&self, t: int) -> int {
        let w = self.grid().len() as int;
        let b = (t * w) / self.duration_q32();
        if b >= w {
            w - 1
        } else {
            b
        }
    }

    /// The contribution of frequency bin `i` of time slice `col` at time
    /// `t`: the bin's amplitude times the sine of its frequency at `t`,
    /// rounded toward zero.
    pub open spec fn term_value(&self, col: int, i: int, t: int) -> int {
        let a = self.grid()[col][i];
        let f = bin_frequency(
            self.low_hz() as nat,
            self.high_hz() as nat,
            self.grid()[col].len() as int,
            i,
        );
        let s = sine_wave((f * t) % (FIX_ONE as int));
        if s >= 0 {
            (a * s) / (AMP_ONE as int)
        } else {
            -((a * (-s)) / (AMP_ONE as int))
        }
    }

    /// The sum of the contributions of the first `k` frequency bins of
    /// time slice `col` at time `t`, in bin order.
    pub open spec fn partial_sum(&self, col: int, t: int, k: int) -> int
        decreases k,
    {
        if k <= 0 {
            0
        } else {
            self.partial_sum(col, t, k - 1) + self.term_value(col, k - 1, t)
        }
    }

    /// The signal value synthesis produces at time `t`: the sum over every
    /// frequency bin of the selected time slice.
    pub open spec fn spec_evaluate(&self, t: int) -> int {
        let col = self.bin_of_time(t);
        self.partial_sum(col, t, self.grid()[col].len() as int)
    }

    /// Creates a FrequencyDomainAudio from a decoded image's luminance
    /// grid: one raw fixed-point reading per pixel, one inner vector per
    /// image column (time slice), top of the image (highest frequency)
    /// first. Each reading is clamped into `[0, AMP_ONE]`.
    pub fn from_image(
        grid: &Vec<Vec<i64>>,
        duration: u64,
        low_frequency: u32,
        high_frequency: u32,
    ) -> (audio: FrequencyDomainAudio)
        requires
            1 <= grid@.len() <= 0xFFFF_FFFF,
            1 <= grid@[0]@.len() <= 0xFFFF_FFFF,
            forall|x: int| 0 <= x < grid@.len() ==> (#[trigger] grid@[x])@.len() == grid@[0]@.len(),
            duration >= 1,
            1 <= low_frequency <= high_frequency,
        ensures
            audio.wf(),
            audio.grid().len() == grid@.len(),
            audio.height() == grid@[0]@.len(),
            forall|x: int, y: int|
                0 <= x < grid@.len() && 0 <= y < grid@[0]@.len() ==> #[trigger] audio.grid()[x][y]
                    == amp_clamped(Option::Some(grid@[x]@[y])),
            audio.duration_q32() == duration,
            audio.low_hz() == low_frequency,
            audio.high_hz() == high_frequency,
    {
        let width = grid.len();
        let mut samples: Vec<Vec<Amplitude>> = Vec::with_capacity(width);
        let mut x: usize = 0;
        while x < width
            invariant
                x <= width,
                width == grid@.len(),
                samples@.len() == x,
                forall|c: int| 0 <= c < x ==> (#[trigger] samples@[c])@.len() == grid@[0]@.len(),
                forall|c: int, y: int|
                    0 <= c < x && 0 <= y < grid@[0]@.len() ==> (#[trigger] samples@[c]@[y])@
                        == amp_clamped(Option::Some(grid@[c]@[y])),
                forall|c: int| 0 <= c < grid@.len() ==> (#[trigger] grid@[c])@.len()
                    == grid@[0]@.len(),
            decreases width - x,
        {
            let row = &grid[x];
            let height = row.len();
            let mut column: Vec<Amplitude> = Vec::with_capacity(height);
            let mut y: usize = 0;
            while y < height
                invariant
                    y <= height,
                    height == row@.len(),
                    column@.len() == y,
                    forall|j: int| 0 <= j < y ==> (#[trigger] column@[j])@ == amp_clamped(
                        Option::Some(row@[j]),
                    ),
                decreases height - y,
            {
                column.push(Amplitude::from(Some(row[y])));
                y = y + 1;
            }
            samples.push(column);
            x = x + 1;
        }
        let audio = FrequencyDomainAudio { samples, duration, low_frequency, high_frequency };
        proof {
            assert(audio.grid()[0] == audio.samples@[0]@.map_values(|a: Amplitude| a@));
            assert forall|x0: int, y0: int|
                0 <= x0 < grid@.len() && 0 <= y0 < grid@[0]@.len() implies #[trigger] audio.grid()[x0][y0]
                == amp_clamped(Option::Some(grid@[x0]@[y0])) by {
                assert(audio.grid()[x0] == audio.samples@[x0]@.map_values(|a: Amplitude| a@));
            }
            assert forall|c: int| 0 <= c < audio.grid().len() implies (#[trigger] audio.grid()[c]).len()
                == audio.height() by {
                assert(audio.grid()[c] == audio.samples@[c]@.map_values(|a: Amplitude| a@));
            }
        }
        audio
    }

    /// Evaluates the frequency components of this clip at the given
    /// Q32.32 time, which must be at most the clip's duration: the sum,
    /// over every frequency bin of the time slice the time selects, of
    /// the bin's amplitude times the sine of its frequency at that time.
    ///
    /// The result is a function of the immutable clip and the time alone,
    /// pinned exactly by [`Self::spec_evaluate`]: repeated calls with the
    /// same time return identical values.
    #[verifier::loop_isolation(false)]
    pub fn evaluate(&self, time: u64) -> (result: Value)
        requires
            self.wf(),
            time as int <= self.duration_q32(),
        ensures
            result@ == self.spec_evaluate(time as int),
            vstd::math::abs(result@) <= self.height() * SIG_ONE,
    {
        let width = self.samples.len();
        proof {
            assert(0 <= (time as int) * (width as int) < 0x1_0000_0000_0000_0000_0000_0000)
                by (nonlinear_arith)
                requires
                    0 <= (time as int) < 0x1_0000_0000_0000_0000,
                    0 <= (width as int) <= 0x1_0000_0000,
            ;
            lemma_mul_inequality(time as int, self.duration_q32(), width as int);
            lemma_mul_is_commutative(self.duration_q32(), width as int);
            lemma_div_is_ordered(
                (time as int) * (width as int),
                self.duration_q32() * (width as int),
                self.duration_q32(),
            );
            lemma_div_multiples_vanish(width as int, self.duration_q32());
            lemma_mul_nonnegative(time as int, width as int);
            lemma_div_pos_is_pos((time as int) * (width as int), self.duration_q32());
        }
        let mut bin = (((time as u128) * (width as u128)) / (self.duration as u128)) as usize;
        if bin >= width {
            bin = width - 1;
        }
        assert(bin == self.bin_of_time(time as int));
        let column = &self.samples[bin];
        let ghost col_vals = self.grid()[bin as int];
        proof {
            assert(col_vals == column@.map_values(|a: Amplitude| a@));
        }
        let bins = column.len();
        let mut sum: i64 = 0;
        let mut i: usize = 0;
        while i < bins
            invariant
                i <= bins,
                sum == self.partial_sum(bin as int, time as int, i as int),
                -(i as int) * SIG_ONE <= sum <= (i as int) * SIG_ONE,
            decreases bins - i,
        {
            let amp = column[i].value();
            proof {
                assert(col_vals[i as int] == column@[i as int]@);
                assert(0 <= amp <= AMP_ONE);
            }
            let f = frequency_of_bin(self.low_frequency, self.high_frequency, bins, i);
            proof {
                assert(0 <= (f as int) * (time as int)) by (nonlinear_arith)
                    requires
                        0 <= f as int,
                        0 <= time as int,
                ;
                assert((f as int) * (time as int) < 0x1_0000_0000_0000_0000_0000_0000_0000_0000)
                    by (nonlinear_arith)
                    requires
                        0 <= (f as int) < 0x1_0000_0000_0000_0000,
                        0 <= (time as int) < 0x1_0000_0000_0000_0000,
                ;
            }
            let p = (((f as u128) * (time as u128)) % 0x1_0000_0000u128) as u32;
            let s = sin_turns(p);
            proof {
                lemma_div_multiples_vanish(SIG_ONE as int, AMP_ONE as int);
            }
            let term: i64 = if s >= 0 {
                proof {
                    lemma_mul_upper_bound(amp as int, AMP_ONE as int, s as int, SIG_ONE as int);
                    lemma_mul_nonnegative(amp as int, s as int);
                    lemma_div_is_ordered(
                        (amp as int) * (s as int),
                        (AMP_ONE as int) * (SIG_ONE as int),
                        AMP_ONE as int,
                    );
                }
                (((amp as u64) * (s as u64)) / 65536u64) as i64
            } else {
                proof {
                    lemma_mul_upper_bound(amp as int, AMP_ONE as int, -(s as int), SIG_ONE as int);
                    lemma_mul_nonnegative(amp as int, -(s as int));
                    lemma_div_is_ordered(
                        (amp as int) * (-(s as int)),
                        (AMP_ONE as int) * (SIG_ONE as int),
                        AMP_ONE as int,
                    );
                }
                let mag = (((amp as u64) * ((-s) as u64)) / 65536u64) as i64;
                -mag
            };
            proof {
                assert(term == self.term_value(bin as int, i as int, time as int));
                assert(self.partial_sum(bin as int, time as int, i as int + 1)
                    == self.partial_sum(bin as int, time as int, i as int)
                    + self.term_value(bin as int, i as int, time as int));
            }
            sum = sum + term;
            i = i + 1;
        }
        Value::from(Some(sum))
    }

    /// How many samples synthesis at a given sample rate produces:
    /// `floor(duration * sample_rate)`.
    pub open spec fn spec_sample_count(&self, sample_rate: int) -> int {
        (self.duration_q32() * sample_rate) / (FIX_ONE as int)
    }

    /// The Q32.32 time of output sample `k`: `duration * k / sample_count`,
    /// always at most the duration.
    pub open spec fn sample_time(&self, sample_rate: int, k: int) -> int {
        (self.duration_q32() * k) / self.spec_sample_count(sample_rate)
    }

    /// The raw waveform synthesis produces at a given sample rate, before
    /// normalization and quantization.
    pub open spec fn raw_samples(&self, sample_rate: int) -> Seq<int> {
        Seq::new(
            self.spec_sample_count(sample_rate) as nat,
            |k: int| self.spec_evaluate(self.sample_time(sample_rate, k)),
        )
    }

    /// Converts this frequency-domain clip into exactly
    /// `floor(duration * sample_rate)` time-domain samples: the clip is
    /// evaluated at evenly spaced times, the waveform normalized to peak
    /// magnitude `SIG_ONE`, and each sample quantized to a signed 32-bit
    /// integer, so that every output lies in `[-QUANT_MAX, QUANT_MAX]`.
    #[verifier::loop_isolation(false)]
    pub fn to_time_domain(&self, sample_rate: u32) -> (samples: Vec<i32>)
        requires
            self.wf(),
            sample_rate >= 1,
            self.spec_sample_count(sample_rate as int) <= usize::MAX,
        ensures
            samples@.len() == self.spec_sample_count(sample_rate as int),
            forall|k: int|
                0 <= k < samples@.len() ==> #[trigger] samples@[k] as int == quantized_value(
                    normalized_value(
                        self.raw_samples(sample_rate as int)[k],
                        max_abs(self.raw_samples(sample_rate as int)),
                    ),
                ),
            forall|k: int|
                0 <= k < samples@.len() ==> -QUANT_MAX <= #[trigger] samples@[k] as int
                    <= QUANT_MAX,
            max_abs(self.raw_samples(sample_rate as int)) != 0 ==> exists|k: int|
                0 <= k < samples@.len() && vstd::math::abs(samples@[k] as int) == QUANT_MAX,
    {
        let ghost rate = sample_rate as int;
        proof {
            assert(0 <= self.duration_q32() * rate < 0x1_0000_0000_0000_0000_0000_0000)
                by (nonlinear_arith)
                requires
                    0 <= self.duration_q32() < 0x1_0000_0000_0000_0000,
                    0 <= rate < 0x1_0000_0000,
            ;
        }
        let count = (((self.duration as u128) * (sample_rate as u128)) / (FIX_ONE as u128))
            as usize;
        let ghost raw = self.raw_samples(rate);
        let mut values: Vec<Value> = Vec::with_capacity(count);
        let mut k: usize = 0;
        while k < count
            invariant
                k <= count,
                values@.len() == k,
                forall|j: int| 0 <= j < k ==> (#[trigger] values@[j])@ == raw[j],
                forall|j: int|
                    0 <= j < k ==> vstd::math::abs((#[trigger] values@[j])@) <= self.height()
                        * SIG_ONE,
            decreases count - k,
        {
            proof {
                assert(0 <= self.duration_q32() * (k as int)
                    < 0x1_0000_0000_0000_0000_0000_0000_0000_0000) by (nonlinear_arith)
                    requires
                        0 <= self.duration_q32() < 0x1_0000_0000_0000_0000,
                        0 <= (k as int) < 0x1_0000_0000_0000_0000,
                ;
                lemma_mul_inequality(k as int, count as int, self.duration_q32());
                lemma_mul_is_commutative(k as int, self.duration_q32());
                lemma_mul_is_commutative(count as int, self.duration_q32());
                lemma_div_is_ordered(
                    self.duration_q32() * (k as int),
                    (count as int) * self.duration_q32(),
                    count as int,
                );
                lemma_div_multiples_vanish(self.duration_q32(), count as int);
                lemma_mul_nonnegative(self.duration_q32(), k as int);
                lemma_div_pos_is_pos(self.duration_q32() * (k as int), count as int);
            }
            let time = (((self.duration as u128) * (k as u128)) / (count as u128)) as u64;
            let v = self.evaluate(time);
            values.push(v);
            proof {
                assert(time as int == self.sample_time(rate, k as int));
                assert(raw[k as int] == self.spec_evaluate(time as int));
            }
            k = k + 1;
        }
        proof {
            assert(signal_seq(values@) =~= raw);
            assert forall|j: int| 0 <= j < values@.len() implies (#[trigger] values@[j])@
                > i64::MIN by {
                assert(vstd::math::abs(values@[j]@) <= self.height() * SIG_ONE);
                assert(self.height() * SIG_ONE <= 0xFFFF_FFFF * SIG_ONE) by (nonlinear_arith)
                    requires
                        1 <= self.height() <= 0xFFFF_FFFF,
                ;
            }
        }
        Self::normalize(&mut values);
        let ghost peak = max_abs(raw);
        let mut out: Vec<i32> = Vec::with_capacity(count);
        let mut k: usize = 0;
        while k < count
            invariant
                k <= count,
                out@.len() == k,
                values@.len() == count,
                forall|j: int|
                    0 <= j < count ==> (#[trigger] values@[j])@ == normalized_value(raw[j], peak),
                forall|j: int| 0 <= j < count ==> -SIG_ONE <= (#[trigger] values@[j])@ <= SIG_ONE,
                forall|j: int|
                    0 <= j < k ==> #[trigger] out@[j] as int == quantized_value(
                        normalized_value(raw[j], peak),
                    ),
                forall|j: int| 0 <= j < k ==> -QUANT_MAX <= #[trigger] out@[j] as int <= QUANT_MAX,
            decreases count - k,
        {
            let v = values[k].value();
            proof {
                lemma_div_multiples_vanish(QUANT_MAX as int, SIG_ONE as int);
            }
            let q: i32 = if v >= 0 {
                proof {
                    lemma_div_is_ordered(
                        (v as int) * (QUANT_MAX as int),
                        (SIG_ONE as int) * (QUANT_MAX as int),
                        SIG_ONE as int,
                    );
                }
                (((v as u64) * 0x7fff_ffffu64) / 65536u64) as i32
            } else {
                proof {
                    lemma_div_is_ordered(
                        (-(v as int)) * (QUANT_MAX as int),
                        (SIG_ONE as int) * (QUANT_MAX as int),
                        SIG_ONE as int,
                    );
                }
                let mag = ((((-v) as u64) * 0x7fff_ffffu64) / 65536u64) as i32;
                -mag
            };
            out.push(q);
            k = k + 1;
        }
        proof {
            if peak != 0 {
                let j0 = choose|j: int|
                    0 <= j < values@.len() && vstd::math::abs(values@[j]@) == SIG_ONE;
                assert(vstd::math::abs(out@[j0] as int) == QUANT_MAX);
            }
        }
        out
    }

    /// Normalizes a waveform so that the sample with the largest absolute
    /// value reaches exactly `SIG_ONE` (the fixed-point 1.0): every sample
    /// is scaled by `SIG_ONE / m` where `m` is the peak absolute value,
    /// rounding toward zero. A silent waveform (`m == 0`) is left exactly
    /// as it is, guarding the division.
    #[verifier::loop_isolation(false)]
    pub fn normalize(samples: &mut Vec<Value>)
        requires
            forall|j: int|
                0 <= j < old(samples)@.len() ==> (#[trigger] old(samples)@[j])@ > i64::MIN,
        ensures
            final(samples)@.len() == old(samples)@.len(),
            forall|j: int|
                0 <= j < old(samples)@.len() ==> (#[trigger] final(samples)@[j])@
                    == normalized_value(
                    old(samples)@[j]@,
                    max_abs(signal_seq(old(samples)@)),
                ),
            forall|j: int|
                0 <= j < final(samples)@.len() ==> -SIG_ONE <= (#[trigger] final(samples)@[j])@
                    <= SIG_ONE,
            max_abs(signal_seq(old(samples)@)) != 0 ==> exists|j: int|
                0 <= j < final(samples)@.len() && vstd::math::abs(final(samples)@[j]@)
                    == SIG_ONE,
    {
        let ghost s = signal_seq(old(samples)@);
        let n = samples.len();
        let mut m: u64 = 0;
        let mut i: usize = 0;
        while i < n
            invariant
                i <= n,
                samples@ == old(samples)@,
                m as int == max_abs(s.take(i as int)),
                m > 0 ==> exists|j: int| 0 <= j < i && vstd::math::abs(s[j]) == m as int,
                forall|j: int| 0 <= j < i ==> vstd::math::abs(#[trigger] s[j]) <= m as int,
            decreases n - i,
        {
            let v = samples[i].value();
            let a: u64 = if v >= 0 {
                v as u64
            } else {
                (-v) as u64
            };
            proof {
                assert(s.take(i as int + 1).drop_last() =~= s.take(i as int));
                assert(s.take(i as int + 1).last() == s[i as int]);
                assert(a as int == vstd::math::abs(s[i as int]));
            }
            if a > m {
                m = a;
            }
            i = i + 1;
        }
        proof {
            assert(s.take(n as int) =~= s);
        }
        if m == 0 {
            proof {
                assert forall|j: int| 0 <= j < samples@.len() implies -SIG_ONE <= (
                #[trigger] samples@[j])@ <= SIG_ONE by {
                    assert(vstd::math::abs(s[j]) <= 0);
                    assert(samples@[j]@ == s[j]);
                }
            }
            return ;
        }
        let mut i: usize = 0;
        while i < n
            invariant
                i <= n,
                m as int == max_abs(s),
                m > 0,
                samples@.len() == n,
                forall|j: int| i <= j < n ==> #[trigger] samples@[j] == old(samples)@[j],
                forall|j: int|
                    0 <= j < i ==> (#[trigger] samples@[j])@ == normalized_value(s[j], m as int),
                forall|j: int|
                    0 <= j < i ==> -SIG_ONE <= (#[trigger] samples@[j])@ <= SIG_ONE,
            decreases n - i,
        {
            let v = samples[i].value();
            proof {
                assert(v as int == s[i as int]);
                lemma_div_multiples_vanish(SIG_ONE as int, m as int);
            }
            let scaled: i64 = if v >= 0 {
                proof {
                    lemma_div_is_ordered(
                        (v as int) * (SIG_ONE as int),
                        (m as int) * (SIG_ONE as int),
                        m as int,
                    );
                    lemma_mul_is_commutative(m as int, SIG_ONE as int);
                }
                (((v as u128) * 65536u128) / (m as u128)) as i64
            } else {
                proof {
                    lemma_div_is_ordered(
                        (-(v as int)) * (SIG_ONE as int),
                        (m as int) * (SIG_ONE as int),
                        m as int,
                    );
                    lemma_mul_is_commutative(m as int, SIG_ONE as int);
                }
                let mag = ((((-v) as u128) * 65536u128) / (m as u128)) as i64;
                -mag
            };
            samples.set(i, Value::from(Some(scaled)));
            i = i + 1;
        }
        proof {
            let j0 = choose|j: int| 0 <= j < n && vstd::math::abs(s[j]) == m as int;
            lemma_div_multiples_vanish(SIG_ONE as int, m as int);
            lemma_mul_is_commutative(m as int, SIG_ONE as int);
            assert(vstd::math::abs(samples@[j0]@) == SIG_ONE);
        }
    }

    proof fn lemma_silent_partial_sum(&self, col: int, t: int, k: int)
        requires
            self.wf(),
            0 <= col < self.grid().len(),
            0 <= k <= self.height(),
            forall|c: int, i: int|
                0 <= c < self.grid().len() && 0 <= i < self.height() ==> #[trigger] self.grid()[c][i]
                    == 0,
        ensures
            self.partial_sum(col, t, k) == 0,
        decreases k,
    {
        if k > 0 {
            self.lemma_silent_partial_sum(col, t, k - 1);
            let f = bin_frequency(
                self.low_hz() as nat,
                self.high_hz() as nat,
                self.grid()[col].len() as int,
                k - 1,
            );
            let s = sine_wave((f * t) % (FIX_ONE as int));
            lemma_mul_by_zero_is_zero(s);
            lemma_mul_by_zero_is_zero(-s);
            assert(self.term_value(col, k - 1, t) == 0);
        }
    }

    /// Synthesis is continuous in the source data at zero: a clip whose
    /// amplitude grid is all zero evaluates to the signal value 0 at every
    /// time within its duration.
    pub proof fn lemma_silent_grid_evaluates_to_zero(&self, t: int)
        requires
            self.wf(),
            0 <= t <= self.duration_q32(),
            forall|c: int, i: int|
                0 <= c < self.grid().len() && 0 <= i < self.height() ==> #[trigger] self.grid()[c][i]
                    == 0,
        ensures
            self.spec_evaluate(t) == 0,
    {
        let w = self.grid().len() as int;
        lemma_mul_nonnegative(t, w);
        lemma_div_pos_is_pos(t * w, self.duration_q32());
        let col = self.bin_of_time(t);
        assert(0 <= col < w);
        self.lemma_silent_partial_sum(col, t, self.grid()[col].len() as int);
    }

    /// Requesting the time exactly at the clip's duration selects the last
    /// time slice: the clamp in [`Self::bin_of_time`] guards the boundary.
    pub proof fn lemma_duration_selects_last_column(&self)
        requires
            self.wf(),
        ensures
            self.bin_of_time(self.duration_q32()) == self.grid().len() - 1,
    {
        let w = self.grid().len() as int;
        let d = self.duration_q32();
        lemma_mul_is_commutative(d, w);
        lemma_div_multiples_vanish(w, d);
    }
}

} // verus!
