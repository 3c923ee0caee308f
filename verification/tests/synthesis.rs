use audiopaint::audio_types::Value;
use audiopaint::frequency::FrequencyDomainAudio;
use audiopaint::logscale::frequency_of_bin;
use audiopaint::sine::sin_turns;
use audiopaint::{AMP_ONE, FIX_ONE, SIG_ONE};

const ONE: i64 = AMP_ONE as i64;

fn model(grid: Vec<Vec<i64>>, duration: u64, low: u32, high: u32) -> FrequencyDomainAudio {
    FrequencyDomainAudio::from_image(&grid, duration, low, high)
}

#[test]
fn sine_is_exact_at_quarter_turns() {
    assert_eq!(sin_turns(0), 0);
    assert_eq!(sin_turns(1 << 30), SIG_ONE);
    assert_eq!(sin_turns(1 << 31), 0);
    assert_eq!(sin_turns(3 << 30), -SIG_ONE);
}

#[test]
fn sine_stays_within_unit_range_and_mirrors() {
    let probes: [u32; 7] = [1, 12345, 1 << 20, 0x3fff_ffff, 0x7fff_ffff, 0x8000_0001, u32::MAX];
    for p in probes {
        let s: i64 = sin_turns(p);
        assert!(-SIG_ONE <= s && s <= SIG_ONE);
        let mirrored: i64 = sin_turns(p.wrapping_add(1 << 31));
        assert_eq!(s, -mirrored);
    }
}

#[test]
fn frequency_mapping_is_exact_on_octaves() {
    // 64 Hz to 4096 Hz across three bins: exactly two octaves per step,
    // highest frequency at bin 0.
    assert_eq!(frequency_of_bin(64, 4096, 3, 0), 4096);
    assert_eq!(frequency_of_bin(64, 4096, 3, 1), 1024);
    assert_eq!(frequency_of_bin(64, 4096, 3, 2), 256);
}

#[test]
fn frequency_mapping_bin_zero_is_the_high_end() {
    assert_eq!(frequency_of_bin(100, 200, 1, 0), 200);
    assert_eq!(frequency_of_bin(100, 24000, 5, 0), 24000);
}

#[test]
fn frequency_mapping_is_antitone_and_in_range() {
    let lo: u32 = 100;
    let hi: u32 = 24000;
    let n: usize = 16;
    let mut prev: u64 = u64::MAX;
    for i in 0..n {
        let f: u64 = frequency_of_bin(lo, hi, n, i);
        assert!(lo as u64 <= f && f <= hi as u64);
        assert!(f <= prev);
        prev = f;
    }
}

#[test]
fn frequency_mapping_degenerate_range_is_constant() {
    for i in 0..4usize {
        assert_eq!(frequency_of_bin(100, 100, 4, i), 100);
    }
}

#[test]
fn evaluate_is_deterministic() {
    let m = model(
        vec![vec![ONE / 2, ONE / 4], vec![ONE / 3, ONE / 5]],
        3 * FIX_ONE,
        55,
        7000,
    );
    let t: u64 = 123456789;
    let first = m.evaluate(t);
    let second = m.evaluate(t);
    assert_eq!(first.value(), second.value());
    assert_eq!(first.value(), 18598);
}

#[test]
fn evaluate_silent_grid_is_zero_everywhere() {
    let m = model(vec![vec![0, 0], vec![0, 0], vec![0, 0]], FIX_ONE, 100, 8000);
    let probes: [u64; 5] = [0, 1, FIX_ONE / 3, FIX_ONE - 1, FIX_ONE];
    for t in probes {
        assert_eq!(m.evaluate(t).value(), 0);
    }
}

#[test]
fn evaluate_at_duration_selects_last_column() {
    // The same duration, range and bin count, but one model keeps only the
    // last time slice: evaluating at the full duration must agree.
    let duration: u64 = 5 * (1 << 30);
    let two = model(vec![vec![0], vec![ONE]], duration, 101, 101);
    let one = model(vec![vec![ONE]], duration, 101, 101);
    assert_eq!(two.evaluate(duration).value(), one.evaluate(duration).value());
    assert_eq!(two.evaluate(duration).value(), SIG_ONE);
}

#[test]
fn sample_count_is_floor_of_duration_times_rate() {
    // 2.5 seconds at 441 Hz: floor(1102.5) samples.
    let m = model(vec![vec![0]], 5 * FIX_ONE / 2, 100, 200);
    assert_eq!(m.to_time_domain(441).len(), 1102);
    // 1 second at 8 Hz: exactly 8 samples.
    let m2 = model(vec![vec![ONE]], FIX_ONE, 100, 100);
    assert_eq!(m2.to_time_domain(8).len(), 8);
}

#[test]
fn silent_grid_synthesizes_all_zeros_without_panicking() {
    let m = model(vec![vec![0, 0, 0], vec![0, 0, 0]], 2 * FIX_ONE, 100, 4000);
    let out = m.to_time_domain(25);
    assert_eq!(out.len(), 50);
    assert!(out.iter().all(|&q| q == 0));
}

#[test]
fn quantized_output_stays_within_the_signed_range() {
    let m = model(
        vec![vec![ONE, ONE / 2], vec![ONE / 8, ONE / 7], vec![0, ONE]],
        3 * FIX_ONE / 2,
        90,
        9000,
    );
    let out = m.to_time_domain(100);
    assert_eq!(out.len(), 150);
    for q in out {
        assert!(-i32::MAX <= q && q <= i32::MAX);
    }
}

#[test]
fn single_tone_scenario() {
    // A 1-by-1 grid at full amplitude, one second, the degenerate range
    // 100 Hz to 100 Hz, sampled at 8 Hz: every sample time lands where the
    // 100 Hz sine is exactly zero (100 / 8 leaves a half-cycle phase), so
    // the synthesized pattern is the zero pattern.
    let m = model(vec![vec![ONE]], FIX_ONE, 100, 100);
    let out = m.to_time_domain(8);
    assert_eq!(out, vec![0, 0, 0, 0, 0, 0, 0, 0]);
}

#[test]
fn two_column_scenario_second_half_is_silent() {
    // Two time slices, one frequency bin: full amplitude then zero, over
    // two seconds. Every sample from the second half (time at or past half
    // the duration) is silent; the first half carries the tone and reaches
    // the full quantized range after normalization.
    let m = model(vec![vec![ONE], vec![0]], 2 * FIX_ONE, 100, 200);
    let out = m.to_time_domain(3);
    assert_eq!(out, vec![0, -2147483647, 2147483647, 0, 0, 0]);
    assert!(out[3..].iter().all(|&q| q == 0));
    assert_eq!(out.iter().map(|&q| q.unsigned_abs()).max(), Some(i32::MAX as u32));
}

#[test]
fn normalize_scales_peak_to_exactly_one() {
    let mut values: Vec<Value> = vec![
        Value::from(Some(100)),
        Value::from(Some(-400)),
        Value::from(Some(200)),
    ];
    FrequencyDomainAudio::normalize(&mut values);
    assert_eq!(values[0].value(), 16384);
    assert_eq!(values[1].value(), -SIG_ONE);
    assert_eq!(values[2].value(), 32768);
    let peak: i64 = values.iter().map(|v| v.abs().value()).max().unwrap();
    assert_eq!(peak, SIG_ONE);
}

#[test]
fn normalize_leaves_silence_untouched() {
    let mut values: Vec<Value> = vec![Value::from(Some(0)), Value::from(Some(0))];
    FrequencyDomainAudio::normalize(&mut values);
    assert_eq!(values[0].value(), 0);
    assert_eq!(values[1].value(), 0);
    let mut empty: Vec<Value> = Vec::new();
    FrequencyDomainAudio::normalize(&mut empty);
    assert!(empty.is_empty());
}
