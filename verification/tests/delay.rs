//! Measuring when each speaker was heard.
use rustcast::delaytest::{
    analyze, Assignment, Energies, Recording, SpeakerResult, TestPlan, CONFIDENCE_FULL,
};
use rustcast::units::{Millis, FLICKS_PER_MS};
use std::f64::consts::PI;

/// A Hann-windowed sine burst.
fn tone_burst(freq_hz: f64, sample_rate: u32, dur_ms: u64) -> Vec<f32> {
    let n = (sample_rate as f64 * dur_ms as f64 / 1000.0).round() as usize;
    if n < 2 {
        return Vec::new();
    }
    let mut out = Vec::with_capacity(n);
    for i in 0..n {
        let w = 0.5 - 0.5 * (2.0 * PI * i as f64 / (n as f64 - 1.0)).cos();
        let s = (2.0 * PI * freq_hz * i as f64 / sample_rate as f64).sin();
        out.push((w * s) as f32);
    }
    out
}

/// The energy of a block at a frequency, in the library's units.
fn energy(block: &[f32], freq_hz: f64, sample_rate: u32) -> u64 {
    let n = block.len();
    if n < 2 {
        return 0;
    }
    let w = 2.0 * PI * freq_hz / sample_rate as f64;
    let coeff = 2.0 * w.cos();
    let denom = (n - 1) as f64;
    let mut s_prev = 0.0f64;
    let mut s_prev2 = 0.0f64;
    for (i, &x) in block.iter().enumerate() {
        let win = 0.5 - 0.5 * (2.0 * PI * i as f64 / denom).cos();
        let s = x as f64 * win + coeff * s_prev - s_prev2;
        s_prev2 = s_prev;
        s_prev = s;
    }
    let power = s_prev2 * s_prev2 + s_prev * s_prev - coeff * s_prev * s_prev2;
    let mag = power.max(0.0).sqrt() / n as f64;
    (mag * (1u64 << 50) as f64) as u64
}

fn run(pcm: &[f32], sr: u32, plan: &TestPlan, capture_start_ms: f64) -> Vec<SpeakerResult> {
    let rec = Recording {
        sample_rate: sr,
        len: pcm.len(),
        capture_start: Millis { flicks: (capture_start_ms * FLICKS_PER_MS as f64) as i128 },
    };
    let win = rec.window();
    let mut measured: Vec<Energies> = Vec::new();
    for a in &plan.assignments {
        let freq = f64::from_bits(a.freq_bits);
        let at = |s: &usize| energy(&pcm[*s..*s + win], freq, sr);
        measured.push(Energies {
            floor: rec.floor_starts().iter().map(at).collect(),
            bursts: (0..plan.burst_count)
                .map(|k| rec.burst_starts(plan, k).iter().map(at).collect())
                .collect(),
        });
    }
    analyze(plan, &rec, &measured)
}

fn ms(m: Option<Millis>) -> f64 {
    match m {
        Some(m) => m.flicks as f64 / FLICKS_PER_MS as f64,
        None => f64::NAN,
    }
}

fn confidence(r: &SpeakerResult) -> f64 {
    r.confidence as f64 / CONFIDENCE_FULL as f64
}

/// Synthesize a recording of two speakers at distinct frequencies with known
/// delays and assert the analyzer recovers them.
#[test]
fn analyze_recovers_known_delays() {
    let sr = 48_000u32;
    let plan = TestPlan {
        play_at_ms: 1_000,
        burst_spacing_ms: 700,
        burst_count: 5,
        burst_ms: 40,
        assignments: vec![
            Assignment { client_id: "fast".into(), freq_bits: f64::to_bits(2000.0) },
            Assignment { client_id: "slow".into(), freq_bits: f64::to_bits(3000.0) },
        ],
    };
    // Recording starts at server time 0; runs long enough to cover all bursts.
    let capture_start_ms = 0.0;
    let total_ms = plan.play_at_ms + plan.burst_count as u64 * plan.burst_spacing_ms + 500;
    let mut pcm = vec![0.0f32; (sr as u64 * total_ms / 1000) as usize];

    let place = |pcm: &mut [f32], freq: f64, delay_ms: f64| {
        let burst = tone_burst(freq, sr, plan.burst_ms);
        for k in 0..plan.burst_count {
            let play_at = plan.play_at_ms as f64 + k as f64 * plan.burst_spacing_ms as f64;
            let start =
                ((play_at + delay_ms - capture_start_ms) * sr as f64 / 1000.0).round() as usize;
            for (i, &s) in burst.iter().enumerate() {
                if let Some(slot) = pcm.get_mut(start + i) {
                    *slot += s;
                }
            }
        }
    };
    place(&mut pcm, 2000.0, 0.0);
    place(&mut pcm, 3000.0, 15.0);

    let results = run(&pcm, sr, &plan, capture_start_ms);
    let fast = &results[0];
    let slow = &results[1];
    assert!(confidence(fast) > 0.5 && confidence(slow) > 0.5);
    // Absolute delays land near the injected values (within 2 ms).
    assert!(ms(fast.absolute_delay_ms).abs() < 2.0, "fast abs {}", ms(fast.absolute_delay_ms));
    assert!(
        (ms(slow.absolute_delay_ms) - 15.0).abs() < 2.0,
        "slow abs {}",
        ms(slow.absolute_delay_ms)
    );
    // Relative: fastest reads ~0, the other ~15 ms behind.
    assert!(ms(fast.relative_delay_ms).abs() < 2.0);
    assert!((ms(slow.relative_delay_ms) - 15.0).abs() < 2.0);
    assert_eq!(fast.client_id, "fast");
    assert!((ms(slow.onset_ms) - 1015.0).abs() < 2.0);
}

/// Deterministic low-amplitude noise, so the noise floor is realistic rather
/// than digital silence.
fn add_noise(pcm: &mut [f32], amp: f32) {
    let mut state: u32 = 0x1234_5678;
    for s in pcm.iter_mut() {
        state = state.wrapping_mul(1_664_525).wrapping_add(1_013_904_223);
        let u = (state >> 8) as f32 / (1u32 << 24) as f32; // [0, 1)
        *s += (u - 0.5) * 2.0 * amp;
    }
}

fn base_plan() -> TestPlan {
    TestPlan {
        play_at_ms: 1_000,
        burst_spacing_ms: 700,
        burst_count: 5,
        burst_ms: 40,
        assignments: vec![
            Assignment { client_id: "on".into(), freq_bits: f64::to_bits(2000.0) },
            Assignment { client_id: "off".into(), freq_bits: f64::to_bits(2700.0) },
        ],
    }
}

fn empty_recording(plan: &TestPlan, sr: u32) -> Vec<f32> {
    let total_ms = plan.play_at_ms + plan.burst_count as u64 * plan.burst_spacing_ms + 500;
    vec![0.0f32; (sr as u64 * total_ms / 1000) as usize]
}

fn place_tone(pcm: &mut [f32], plan: &TestPlan, sr: u32, freq: f64, delay_ms: f64) {
    let burst = tone_burst(freq, sr, plan.burst_ms);
    for k in 0..plan.burst_count {
        let play_at = plan.play_at_ms as f64 + k as f64 * plan.burst_spacing_ms as f64;
        let start = ((play_at + delay_ms) * sr as f64 / 1000.0).round() as usize;
        for (i, &s) in burst.iter().enumerate() {
            if let Some(slot) = pcm.get_mut(start + i) {
                *slot += s;
            }
        }
    }
}

/// A speaker that produced no sound (physically off) must NOT get a spurious
/// result while a real speaker is playing.
#[test]
fn silent_speaker_not_detected() {
    let sr = 48_000u32;
    let plan = base_plan();
    let mut pcm = empty_recording(&plan, sr);
    add_noise(&mut pcm, 0.01);
    place_tone(&mut pcm, &plan, sr, 2000.0, 0.0); // only the "on" speaker emits

    let r = run(&pcm, sr, &plan, 0.0);
    assert!(ms(r[0].absolute_delay_ms).is_finite(), "playing speaker should be detected");
    assert!(confidence(&r[0]) > 0.5);
    assert!(
        !ms(r[1].absolute_delay_ms).is_finite(),
        "off speaker must be undetected, got {} ms (conf {})",
        ms(r[1].absolute_delay_ms),
        confidence(&r[1]),
    );
    assert_eq!(confidence(&r[1]), 0.0);
}

/// No tones at all (the mic picked up nothing): every speaker is undetected,
/// never a fabricated delay.
#[test]
fn pure_noise_not_detected() {
    let sr = 48_000u32;
    let plan = base_plan();
    let mut pcm = empty_recording(&plan, sr);
    add_noise(&mut pcm, 0.02);

    for r in run(&pcm, sr, &plan, 0.0) {
        assert!(
            !ms(r.absolute_delay_ms).is_finite(),
            "{} should be undetected in pure noise, got {} ms",
            r.client_id,
            ms(r.absolute_delay_ms),
        );
        assert_eq!(confidence(&r), 0.0);
    }
}

fn small_plan() -> TestPlan {
    TestPlan {
        play_at_ms: 1000,
        burst_spacing_ms: 700,
        burst_count: 3,
        burst_ms: 40,
        assignments: vec![
            Assignment { client_id: "a".into(), freq_bits: f64::to_bits(1000.0) },
            Assignment { client_id: "b".into(), freq_bits: f64::to_bits(2000.0) },
        ],
    }
}

const LOUD: u64 = 1 << 40;

/// Energies of one speaker: silent but for one loud window `late` hops after
/// each burst's expected centre.
fn heard(rec: &Recording, plan: &TestPlan, late: &[i64], peak: u64) -> Energies {
    let mut bursts = Vec::new();
    for k in 0..plan.burst_count {
        let n = rec.burst_starts(plan, k).len();
        let mut e = vec![0u64; n];
        e[(250 + late[k as usize]) as usize] = peak;
        bursts.push(e);
    }
    Energies { floor: vec![0; rec.floor_starts().len()], bursts }
}

fn small_recording() -> Recording {
    Recording { sample_rate: 1000, len: 4000, capture_start: Millis { flicks: 0 } }
}

#[test]
fn windows_cover_the_recording() {
    let rec = small_recording();
    assert_eq!(rec.window(), 8);
    let f = rec.floor_starts();
    assert_eq!(f[0], 0);
    assert_eq!(f[1], 13);
    assert_eq!(f.len(), (4000 - 8) / 13 + 1);
    // The first burst's centre is expected at 1020; windows reach 250 ms either
    // side of it.
    let s = rec.burst_starts(&small_plan(), 0);
    assert_eq!(s.len(), 501);
    assert_eq!(s[0], 1020 - 250 - 4);
    assert_eq!(s[500], 1020 + 250 - 4);
    // Nothing of a burst that lies beyond the recording is looked at.
    let short = Recording { sample_rate: 1000, len: 1030, capture_start: Millis { flicks: 0 } };
    assert!(short.burst_starts(&small_plan(), 1).is_empty());
}

#[test]
fn delays_are_medians_and_relative_to_the_fastest() {
    let rec = small_recording();
    let plan = small_plan();
    let m = vec![
        heard(&rec, &plan, &[10, 12, 11], LOUD),
        heard(&rec, &plan, &[30, 30, 31], LOUD),
    ];
    let r = analyze(&plan, &rec, &m);
    assert_eq!(ms(r[0].absolute_delay_ms), 11.0);
    assert_eq!(ms(r[0].relative_delay_ms), 0.0);
    assert_eq!(ms(r[0].onset_ms), 1011.0);
    assert_eq!(ms(r[1].absolute_delay_ms), 30.0);
    assert_eq!(ms(r[1].relative_delay_ms), 19.0);
}

#[test]
fn clock_error_leaves_relative_delays() {
    let plan = small_plan();
    let rec = small_recording();
    let late = Recording {
        sample_rate: 1000,
        len: 4000,
        capture_start: Millis { flicks: 100 * FLICKS_PER_MS },
    };
    let m = vec![
        heard(&rec, &plan, &[10, 10, 10], LOUD),
        heard(&rec, &plan, &[30, 30, 30], LOUD),
    ];
    let r = analyze(&plan, &rec, &m);
    // The same windows, on a clock that runs 100 ms off: found 100 hops later.
    let n = vec![
        heard(&late, &plan, &[110, 110, 110], LOUD),
        heard(&late, &plan, &[130, 130, 130], LOUD),
    ];
    let s = analyze(&plan, &late, &n);
    assert_eq!(ms(s[0].absolute_delay_ms), ms(r[0].absolute_delay_ms) + 100.0);
    assert_eq!(s[0].relative_delay_ms, r[0].relative_delay_ms);
    assert_eq!(s[1].relative_delay_ms, r[1].relative_delay_ms);
}

#[test]
fn scattered_delays_are_noise() {
    let rec = small_recording();
    let plan = small_plan();
    let m = vec![
        heard(&rec, &plan, &[-100, 0, 100], LOUD),
        heard(&rec, &plan, &[0, 15, 30], LOUD),
    ];
    let r = analyze(&plan, &rec, &m);
    assert_eq!(r[0].absolute_delay_ms, None);
    assert_eq!(ms(r[1].absolute_delay_ms), 15.0);
}

#[test]
fn leakage_of_a_louder_neighbour_is_rejected() {
    let rec = small_recording();
    let plan = small_plan();
    let m = vec![
        heard(&rec, &plan, &[0, 0, 0], LOUD),
        heard(&rec, &plan, &[5, 5, 5], LOUD / 20),
    ];
    let r = analyze(&plan, &rec, &m);
    assert_eq!(ms(r[0].absolute_delay_ms), 0.0);
    assert_eq!(r[1].absolute_delay_ms, None);
    assert_eq!(r[1].confidence, 0);
    let n = vec![
        heard(&rec, &plan, &[0, 0, 0], LOUD),
        heard(&rec, &plan, &[5, 5, 5], LOUD / 10),
    ];
    assert_eq!(ms(analyze(&plan, &rec, &n)[1].absolute_delay_ms), 5.0);
}

#[test]
fn a_minority_of_bursts_is_not_enough() {
    let rec = small_recording();
    let plan = small_plan();
    let mut one = heard(&rec, &plan, &[0, 0, 0], LOUD);
    for e in one.bursts[1].iter_mut() {
        *e = 0;
    }
    let mut none = heard(&rec, &plan, &[0, 0, 0], LOUD);
    for k in 1..3 {
        for e in none.bursts[k].iter_mut() {
            *e = 0;
        }
    }
    let r = analyze(&plan, &rec, &vec![one, none]);
    assert_eq!(ms(r[0].absolute_delay_ms), 0.0);
    assert_eq!(r[1].absolute_delay_ms, None);
}

#[test]
fn confidence_grows_with_energy_over_the_floor() {
    let rec = small_recording();
    let plan = small_plan();
    let mut e = heard(&rec, &plan, &[0, 0, 0], 40_000_000);
    for f in e.floor.iter_mut() {
        *f = 4_000_000;
    }
    let mut g = heard(&rec, &plan, &[0, 0, 0], 40_000_000);
    for f in g.floor.iter_mut() {
        *f = 10_000_000;
    }
    let r = analyze(&plan, &rec, &vec![e, g]);
    // Ten times the floor: one minus five tenths.
    assert_eq!(r[0].confidence as i128, CONFIDENCE_FULL / 2);
    // Four times the floor: not detected.
    assert_eq!(r[1].confidence, 0);
}
