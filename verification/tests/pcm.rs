//! Samples and what a wire format keeps of them.
use rustcast::wire::WireFormat;

fn bits(samples: &[f32]) -> Vec<u32> {
    samples.iter().map(|s| s.to_bits()).collect()
}

fn over_the_wire(format: WireFormat, samples: &[f32]) -> Vec<f32> {
    let data = format.encode(&format.words(&bits(samples)));
    format.samples(&format.decode(&data)).into_iter().map(f32::from_bits).collect()
}

/// Some samples of every size: a fixed walk through the patterns.
fn walk(n: usize) -> Vec<f32> {
    let mut x: u32 = 0x1234_5678;
    let mut out = Vec::new();
    for _ in 0..n {
        x = x.wrapping_mul(1_664_525).wrapping_add(1_013_904_223);
        out.push(f32::from_bits(x));
        out.push((x >> 8) as f32 / 8_388_608.0 - 1.0);
    }
    out
}

#[test]
fn samples_are_quantized() {
    let samples = [0.0f32, -0.0, 1.0, -1.0, 0.5, -0.5, 2.0, -7.5, 1.0e-20, 1.0 / 32767.0];
    let numbers: Vec<i16> = WireFormat::S16Le
        .words(&bits(&samples))
        .into_iter()
        .map(|w| w as u16 as i16)
        .collect();
    assert_eq!(numbers, vec![0, 0, 32767, -32767, 16383, -16383, 32767, -32767, 0, 1]);
    let odd = [f32::NAN, -f32::NAN, f32::INFINITY, f32::NEG_INFINITY];
    assert_eq!(WireFormat::S16Le.words(&bits(&odd)), vec![0, 0, 0x7fff, 0x8001]);
}

#[test]
fn quantizing_goes_as_singles_multiply() {
    let mut samples = walk(200_000);
    for k in 0..2000u32 {
        samples.push(f32::from_bits(0x3f80_0000 - k));
        samples.push(k as f32 / 32767.0);
        samples.push(-(k as f32) / 32768.0);
    }
    let words = WireFormat::S16Le.words(&bits(&samples));
    for (s, w) in samples.iter().zip(&words) {
        assert_eq!(*w, (s.clamp(-1.0, 1.0) * 32767.0) as i16 as u16 as u32, "{s:e}");
    }
}

#[test]
fn every_16_bit_word_is_read_exactly() {
    let words: Vec<u32> = (0..0x1_0000).collect();
    let samples = WireFormat::S16Le.samples(&words);
    for (w, b) in words.iter().zip(&samples) {
        assert_eq!(*b, (*w as u16 as i16 as f32 / 32768.0).to_bits());
    }
}

#[test]
fn singles_survive_bit_for_bit() {
    let samples = walk(1000);
    assert_eq!(bits(&over_the_wire(WireFormat::F32Le, &samples)), bits(&samples));
}

#[test]
fn sixteen_bits_stay_within_two_steps() {
    let mut samples: Vec<f32> = walk(50_000).into_iter().filter(|s| s.abs() <= 1.0).collect();
    samples.extend([1.0, -1.0, 0.0, f32::from_bits(0x3f7f_ffff)]);
    let heard = over_the_wire(WireFormat::S16Le, &samples);
    assert_eq!(heard.len(), samples.len());
    for (a, b) in samples.iter().zip(&heard) {
        assert!((*a as f64 - *b as f64).abs() < 2.0 / 32768.0, "{a:e} {b:e}");
    }
}
