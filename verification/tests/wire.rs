//! Addresses, sample formats and text.
use rustcast::text::{
    blank, chars_of, copy_opt, filled, holds_text, parse_bounded, parse_u64, push_hex_byte,
    same_opt, same_text, split_chars, text_of, to_lower_ascii, trim_chars, u64_text,
};
use rustcast::units::{Millis, Volume, FLICKS_PER_MS, FULL_VOLUME, MAX_FLICKS, VOLUME_EPSILON};
use rustcast::wire::{
    ip_from, ip_text, now_epoch_ms, octets, WireFormat, ANNOUNCE_GROUP, CONTROL_GROUP,
    STATS_GROUP, TELEMETRY_REQ_GROUP,
};

#[test]
fn addresses_print_as_dotted_quads() {
    assert_eq!(ip_text(0xc0a8_0001), "192.168.0.1");
    assert_eq!(ip_text(0), "0.0.0.0");
    assert_eq!(ip_text(u32::MAX), "255.255.255.255");
    assert_eq!(octets(0x0102_0304), [1, 2, 3, 4]);
    assert_eq!(ip_from(&[1, 2, 3, 4]), 0x0102_0304);
}

#[test]
fn groups_are_those_of_the_protocol() {
    assert_eq!(ip_text(ANNOUNCE_GROUP), "239.255.42.100");
    assert_eq!(ip_text(CONTROL_GROUP), "239.255.42.101");
    assert_eq!(ip_text(STATS_GROUP), "239.255.42.103");
    assert_eq!(ip_text(TELEMETRY_REQ_GROUP), "239.255.42.104");
}

#[test]
fn formats_are_known_by_name() {
    assert_eq!(WireFormat::parse("s16"), Some(WireFormat::S16Le));
    assert_eq!(WireFormat::parse("s16le"), Some(WireFormat::S16Le));
    assert_eq!(WireFormat::parse("f32"), Some(WireFormat::F32Le));
    assert_eq!(WireFormat::parse("f32le"), Some(WireFormat::F32Le));
    assert_eq!(WireFormat::parse("mp3"), None);
    assert_eq!(WireFormat::S16Le.bytes_per_sample(), 2);
    assert_eq!(WireFormat::F32Le.bytes_per_sample(), 4);
}

#[test]
fn samples_round_trip() {
    let words = vec![0x0102u32, 0xffff, 0];
    let b = WireFormat::S16Le.encode(&words);
    assert_eq!(b, vec![0x02, 0x01, 0xff, 0xff, 0, 0]);
    assert_eq!(WireFormat::S16Le.decode(&b), words);
    let bits = vec![1.5f32.to_bits(), (-0.25f32).to_bits()];
    let f = WireFormat::F32Le.encode(&bits);
    assert_eq!(f[0..4], 1.5f32.to_le_bytes());
    assert_eq!(WireFormat::F32Le.decode(&f), bits);
    // And back again; a cut-off sample at the end is left out.
    assert_eq!(WireFormat::F32Le.encode(&WireFormat::F32Le.decode(&f)), f);
    assert_eq!(WireFormat::S16Le.decode(&vec![1, 0, 9]), vec![1]);
}

#[test]
fn the_clock_is_after_the_epoch() {
    // Some time in 2020, in milliseconds.
    assert!(now_epoch_ms() > 1_580_000_000_000);
}

#[test]
fn numbers_print_and_parse() {
    assert_eq!(u64_text(0), "0");
    assert_eq!(u64_text(u64::MAX), "18446744073709551615");
    assert_eq!(parse_u64("18446744073709551615"), Some(u64::MAX));
    assert_eq!(parse_u64("18446744073709551616"), None);
    assert_eq!(parse_u64("+7"), Some(7));
    assert_eq!(parse_u64(""), None);
    assert_eq!(parse_u64("+"), None);
    assert_eq!(parse_u64("-1"), None);
    assert_eq!(parse_u64("1 "), None);
    assert_eq!(parse_bounded(&chars_of("fF"), 16, 255), Some(255));
    assert_eq!(parse_bounded(&chars_of("100"), 16, 255), None);
}

#[test]
fn bytes_print_as_two_digits() {
    let mut s = String::new();
    push_hex_byte(&mut s, 0x0a);
    push_hex_byte(&mut s, 0xff);
    assert_eq!(s, "0aff");
}

#[test]
fn text_helpers() {
    assert_eq!(text_of(&chars_of("häuser")), "häuser");
    assert!(same_text("a", "a") && !same_text("a", "b") && !same_text("a", "ab"));
    assert!(blank(" \t\n") && blank("") && !blank(" x"));
    assert_eq!(text_of(&trim_chars(&chars_of("  a b\n"))), "a b");
    assert_eq!(to_lower_ascii("Kitchen Ä"), "kitchen Ä");
    let parts = split_chars(&chars_of("a:b::"), ':');
    let parts: Vec<String> = parts.iter().map(text_of).collect();
    assert_eq!(parts, vec!["a", "b", "", ""]);
    assert_eq!(copy_opt(&Some("x".to_string())), Some("x".to_string()));
    assert!(same_opt(&None, &None) && !same_opt(&Some("x".to_string()), &None));
    assert_eq!(filled(Some("  ".to_string())), None);
    assert_eq!(filled(Some("a".to_string())), Some("a".to_string()));
    assert!(holds_text(&vec!["a".to_string()], &"a".to_string()));
    assert!(!holds_text(&vec!["a".to_string()], &"b".to_string()));
}

#[test]
fn times_are_held_in_flicks() {
    assert_eq!(Millis::whole(3).flicks, 3 * FLICKS_PER_MS);
    assert_eq!(Millis { flicks: 5 * FLICKS_PER_MS - 1 }.floor_ms(), 4);
    assert_eq!(Millis { flicks: -1 }.floor_ms(), 0);
    assert_eq!(Millis::bounded(i128::MAX).flicks, MAX_FLICKS);
    assert_eq!(Millis::bounded(i128::MIN).flicks, -MAX_FLICKS);
    assert!(Millis { flicks: 0 }.is_modest());
    assert!(!Millis { flicks: MAX_FLICKS }.is_modest());
    // A frame at each usual rate is a whole number of flicks.
    for rate in [44_100, 48_000, 88_200, 96_000, 192_000] {
        assert_eq!(FLICKS_PER_MS * 1000 % rate, 0);
    }
}

#[test]
fn volumes_are_clamped_and_compared() {
    assert_eq!(Volume { units: -1 }.clamped(), Volume { units: 0 });
    assert_eq!(Volume { units: FULL_VOLUME + 1 }.clamped(), Volume::full());
    let half = Volume { units: FULL_VOLUME / 2 };
    assert!(!half.differs(Volume { units: half.units + VOLUME_EPSILON }));
    assert!(half.differs(Volume { units: half.units + VOLUME_EPSILON + 1 }));
    assert!(half.differs(Volume { units: half.units - VOLUME_EPSILON - 1 }));
}
