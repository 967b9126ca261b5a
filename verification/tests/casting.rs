use ferricula::casting::{
    cast_hexagram, cast_line_yarrow, days_to_ymd, identity_seed, king_wen, trigram_emotion,
    zodiac_from_epoch, zodiac_from_month_day, Element, Modality, ZodiacSign,
};
use std::collections::HashSet;

#[test]
fn king_wen_completeness() {
    let mut seen = HashSet::new();
    for upper in 0..8 {
        for lower in 0..8 {
            let val = king_wen(upper, lower);
            assert!(val >= 1 && val <= 64, "invalid hexagram number: {val}");
            seen.insert(val);
        }
    }
    assert_eq!(seen.len(), 64, "not all 64 hexagrams present");
}

#[test]
fn yarrow_distribution() {
    let mut counts = [0u32; 4]; // [old_yin, young_yang, young_yin, old_yang]
    let n = 10000;
    for i in 0..n {
        let byte = ((i * 256) / n) as u8;
        match cast_line_yarrow(byte) {
            6 => counts[0] += 1,
            7 => counts[1] += 1,
            8 => counts[2] += 1,
            9 => counts[3] += 1,
            _ => panic!("invalid line value"),
        }
    }
    // Expected: 6.25%, 31.25%, 43.75%, 18.75%
    let total = n as f32;
    let old_yin = counts[0] as f32 / total;
    let young_yang = counts[1] as f32 / total;
    let young_yin = counts[2] as f32 / total;
    let old_yang = counts[3] as f32 / total;

    assert!((old_yin - 0.0625).abs() < 0.02, "old_yin={old_yin}");
    assert!((young_yang - 0.3125).abs() < 0.02, "young_yang={young_yang}");
    assert!((young_yin - 0.4375).abs() < 0.02, "young_yin={young_yin}");
    assert!((old_yang - 0.1875).abs() < 0.02, "old_yang={old_yang}");
}

#[test]
fn trigram_emotions_complete() {
    for i in 0..8 {
        let emotion = trigram_emotion(i);
        assert!(!emotion.is_empty(), "trigram {i} has no emotion");
    }
}

#[test]
fn cast_hexagram_basic() {
    let entropy = [128u8; 6]; // all young yin (8)
    let hex = cast_hexagram(&entropy);
    assert!(hex.number >= 1 && hex.number <= 64);
    assert!(!hex.name.is_empty());
    assert_eq!(hex.lines.len(), 6);
}

#[test]
fn cast_hexagram_all_yang() {
    // Bytes >= 208 (0.8125 * 256) -> Old Yang (9) -> stable yang
    let entropy = [220u8; 6];
    let hex = cast_hexagram(&entropy);
    // All yang lines: both trigrams are Heaven (index 0)
    assert_eq!(hex.upper_trigram, 0);
    assert_eq!(hex.lower_trigram, 0);
    assert_eq!(hex.number, 1); // The Creative (Heaven over Heaven)
}

#[test]
fn cast_hexagram_all_yin() {
    // Bytes < 16 (0.0625 * 256) -> Old Yin (6) -> stable yin
    let entropy = [5u8; 6];
    let hex = cast_hexagram(&entropy);
    // All yin lines: both trigrams are Earth (index 7)
    assert_eq!(hex.upper_trigram, 7);
    assert_eq!(hex.lower_trigram, 7);
    assert_eq!(hex.number, 2); // The Receptive (Earth over Earth)
}

#[test]
fn zodiac_known_dates() {
    // March 25 -> Aries
    let h = zodiac_from_month_day(3, 25);
    assert_eq!(h.sign, ZodiacSign::Aries);
    assert_eq!(h.element, Element::Fire);
    assert_eq!(h.modality, Modality::Cardinal);

    // August 15 -> Leo
    let h = zodiac_from_month_day(8, 15);
    assert_eq!(h.sign, ZodiacSign::Leo);

    // January 1 -> Capricorn
    let h = zodiac_from_month_day(1, 1);
    assert_eq!(h.sign, ZodiacSign::Capricorn);

    // February 20 -> Pisces
    let h = zodiac_from_month_day(2, 20);
    assert_eq!(h.sign, ZodiacSign::Pisces);
}

#[test]
fn zodiac_from_epoch_works() {
    // 2026-02-28 = roughly epoch 1772150400 (Pisces)
    let h = zodiac_from_epoch(1772150400);
    assert_eq!(h.sign, ZodiacSign::Pisces);
}

#[test]
fn identity_seed_deterministic() {
    let s1 = identity_seed(1, &[7, 8, 9, 6, 7, 8], 1000);
    let s2 = identity_seed(1, &[7, 8, 9, 6, 7, 8], 1000);
    assert_eq!(s1, s2);

    let s3 = identity_seed(2, &[7, 8, 9, 6, 7, 8], 1000);
    assert_ne!(s1, s3);
}

#[test]
fn days_to_ymd_known() {
    // 2026-02-28 = day 20512 from epoch
    let (y, m, d) = days_to_ymd(20512);
    assert_eq!(y, 2026);
    assert_eq!(m, 2);
    assert_eq!(d, 28);
}

#[test]
fn days_to_ymd_epoch_and_leap_day() {
    assert_eq!(days_to_ymd(0), (1970, 1, 1));
    // 2024-02-29 is day 19782
    assert_eq!(days_to_ymd(19782), (2024, 2, 29));
    assert_eq!(days_to_ymd(19783), (2024, 3, 1));
}

#[test]
fn yarrow_thresholds_exact() {
    assert_eq!(cast_line_yarrow(0), 6);
    assert_eq!(cast_line_yarrow(15), 6);
    assert_eq!(cast_line_yarrow(16), 7);
    assert_eq!(cast_line_yarrow(95), 7);
    assert_eq!(cast_line_yarrow(96), 8);
    assert_eq!(cast_line_yarrow(207), 8);
    assert_eq!(cast_line_yarrow(208), 9);
    assert_eq!(cast_line_yarrow(255), 9);
}

#[test]
fn zodiac_cusps() {
    assert_eq!(zodiac_from_month_day(3, 20).sign, ZodiacSign::Pisces);
    assert_eq!(zodiac_from_month_day(3, 21).sign, ZodiacSign::Aries);
    assert_eq!(zodiac_from_month_day(12, 21).sign, ZodiacSign::Sagittarius);
    assert_eq!(zodiac_from_month_day(12, 22).sign, ZodiacSign::Capricorn);
}
