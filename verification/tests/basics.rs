use mp_research::calendar::{
    civil_from_days, date_str, dates_are_adjacent, days_from_civil, days_since_epoch,
    format_iso_date, parse_iso_date, parse_ymd,
};
use mp_research::error::{SimError, StorageError};
use mp_research::event::SymbolId;
use mp_research::fnv::{content_hash, content_hash_hex, fnv1a_absorb, fnv1a_absorb_le, FNV1A_OFFSET};
use mp_research::measure::merged_duration;
use mp_research::number::Real;
use mp_research::ordered::{sort_numbers, sort_order, Pair, SortedMap};
use mp_research::text::{
    contains_text, dec_string, hex16, hex8, join_path, join_texts, lower_text, parse_i64,
    parse_u32, parse_u64, push_dec_wide, push_padded_int, split_lines, split_text, strip_prefix,
    text_before, trim_text,
};

fn r(x: f64) -> Real {
    Real { bits: x.to_bits() }
}

const SAMPLES: [f64; 11] = [
    f64::NEG_INFINITY,
    -1.5,
    -f64::MIN_POSITIVE,
    -0.0,
    0.0,
    5e-324,
    1.0,
    1.5,
    f64::MAX,
    f64::INFINITY,
    f64::NAN,
];

#[test]
fn numbers_compare_as_their_values() {
    for a in SAMPLES {
        assert_eq!(r(a).is_nan(), a.is_nan());
        assert_eq!(r(a).is_finite(), a.is_finite());
        assert_eq!(r(a).is_positive(), a > 0.0);
        assert_eq!(r(a).is_zero(), a == 0.0);
        assert_eq!(r(a).abs().bits, a.abs().to_bits());
        assert_eq!(r(a).negated().bits, (-a).to_bits());
        for b in SAMPLES {
            assert_eq!(r(a).less(r(b)), a < b, "{a} {b}");
            assert_eq!(r(a).at_most(r(b)), a <= b, "{a} {b}");
            assert_eq!(r(a).agrees_in_sign(r(b)), a.signum() == b.signum(), "{a} {b}");
            let order = r(a).total_order() < r(b).total_order();
            assert_eq!(order, a.total_cmp(&b).is_lt(), "{a} {b}");
            let (min, max) = (f64::from_bits(r(a).min(r(b)).bits), f64::from_bits(r(a).max(r(b)).bits));
            assert!(min == a.min(b) || (min.is_nan() && a.min(b).is_nan()));
            assert!(max == a.max(b) || (max.is_nan() && a.max(b).is_nan()));
        }
        assert_eq!(Real::of_total_order(r(a).total_order()), r(a));
    }
}

#[test]
fn the_calendar_counts_days() {
    assert_eq!(days_from_civil(1970, 1, 1), 0);
    assert_eq!(days_from_civil(2026, 1, 1), 20_454);
    assert_eq!(civil_from_days(-1), (1969, 12, 31));
    assert_eq!(civil_from_days(11_016), (2000, 2, 29));
    assert_eq!(format_iso_date(19_782), "2024-02-29");
    assert_eq!(parse_iso_date("2024-02-29"), Some(19_782));
    assert_eq!(parse_iso_date("2023-02-29"), None);
    assert_eq!(parse_iso_date("2023-2"), None);
    assert_eq!(parse_ymd("20260701"), Ok((2026, 7, 1)));
    assert_eq!(parse_ymd("2026-07-01"), Ok((2026, 7, 1)));
    assert_eq!(parse_ymd("2026-13-01"), Err(()));
    assert_eq!(parse_ymd("2026/07/01"), Err(()));
    assert_eq!(days_since_epoch(2000, 1, 1), 0);
    assert_eq!(days_since_epoch(2001, 1, 1), 366);
    assert!(dates_are_adjacent("20260630", "2026-07-01"));
    assert!(dates_are_adjacent("20231231", "20240101"));
    assert!(!dates_are_adjacent("20260630", "20260702"));
    assert!(!dates_are_adjacent("x", "20260702"));
    assert_eq!(date_str(1_700_000_000_000_000_000), "2023-11-14");
    assert_eq!(date_str(-1), "1970-01-01");
    assert_eq!(date_str(86_400_000_000_000), "1970-01-02");
    for day in [-800_000, -1, 0, 59, 60, 20_454, 5_000_000] {
        let (y, m, d) = civil_from_days(day);
        assert_eq!(days_from_civil(y, m, d), day);
        assert_eq!(parse_iso_date(&format_iso_date(day)).unwrap_or(day), day);
    }
}

#[test]
fn hashes_are_the_usual_ones() {
    assert_eq!(content_hash(b""), 0xcbf29ce484222325);
    assert_eq!(content_hash(b"foobar"), 0x85944171f73967e8);
    assert_eq!(content_hash_hex(b"foobar"), "85944171f73967e8");
    assert_eq!(fnv1a_absorb(fnv1a_absorb(FNV1A_OFFSET, b"foo"), b"bar"), content_hash(b"foobar"));
    assert_eq!(
        fnv1a_absorb_le(FNV1A_OFFSET, 0x0102_0304_0506_0708, 8),
        content_hash(&0x0102_0304_0506_0708_u64.to_le_bytes())
    );
}

#[test]
fn covered_time_counts_once() {
    assert_eq!(merged_duration(&vec![(0, 10), (5, 15), (20, 30)], 0, 25), 20);
    assert_eq!(merged_duration(&vec![(10, 5)], 0, 100), 0);
    assert_eq!(merged_duration(&vec![(-50, 500)], 0, 100), 100);
    assert_eq!(merged_duration(&vec![], 0, 100), 0);
}

#[test]
fn texts_are_taken_apart_and_put_together() {
    assert_eq!(split_text("a::b", ':'), vec!["a", "", "b"]);
    assert_eq!(join_texts(&split_text("a:b:c", ':'), "-"), "a-b-c");
    assert_eq!(split_lines("a\r\nb\n\nc"), vec!["a", "b", "", "c"]);
    assert_eq!(trim_text(" \t a b \n"), "a b");
    assert_eq!(lower_text("AbC-É"), "abc-É");
    assert_eq!(strip_prefix("prefix-x", "prefix-").as_deref(), Some("x"));
    assert_eq!(strip_prefix("x", "prefix-"), None);
    assert!(contains_text("haystack", "st"));
    assert!(!contains_text("haystack", "ts"));
    assert!(text_before("a", "ab") && text_before("B", "a") && !text_before("a", "a"));
    assert_eq!(join_path("a", "b"), "a/b");
    assert_eq!(join_path("a/", "b"), "a/b");
    assert_eq!(join_path("", "b"), "b");
}

#[test]
fn numbers_are_written_and_read() {
    assert_eq!(dec_string(u64::MAX), u64::MAX.to_string());
    let mut s = String::new();
    push_dec_wide(&mut s, u128::MAX);
    assert_eq!(s, u128::MAX.to_string());
    for (i, width) in [(7, 4), (-7, 4), (12345, 3), (0, 2)] {
        let mut s = String::new();
        push_padded_int(&mut s, i, width);
        assert_eq!(s, format!("{i:0width$}"));
    }
    assert_eq!(hex16(0xabc), "0000000000000abc");
    assert_eq!(hex8(u32::MAX), "ffffffff");
    for t in ["0", "+5", "18446744073709551615", "18446744073709551616", "-1", "", "+", "1a"] {
        assert_eq!(parse_u64(t), t.parse().ok(), "{t}");
        assert_eq!(parse_u32(t), t.parse().ok(), "{t}");
    }
    for t in ["-9223372036854775808", "9223372036854775808", "-0", "+1", "-", "--1"] {
        assert_eq!(parse_i64(t), t.parse().ok(), "{t}");
    }
}

#[test]
fn maps_keep_their_keys_in_order() {
    let mut m: SortedMap<Pair<i64, String>, u32> = SortedMap::new();
    let key = |a, b: &str| Pair { a, b: b.to_string() };
    m.set(key(2, "a"), 1);
    m.set(key(1, "b"), 2);
    m.set(key(1, "a"), 3);
    m.set(key(2, "a"), 4);
    let values: Vec<u32> = m.entries.iter().map(|e| e.1).collect();
    assert_eq!(values, vec![3, 2, 4]);
    assert_eq!(m.get(&key(1, "b")), Some(&2));
    assert_eq!(m.get(&key(3, "b")), None);
    assert_eq!(sort_order(&vec![3i64, 1, 3, 2, 1]), vec![1, 4, 3, 0, 2]);
    assert_eq!(sort_numbers(&vec![3, -1, 3, 0]), vec![-1, 0, 3, 3]);
}

#[test]
fn errors_have_their_messages() {
    assert_eq!(StorageError::Io("gone".into()).message(), "io: gone");
    assert_eq!(StorageError::Parquet("x".into()).message(), "parquet: x");
    assert_eq!(StorageError::Arrow("x".into()).message(), "arrow: x");
    assert_eq!(StorageError::Refused("x".into()).message(), "refused: x");
    assert_eq!(
        SimError::MissingFunding(SymbolId(7)).message("", ""),
        "funding data missing for symbol SymbolId(7) while holding a position past the check interval (SIM-4)"
    );
}

#[test]
fn date_texts_stand_in_the_order_of_time() {
    let day = 86_400_000_000_000i64;
    let texts: Vec<String> =
        [0, 30, 31, 364, 365, 10_956, 10_957, 100_000].iter().map(|d| date_str(d * day)).collect();
    assert!(texts.windows(2).all(|w| w[0] < w[1]), "{texts:?}");
    assert_eq!(date_str(day - 1), date_str(0));
}
