use kern::quant::{int8_dot_norms_scalar, QuantizationMode};
use kern::retrieval::cache::hash_text;
use kern::retrieval::diversify::section_key;
use kern::retrieval::pagerank::merge_ascending;
use kern::retrieval::score::{delivery_cap, SortField};
use kern::retrieval::seed::Mode;
use kern::time::{
    civil_from_days, date_of_offset, date_of_unix_secs, date_string, format_date, parse_rfc3339, rfc3339_secs,
    EpochOffset,
};
use std::hash::{Hash, Hasher};
use std::time::{Duration, UNIX_EPOCH};

#[test]
fn hash_text_is_the_std_string_hash() {
    for t in ["", "alpha", "a longer query text with spaces", "ünïcode"] {
        let mut h = std::collections::hash_map::DefaultHasher::new();
        t.hash(&mut h);
        assert_eq!(hash_text(t), h.finish());
    }
    assert_ne!(hash_text("ab"), hash_text("a"));
}

#[test]
fn section_key_cuts_at_the_chunk_marker() {
    assert_eq!(section_key("doc#intro#chunk3"), "doc#intro");
    assert_eq!(section_key("plain"), "plain");
    assert_eq!(section_key("#chunk0"), "");
}

#[test]
fn sort_field_parses_case_insensitively_and_defaults_to_score() {
    assert_eq!(SortField::parse("DATE"), SortField::Date);
    assert_eq!(SortField::parse("access"), SortField::Access);
    assert_eq!(SortField::parse("Confidence"), SortField::Confidence);
    assert_eq!(SortField::parse("relevance"), SortField::Score);
    assert_eq!(SortField::default(), SortField::Score);
}

#[test]
fn quantization_mode_labels_round_trip() {
    assert_eq!(QuantizationMode::parse(" INT8 "), Some(QuantizationMode::Int8));
    assert_eq!(QuantizationMode::parse("f32"), Some(QuantizationMode::Unquantized));
    assert_eq!(QuantizationMode::parse("binary"), None);
    for m in [QuantizationMode::Unquantized, QuantizationMode::Int8] {
        assert_eq!(QuantizationMode::parse(m.as_str()), Some(m));
    }
    assert_eq!(QuantizationMode::Binary.as_str(), "binary");
    assert_eq!(QuantizationMode::default(), QuantizationMode::Unquantized);
}

#[test]
fn int8_kernel_sums_the_paired_prefix() {
    assert_eq!(int8_dot_norms_scalar(&[1, -2, 3], &[4, 5, -6, 100]), (4 - 10 - 18, 1 + 4 + 9, 16 + 25 + 36));
    assert_eq!(int8_dot_norms_scalar(&[], &[1]), (0, 0, 0));
    let a = vec![-128i8; 1000];
    assert_eq!(int8_dot_norms_scalar(&a, &a), (16384 * 1000, 16384 * 1000, 16384 * 1000));
}

#[test]
fn merge_ascending_interleaves_two_sorted_runs() {
    let mut out = vec![99];
    merge_ascending(&[1, 4, 9], &[2, 3, 10, 11], &mut out);
    assert_eq!(out, vec![1, 2, 3, 4, 9, 10, 11]);
    merge_ascending(&[], &[], &mut out);
    assert!(out.is_empty());
}

#[test]
fn civil_dates_and_rfc3339() {
    assert_eq!(civil_from_days(0), (1970, 1, 1));
    assert_eq!(civil_from_days(-1), (1969, 12, 31));
    assert_eq!(civil_from_days(19723), (2024, 1, 1));
    assert_eq!(civil_from_days(11016), (2000, 2, 29));
    assert_eq!(format_date(2026, 7, 2), "2026-07-02");
    assert_eq!(date_of_unix_secs(86399), "1970-01-01");
    assert_eq!(date_of_unix_secs(-1), "1969-12-31");
    assert_eq!(date_string(UNIX_EPOCH + Duration::from_secs(1_780_000_000)), "2026-05-28");
    assert_eq!(rfc3339_secs("1970-01-02T00:00:00Z"), Some(86400));
    assert_eq!(rfc3339_secs("1970-01-01T01:00:00+01:00"), Some(0));
    assert_eq!(rfc3339_secs("1970-01-01T00:00:00.250Z"), Some(0));
    assert_eq!(rfc3339_secs("2026-02-30T00:00:00Z"), None);
    assert_eq!(rfc3339_secs("2026-06-05T25:00:00Z"), None);
    assert_eq!(parse_rfc3339("2026-07-22").unwrap(), UNIX_EPOCH + Duration::from_secs(20656 * 86400));
    assert!(parse_rfc3339("yesterday").is_err());
}

#[test]
fn seed_mode_parses_case_insensitively_and_defaults_to_hybrid() {
    assert_eq!(Mode::parse("Content"), Mode::Content);
    assert_eq!(Mode::parse("REASON"), Mode::Reason);
    assert_eq!(Mode::parse("both"), Mode::Hybrid);
    assert_eq!(Mode::parse(""), Mode::Hybrid);
}

#[test]
fn date_of_offset_names_the_utc_day() {
    assert_eq!(date_of_offset(EpochOffset::After { secs: 0, nanos: 0 }), "1970-01-01");
    assert_eq!(date_of_offset(EpochOffset::After { secs: 86399, nanos: 999_999_999 }), "1970-01-01");
    assert_eq!(date_of_offset(EpochOffset::After { secs: 1_704_067_200, nanos: 0 }), "2024-01-01");
    assert_eq!(date_of_offset(EpochOffset::Before { secs: 0, nanos: 1 }), "1969-12-31");
    assert_eq!(date_of_offset(EpochOffset::Before { secs: 86400, nanos: 0 }), "1969-12-31");
    assert_eq!(date_of_offset(EpochOffset::Before { secs: 86400, nanos: 1 }), "1969-12-30");
}

#[test]
fn date_string_of_the_epoch() {
    assert_eq!(date_string(UNIX_EPOCH), "1970-01-01");
    assert_eq!(date_string(UNIX_EPOCH + Duration::from_secs(19723 * 86400 + 5)), "2024-01-01");
}

#[test]
fn delivery_cap_keeps_the_mmr_pool() {
    assert_eq!(delivery_cap(true, 50, 25), 50, "MMR keeps the larger pool");
    assert_eq!(delivery_cap(true, 10, 25), 25);
    assert_eq!(delivery_cap(false, 50, 25), 25, "without MMR the delivery cap applies");
}

#[test]
fn parsed_times_lie_their_seconds_from_the_epoch() {
    assert_eq!(parse_rfc3339("2024-01-01T00:00:00Z"), Ok(UNIX_EPOCH + Duration::from_secs(1_704_067_200)));
    assert_eq!(parse_rfc3339("1969-12-31T23:59:59Z"), Ok(UNIX_EPOCH - Duration::from_secs(1)));
    assert_eq!(kern::time::system_time_at(86_400), Some(UNIX_EPOCH + Duration::from_secs(86_400)));
    assert_eq!(kern::time::system_time_at(-86_400), Some(UNIX_EPOCH - Duration::from_secs(86_400)));
}
