use memora::entailment::parse_bool_field;
use memora::extract::{datetime_or_default, optional_datetime, parse_rfc3339_text};
use memora::ingest::{ingested_note_id, short_hash};
use memora::privacy::Privacy;
use memora::store::{claim_from_row, ClaimRow};
use memora::text::lowercase;

/// 2026-04-01T00:00:00Z, in nanoseconds since the Unix epoch.
const TS: i128 = 1_775_001_600_000_000_000;

#[test]
fn rfc3339_dates_read_as_epoch_seconds() {
    assert_eq!(parse_rfc3339_text("2026-04-01T00:00:00Z"), Some(TS));
    assert_eq!(parse_rfc3339_text("2026-04-01T02:00:00+02:00"), Some(TS));
    assert_eq!(parse_rfc3339_text("2026-04-01"), None);
    assert_eq!(parse_rfc3339_text("not a date"), None);
    assert_eq!(datetime_or_default(&Some("2026-04-01T00:00:01Z".to_string()), 7), TS + 1_000_000_000);
    assert_eq!(parse_rfc3339_text("2026-04-01T00:00:00.25Z"), Some(TS + 250_000_000));
    assert_eq!(parse_rfc3339_text("1969-12-31T23:59:59.5Z"), Some(-500_000_000));
    assert_eq!(parse_rfc3339_text("0001-01-01T00:00:00Z"), Some(-62_135_596_800_000_000_000));
    assert_eq!(datetime_or_default(&Some("yesterday".to_string()), 7), 7);
    assert_eq!(datetime_or_default(&None, 7), 7);
    assert_eq!(optional_datetime(&Some("1970-01-01T00:01:00Z".to_string())), Some(60_000_000_000));
    assert_eq!(optional_datetime(&None), None);
}

fn row() -> ClaimRow {
    ClaimRow {
        id: "0123456789abcdef".to_string(),
        subject: "rado".to_string(),
        predicate: "works_at".to_string(),
        object: Some("hmc".to_string()),
        note_id: "n1".to_string(),
        span_start: 3,
        span_end: 9,
        span_fingerprint: "fp".to_string(),
        valid_from: "2026-04-01T00:00:00Z".to_string(),
        valid_until: None,
        confidence_millionths: 900_000,
        privacy: "secret".to_string(),
        extracted_by: "llm".to_string(),
        extracted_at: "2026-04-01T00:00:10+00:00".to_string(),
    }
}

#[test]
fn claim_rows_become_claims_or_name_the_bad_column() {
    let c = claim_from_row(&row(), 0).expect("row reads");
    assert_eq!(c.span_start, 3);
    assert_eq!(c.span_end, 9);
    assert_eq!(c.valid_from, TS);
    assert_eq!(c.valid_until, None);
    assert_eq!(c.extracted_at, TS + 10_000_000_000);
    assert_eq!(c.privacy, Privacy::Secret);
    assert_eq!(c.object.as_deref(), Some("hmc"));

    let mut bad = row();
    bad.valid_until = Some("soon".to_string());
    assert_eq!(claim_from_row(&bad, 14).unwrap_err().column, 23);
    let mut bad = row();
    bad.span_start = -1;
    let err = claim_from_row(&bad, 0).unwrap_err();
    assert_eq!(err.column, 5);
    assert_eq!(err.reason, "span_start is negative or too large");
    let mut bad = row();
    bad.privacy = "top".to_string();
    let err = claim_from_row(&bad, 0).unwrap_err();
    assert_eq!(err.column, 11);
    assert_eq!(err.reason, "privacy is not a privacy level");
}

#[test]
fn json_boolean_fields_are_read() {
    assert_eq!(parse_bool_field("  {\"entailed\": true}\n", "entailed"), Some(true));
    assert_eq!(parse_bool_field("{\"entailed\":false,\"x\":1}", "entailed"), Some(false));
    assert_eq!(parse_bool_field("{\"entailed\":\"yes\"}", "entailed"), None);
    assert_eq!(parse_bool_field("{\"other\":true}", "entailed"), None);
    assert_eq!(parse_bool_field("true", "entailed"), None);
    assert_eq!(parse_bool_field("not json", "entailed"), None);
}

#[test]
fn lowercase_covers_unicode() {
    assert_eq!(lowercase("\u{c4}BC \u{391}\u{392}"), "\u{e4}bc \u{3b1}\u{3b2}");
    assert_eq!(lowercase("already"), "already");
}

#[test]
fn ingested_ids_are_stable_per_source() {
    let a = ingested_note_id("My Notes", "/tmp/source.md");
    let b = ingested_note_id("My Notes", "/tmp/source.md");
    assert_eq!(a, b);
    let hash = short_hash("/tmp/source.md");
    assert_eq!(hash.len(), 6);
    assert!(hash.chars().all(|c| c.is_ascii_hexdigit() && !c.is_ascii_uppercase()));
    assert_eq!(a, format!("my-notes-{hash}"));
    assert_ne!(short_hash("/tmp/source.md"), short_hash("/tmp/other.md"));
    assert_ne!(hash, "/tmp/s");
}

#[test]
fn indexed_body_hash_is_the_digest_prefix() {
    use_body_hash("Some note body\n");
    use_body_hash("");
    assert_eq!(memora::claims::truncated_blake3_hex(""), "af1349b9f5f9a1a6a0404dea36dcc949");
}

fn use_body_hash(body: &str) {
    let short = memora::claims::truncated_blake3_hex(body);
    assert_eq!(short.len(), 32);
    assert_eq!(short, memora::claims::Claim::compute_fingerprint(body)[..32]);
}
