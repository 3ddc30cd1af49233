use memora::cite::{extract_quote_before, parse_claim_markers, rewrite_with_only_verified};

#[test]
fn rewrite_drops_sentences_with_unverified_markers() {
    let text = "Good sentence [claim:aaaaaaaaaaaaaaaa]. Bad sentence [claim:bbbbbbbbbbbbbbbb].";
    let verified = vec!["aaaaaaaaaaaaaaaa".to_string()];
    let cleaned = rewrite_with_only_verified(text, &verified);
    assert!(cleaned.contains("aaaaaaaaaaaaaaaa"));
    assert!(!cleaned.contains("bbbbbbbbbbbbbbbb"));
    assert!(!cleaned.contains("Bad sentence"));
}

#[test]
fn parse_claim_markers_extracts_offsets_and_ids() {
    let text = "A [claim:0123456789abcdef] and [claim:0011223344556677]";
    let markers = parse_claim_markers(text);
    assert_eq!(markers.len(), 2);
    assert_eq!(markers[0].2, "0123456789abcdef");
    assert_eq!(markers[1].2, "0011223344556677");
    assert_eq!(&text[markers[0].0..markers[0].1], "[claim:0123456789abcdef]");
}

#[test]
fn extract_quote_before_finds_double_quoted_text() {
    let text = "It says \"Rado works at HMC\" [claim:0123456789abcdef]";
    let pos = text.find("[claim:").expect("marker present");
    let quote = extract_quote_before(text, pos).expect("quote extracted");
    assert_eq!(quote, "Rado works at HMC");
}

#[test]
fn extract_quote_before_finds_single_quoted_text() {
    let text = "Claimed as 'Memora is native Rust' [claim:0123456789abcdef]";
    let pos = text.find("[claim:").expect("marker present");
    let quote = extract_quote_before(text, pos).expect("quote extracted");
    assert_eq!(quote, "Memora is native Rust");
}

#[test]
fn extract_quote_before_finds_blockquote_text() {
    let text = "Context:\n> HMC hosted INTERNORGA\n[claim:0123456789abcdef]";
    let pos = text.find("[claim:").expect("marker present");
    let quote = extract_quote_before(text, pos).expect("quote extracted");
    assert_eq!(quote, "HMC hosted INTERNORGA");
}

#[test]
fn parse_claim_markers_ignores_malformed_markers() {
    let text = "x [claim:short] y [claim:0123456789ABCDEF] z";
    assert!(parse_claim_markers(text).is_empty());
}

#[test]
fn extract_quote_before_without_quote_is_none() {
    let text = "No quote here [claim:0123456789abcdef]";
    let pos = text.find("[claim:").unwrap();
    assert_eq!(extract_quote_before(text, pos), None);
}

#[test]
fn rewrite_keeps_everything_when_all_verified() {
    let text = "One [claim:aaaaaaaaaaaaaaaa]. Two [claim:bbbbbbbbbbbbbbbb].";
    let verified = vec!["aaaaaaaaaaaaaaaa".to_string(), "bbbbbbbbbbbbbbbb".to_string()];
    let cleaned = rewrite_with_only_verified(text, &verified);
    assert!(cleaned.contains("One"));
    assert!(cleaned.contains("Two"));
}

#[test]
fn rewritten_answer_cites_only_verified_ids() {
    let text = "Alpha [claim:0000000000000001]! Beta [claim:0000000000000002] and [claim:0000000000000001]?\n\n  Gamma [claim:0000000000000003].\n\nDelta [claim:0000000000000002]";
    let verified = vec!["0000000000000001".to_string(), "0000000000000003".to_string()];
    let cleaned = rewrite_with_only_verified(text, &verified);
    assert_eq!(cleaned, "Alpha [claim:0000000000000001]!   Gamma [claim:0000000000000003].");
    for (_, _, id) in parse_claim_markers(&cleaned) {
        assert!(verified.contains(&id));
    }
}

#[test]
fn rewrite_accepts_any_text() {
    assert_eq!(rewrite_with_only_verified("café.", &vec![]), "café.");
    assert_eq!(
        rewrite_with_only_verified("Été [claim:000000000000000a]! Ça va [claim:000000000000000b].", &vec!["000000000000000b".to_string()]),
        "Ça va [claim:000000000000000b]."
    );
}
