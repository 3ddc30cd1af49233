use memora::cli::make_embedding_text;
use memora::embed::DeterministicEmbedder;
use memora::text::normalize_text;

#[test]
fn normalize_text_lowercases_and_collapses_whitespace() {
    let normalized = normalize_text("  Hello\tWORLD\n  from   Memora ");
    assert_eq!(normalized, "hello world from memora");
}

#[test]
fn deterministic_embedder_reports_dim_and_model() {
    let e = DeterministicEmbedder::new(64);
    assert_eq!(e.dim(), 64);
    assert_eq!(e.model_id(), "memora/deterministic");
}

#[test]
fn deterministic_embedding_words_come_from_blake3() {
    let e = DeterministicEmbedder::new(2);
    let words = e.embed_words("");
    // BLAKE3("") begins af 13 49 b9 f5 f9 a1 a6.
    assert_eq!(words, vec![0xb949_13af, 0xa6a1_f9f5]);
    assert_eq!(words, e.embed_words(""));
}

#[test]
fn deterministic_embedding_extends_past_one_digest() {
    let e = DeterministicEmbedder::new(20);
    let words = e.embed_words("memora");
    assert_eq!(words.len(), 20);
    assert_eq!(&words[..8], &DeterministicEmbedder::new(8).embed_words("memora")[..]);
    assert_ne!(words, DeterministicEmbedder::new(20).embed_words("Memora"));
}

#[test]
fn embedding_text_joins_summary_and_body_head() {
    assert_eq!(make_embedding_text("Sum MARY", "Body  text"), "sum mary body text");
    let body = "y".repeat(3000);
    assert_eq!(make_embedding_text("s", &body).len(), 2 + 2000);
}

#[test]
fn normalize_text_handles_unicode_case() {
    assert_eq!(normalize_text("ÄBC  Ωmega"), "äbc ωmega");
}
