use memora::ingest::{clean_text, derive_summary, extract_html, is_url, slugify, strip_subtitles, url_slug};

#[test]
fn slugify_makes_readable_filesystem_safe_stems() {
    assert_eq!(slugify("My Contract v2 (final).pdf"), "my-contract-v2-final-pdf");
    assert_eq!(slugify("  spaced  out  "), "spaced-out");
    assert_eq!(slugify("***"), "document");
    assert_eq!(slugify(""), "document");
}

#[test]
fn url_slug_drops_scheme_and_query() {
    assert_eq!(url_slug("https://example.com/blog/post?utm=1#top"), "example-com-blog-post");
    assert_eq!(url_slug("http://example.com/"), "example-com");
}

#[test]
fn is_url_detects_http_schemes() {
    assert!(is_url("https://example.com"));
    assert!(is_url("http://example.com"));
    assert!(!is_url("/local/file.html"));
    assert!(!is_url("file.txt"));
}

#[test]
fn clean_text_strips_control_chars_and_collapses_blank_runs() {
    let raw = "Title\r\n\u{c}\n\n\nBody line one  \n\n\n\nBody line two\n\n";
    let cleaned = clean_text(raw);
    assert!(!cleaned.contains('\r'));
    assert!(!cleaned.contains('\u{c}'));
    assert!(!cleaned.contains("\n\n\n"), "no 3+ newline runs: {cleaned:?}");
    assert!(cleaned.starts_with("Title"));
    assert!(cleaned.ends_with("Body line two"));
}

#[test]
fn strip_subtitles_keeps_only_spoken_text() {
    let vtt = "WEBVTT\n\n1\n00:00:01.000 --> 00:00:04.000\nHello there\n\n2\n00:00:04.000 --> 00:00:06.000\nGeneral Kenobi";
    let text = strip_subtitles(vtt);
    assert_eq!(text, "Hello there\nGeneral Kenobi");
}

#[test]
fn derive_summary_uses_first_line_then_falls_back_to_stem() {
    assert_eq!(derive_summary("\n\n  First real line\nSecond", "stem"), "First real line");
    assert_eq!(derive_summary("   \n  \n", "fallback-stem"), "fallback-stem");
    let long = "x".repeat(500);
    assert_eq!(derive_summary(&long, "stem").chars().count(), 120);
}

#[test]
fn extract_html_keeps_content_and_drops_scripts() {
    let html = r#"<html><head><title>  My Page  </title></head>
            <body><nav>Home About</nav><script>var x = 1;</script>
            <article><h1>Heading</h1><p>First paragraph.</p><p>Second paragraph.</p></article>
            <style>.a{color:red}</style></body></html>"#;
    let (text, title) = extract_html(html);
    assert_eq!(title.as_deref(), Some("My Page"));
    assert!(text.contains("Heading"));
    assert!(text.contains("First paragraph."));
    assert!(text.contains("Second paragraph."));
    assert!(!text.contains("var x"), "script content excluded: {text}");
    assert!(!text.contains("color:red"), "style content excluded: {text}");
}

#[test]
fn slugify_keeps_only_safe_characters_and_caps_length() {
    let long = "Ünïcode Títle with MANY words ".repeat(5);
    let s = slugify(&long);
    assert!(s.len() <= 48);
    assert!(s.chars().all(|c| c.is_ascii_lowercase() || c.is_ascii_digit() || c == '-'));
    assert!(!s.starts_with('-'));
}

#[test]
fn url_slug_without_scheme_uses_whole_text() {
    assert_eq!(url_slug("example.org/a b"), "example-org-a-b");
}

#[test]
fn cleaned_text_is_tidy_and_stable() {
    for raw in ["  a \r\n\n\n\n b\u{c}c  \n\n", "\n\n\nx\t\n \n\ny\n", "", "only\r", " \u{c} "] {
        let c = clean_text(raw);
        assert!(!c.contains('\r') && !c.contains('\u{c}') && !c.contains("\n\n\n"));
        assert_eq!(c, c.trim());
        assert_eq!(clean_text(&c), c);
    }
}
