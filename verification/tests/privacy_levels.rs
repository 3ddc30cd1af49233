use memora::privacy::{Privacy, PrivacyConfig};
use memora::privacy_markers::{parse_privacy_spans, privacy_for_span};

#[test]
fn parse_privacy_spans_returns_content_only() {
    let body = "abc <!--privacy:secret-->salary 95k<!--/privacy--> xyz";
    let spans = parse_privacy_spans(body);
    assert_eq!(spans.len(), 1);
    let (start, end, privacy) = spans[0];
    assert_eq!(privacy, Privacy::Secret);
    assert_eq!(&body[start..end], "salary 95k");
}

#[test]
fn parse_privacy_spans_keeps_both_levels_for_nested_markers() {
    let body = "<!--privacy:private-->outer <!--privacy:secret-->inner<!--/privacy--> text<!--/privacy-->";
    let spans = parse_privacy_spans(body);
    assert_eq!(spans.len(), 2);
    let inner = spans.iter().find(|(_, _, level)| *level == Privacy::Secret).expect("inner secret span present");
    assert_eq!(&body[inner.0..inner.1], "inner");
    let outer = spans.iter().find(|(_, _, level)| *level == Privacy::Private).expect("outer private span present");
    assert_eq!(&body[outer.0..outer.1], "outer <!--privacy:secret-->inner<!--/privacy--> text");
    let inner_start = body.find("inner").unwrap();
    let level = privacy_for_span(inner_start, inner_start + 5, &spans, Privacy::Public);
    assert_eq!(level, Privacy::Secret);
}

#[test]
fn parse_privacy_spans_skips_unmatched_markers() {
    let body = "text <!--privacy:secret-->no close";
    let spans = parse_privacy_spans(body);
    assert!(spans.is_empty());
}

#[test]
fn privacy_for_span_uses_max_level_when_overlapping() {
    let markers = vec![(10, 20, Privacy::Public), (12, 16, Privacy::Secret)];
    let level = privacy_for_span(14, 18, &markers, Privacy::Private);
    assert_eq!(level, Privacy::Secret);
}

#[test]
fn privacy_for_span_returns_note_level_without_overlap() {
    let markers = vec![(10, 20, Privacy::Secret)];
    let level = privacy_for_span(21, 25, &markers, Privacy::Private);
    assert_eq!(level, Privacy::Private);
}

#[test]
fn privacy_levels_order_and_names_round_trip() {
    assert_eq!(Privacy::Public.max_level(Privacy::Secret), Privacy::Secret);
    assert_eq!(Privacy::Private.max_level(Privacy::Public), Privacy::Private);
    for p in [Privacy::Public, Privacy::Private, Privacy::Secret] {
        assert_eq!(Privacy::parse(p.as_str()), Some(p));
    }
    assert_eq!(Privacy::parse("Secret"), None);
}

#[test]
fn privacy_config_defaults_to_private_and_redacting() {
    let cfg = PrivacyConfig::default();
    assert_eq!(cfg.default_note_privacy, Privacy::Private);
    assert!(cfg.redact_secret_in_cloud);
    assert!(cfg.warn_on_secret_query);
}
