use memora::challenge_report::{cross_region_description, frontier_description, home_note_slug, stale_review, ProposedClaim};
use memora::cli::{coalesce_events, event_path, event_removes_note, VaultEvent};
use memora::ingest::{source_kind, SourceKind};
use memora::note_text::{note_body, render_note_file, NoteHeader};
use memora::privacy::Privacy;

#[test]
fn note_body_skips_the_frontmatter_block() {
    assert_eq!(note_body("---\nid: a\n---\nBody text\n"), "Body text\n");
    assert_eq!(note_body("---\r\nid: a\r\n --- \r\nBody"), "Body");
    assert_eq!(note_body("No frontmatter\n---\n"), "No frontmatter\n---\n");
    assert_eq!(note_body("---\nid: a\nunterminated"), "---\nid: a\nunterminated");
    assert_eq!(note_body(""), "");
}

#[test]
fn note_file_round_trips_its_body() {
    let header = NoteHeader {
        id: "n-1".into(),
        region: "ingested".into(),
        source: "reference".into(),
        privacy: Privacy::Secret,
        created: "2026-04-01T00:00:00+00:00".into(),
        updated: "2026-04-01T00:00:00+00:00".into(),
        summary: "Say \"hi\"".into(),
        tags: vec!["ingested".into(), "pdf".into()],
    };
    let file = render_note_file(&header, "Body line");
    assert_eq!(
        file,
        "---\nid: n-1\nregion: ingested\nsource: reference\nprivacy: secret\ncreated: 2026-04-01T00:00:00+00:00\nupdated: 2026-04-01T00:00:00+00:00\nsummary: \"Say \\\"hi\\\"\"\ntags: [ingested, pdf]\nrefs: []\n---\nBody line\n"
    );
    assert_eq!(note_body(&file), "Body line\n");
}

#[test]
fn events_coalesce_to_the_last_per_path() {
    let events = vec![
        VaultEvent::Created("a.md".into()),
        VaultEvent::Modified("b.md".into()),
        VaultEvent::Modified("a.md".into()),
        VaultEvent::Deleted("b.md".into()),
    ];
    let out = coalesce_events(&events);
    assert_eq!(out.len(), 2);
    assert!(matches!(&out[0], VaultEvent::Modified(p) if p == "a.md"));
    assert!(matches!(&out[1], VaultEvent::Deleted(p) if p == "b.md"));
    assert_eq!(event_path(&out[1]), "b.md");
    assert!(event_removes_note(&out[1]));
    assert!(!event_removes_note(&out[0]));
}

#[test]
fn file_kinds_by_extension() {
    assert_eq!(source_kind("md"), Ok(SourceKind::Text));
    assert_eq!(source_kind("srt"), Ok(SourceKind::Subtitles));
    assert_eq!(source_kind("pdf"), Ok(SourceKind::Pdf));
    assert_eq!(source_kind("htm"), Ok(SourceKind::Html));
    assert!(source_kind("docx").unwrap_err().starts_with("unsupported file type '.docx'"));
}

#[test]
fn challenger_descriptions() {
    assert_eq!(home_note_slug("  Akmon Release!! "), "akmon-release");
    assert_eq!(
        cross_region_description("akmon", 3, "akmon"),
        "Subject 'akmon' spans 3 regions without a home note; consider creating 'akmon'."
    );
    let p = Some(ProposedClaim { s: "a".into(), p: "b".into(), o: "c".into() });
    assert_eq!(stale_review(" UPDATE ", &p), ("update".to_string(), "Stale claim needs update to 'a b c'.".to_string()));
    assert_eq!(stale_review("update", &None).1, "Stale claim marked for update.");
    assert_eq!(stale_review("archive", &p).1, "Stale claim appears obsolete and should be archived.");
    assert_eq!(frontier_description(400_000, 500_000), "Low-confidence claim needs clarification.");
    assert_eq!(frontier_description(900_000, 500_000), "Rare predicate appears once and needs corroboration.");
}
