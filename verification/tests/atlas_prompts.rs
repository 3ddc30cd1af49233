use memora::atlas_prompts::{region_index_page, region_index_request, region_overview_request, region_top_subjects};
use memora::claims::Claim;
use memora::privacy::Privacy;

fn claim(id: &str, subject: &str, object: Option<&str>) -> Claim {
    Claim {
        id: id.to_string(),
        subject: subject.to_string(),
        predicate: "p".to_string(),
        object: object.map(ToString::to_string),
        note_id: "n".to_string(),
        span_start: 0,
        span_end: 1,
        span_fingerprint: "fp".to_string(),
        valid_from: 0,
        valid_until: None,
        confidence_millionths: 0,
        privacy: Privacy::Public,
        extracted_by: "t".to_string(),
        extracted_at: 0,
    }
}

#[test]
fn overview_request_lists_claim_rows() {
    let r = region_overview_request("work", &vec![claim("1", "a", Some("x")), claim("2", "b", None)]);
    assert_eq!(r, "Region: work\nClaims:\n[\"1\",\"a\",\"p\",\"x\"]\n[\"2\",\"b\",\"p\",\"\"]");
}

#[test]
fn index_cites_top_subjects_with_claims() {
    let cbs = vec![("a".to_string(), vec![claim("c1", "a", None)]), ("b".to_string(), vec![])];
    let top = region_top_subjects(&vec!["a".into(), "b".into(), "z".into()], &cbs);
    assert_eq!(top, vec!["a [claim:c1]".to_string()]);
    assert_eq!(
        region_index_request("work", &top),
        "Write 200-300 words about region 'work'. Cite top subjects using existing markers.\nTop subjects:\na [claim:c1]"
    );
    assert_eq!(region_index_page("work", "  Text.  ", &top), "# Index: work\n\n_Text._\n\n## Top subjects\n- a [claim:c1]\n");
}
