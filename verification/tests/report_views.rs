use memora::report::{ReportData, claim_label, contradiction_first_is_older, contradictions_section, edges_within, graph_node_order, graph_section, is_priority, is_superseded_at, json_for_script, node_kind, render_report_page, short_id, stale_section, world_map_section};
use memora::report_graph::report_graph;

fn ids(v: &[&str]) -> Vec<String> {
    v.iter().map(|s| s.to_string()).collect()
}

#[test]
fn short_id_and_label_are_cut() {
    assert_eq!(short_id("0123456789abcdef"), "01234567");
    assert_eq!(short_id("abc"), "abc");
    assert_eq!(claim_label("rado", "works_at", Some("hmc")), "rado works_at hmc");
    assert_eq!(claim_label("x", "y", None), "x y");
    let long = "s".repeat(100);
    assert_eq!(claim_label(&long, "p", None).chars().count(), 64);
}

#[test]
fn json_for_script_escapes_markup_characters() {
    assert_eq!(json_for_script("{\"a\":\"</script>&\"}"), "{\"a\":\"\\u003c/script\\u003e\\u0026\"}");
}

#[test]
fn node_kind_prefers_superseded_then_contradicted_then_stale() {
    let sup = ids(&["a"]);
    let con = ids(&["a", "b"]);
    let stale = ids(&["b", "c"]);
    assert_eq!(node_kind("a", &sup, &con, &stale), "superseded");
    assert_eq!(node_kind("b", &sup, &con, &stale), "contradicted");
    assert_eq!(node_kind("c", &sup, &con, &stale), "stale");
    assert_eq!(node_kind("d", &sup, &con, &stale), "normal");
    assert!(is_priority("c", &sup, &con, &stale, &vec![]));
    assert!(is_priority("z", &sup, &con, &stale, &ids(&["z"])));
    assert!(!is_priority("z", &sup, &con, &stale, &vec![]));
}

#[test]
fn graph_nodes_put_priority_first_and_respect_the_cap() {
    let flags = vec![false, true, false, true];
    assert_eq!(graph_node_order(&flags, 10), vec![1, 3, 0, 2]);
    assert_eq!(graph_node_order(&flags, 3), vec![1, 3, 0]);
    assert_eq!(graph_node_order(&flags, 0), vec![1]);
}

#[test]
fn superseded_side_of_a_contradiction_is_older() {
    assert!(is_superseded_at(Some(5), 5));
    assert!(!is_superseded_at(Some(6), 5));
    assert!(!is_superseded_at(None, 5));
    assert!(!contradiction_first_is_older(None, 1, Some(3), 9, 10));
    assert!(contradiction_first_is_older(Some(3), 9, None, 1, 10));
    assert!(contradiction_first_is_older(None, 1, None, 1, 10));
    assert!(!contradiction_first_is_older(None, 2, None, 1, 10));
}

fn report_claim(id: &str, subject: &str, object: Option<&str>, valid_from: i128, valid_until: Option<i128>) -> memora::claims::Claim {
    memora::claims::Claim {
        id: id.to_string(),
        subject: subject.to_string(),
        predicate: "uses".to_string(),
        object: object.map(ToString::to_string),
        note_id: "n".to_string(),
        span_start: 0,
        span_end: 1,
        span_fingerprint: "fp".to_string(),
        valid_from,
        valid_until,
        confidence_millionths: 1_000_000,
        privacy: memora::privacy::Privacy::Private,
        extracted_by: "test".to_string(),
        extracted_at: 0,
    }
}

#[test]
fn contradiction_rows_put_the_superseded_claim_first() {
    assert_eq!(contradictions_section(&vec![], 100), "<p class=\"empty\">None detected.</p>");
    let newer = report_claim("bbbbbbbbbbbb", "db", Some("postgres"), 50, None);
    let older = report_claim("aaaaaaaaaaaa", "db", Some("mysql <5>"), 60, Some(90));
    let html = contradictions_section(&vec![(newer, older)], 100);
    assert_eq!(
        html,
        "<div class=\"row\"><div class=\"subj\">db</div><div class=\"pair\"><span class=\"bad\">mysql &lt;5&gt;</span> <span class=\"arrow\">\u{2192}</span> <span class=\"ok\">postgres</span></div><div class=\"meta\">claim aaaaaaaa \u{2192} bbbbbbbb</div></div>"
    );
    let a = report_claim("a1", "s", None, 10, None);
    let b = report_claim("b1", "s", Some("x"), 5, None);
    assert!(contradictions_section(&vec![(a, b)], 100).contains("<span class=\"bad\">x</span> <span class=\"arrow\">\u{2192}</span> <span class=\"ok\">(none)</span>"));
}

#[test]
fn stale_and_world_map_sections() {
    assert_eq!(stale_section(&vec![]), "<p class=\"empty\">None.</p>");
    assert_eq!(
        stale_section(&vec![("0123456789abcdef".to_string(), "source & edited".to_string())]),
        "<div class=\"row\"><div class=\"meta\">claim 01234567</div><div class=\"reason\">source &amp; edited</div></div>"
    );
    let hint = "<p class=\"empty\">No world_map.md yet. Run <code>memora challenge</code> to generate one.</p>";
    assert_eq!(world_map_section(None), hint);
    assert_eq!(world_map_section(Some(" \n ")), hint);
    assert_eq!(world_map_section(Some("# Map <b>")), "<pre class=\"worldmap\"># Map &lt;b&gt;</pre>");
}

#[test]
fn graph_section_notes_left_out_claims() {
    assert_eq!(graph_section(0, 4), "<p class=\"empty\">No claims indexed yet. Run <code>memora index</code> first.</p>");
    let partial = graph_section(3, 7);
    assert!(partial.starts_with("<p class=\"note\">Showing 3 of 7 claims (most connected first).</p><div class=\"graph-wrap\">"));
    let full = graph_section(7, 7);
    assert!(full.starts_with("<div class=\"graph-wrap\"><canvas id=\"graph-canvas\"></canvas>"));
    assert!(full.ends_with("<span class=\"lg edge-contradicts\">contradicts</span></div>"));
}

#[test]
fn report_page_escapes_vault_text_and_graph_json() {
    let d = ReportData {
        vault: "my<vault>".to_string(),
        generated: "2026-04-01 10:00 UTC".to_string(),
        n_claims: 3,
        n_notes: 2,
        n_regions: 1,
        n_contradictions: 0,
        n_stale: 0,
        n_superseded: 0,
        now: 0,
        graph_json: "{\"nodes\":[{\"label\":\"</script><b>\"}]}".to_string(),
        graph_nodes: 1,
        graph_total_claims: 3,
        contradictions: vec![],
        stale: vec![],
        world_map: None,
    };
    let page = render_report_page(&d);
    assert!(page.starts_with("<!DOCTYPE html>\n<html lang=\"en\"><head>\n<meta charset=\"UTF-8\">\n"));
    assert!(page.contains("<title>memora report \u{2014} my&lt;vault&gt;</title>"));
    assert!(page.contains("<div class=\"stat\"><b>3</b><span>claims</span></div><div class=\"stat\"><b>2</b><span>notes</span></div>"));
    assert!(page.contains("Showing 1 of 3 claims"));
    assert!(page.contains("{\"nodes\":[{\"label\":\"\\u003c/script\\u003e\\u003cb\\u003e\"}]}</script>"));
    assert!(!page.contains("</script><b>"));
    assert!(page.ends_with("</script>\n</body></html>\n"));
}

#[test]
fn edges_are_kept_only_between_drawn_nodes() {
    let pairs = vec![
        ("a".to_string(), "b".to_string()),
        ("a".to_string(), "z".to_string()),
        ("c".to_string(), "a".to_string()),
    ];
    let kept = edges_within(&pairs, &ids(&["a", "b", "c"]));
    assert_eq!(kept, vec![("a".to_string(), "b".to_string()), ("c".to_string(), "a".to_string())]);
    assert!(edges_within(&pairs, &ids(&[])).is_empty());
}

#[test]
fn report_graph_draws_flagged_claims_first() {
    let mut c1 = report_claim("c1", "s1", Some("o"), 10, Some(50));
    c1.note_id = "n1".to_string();
    let mut c2 = report_claim("c2", "s2", None, 10, None);
    c2.note_id = "n2".to_string();
    let mut c3 = report_claim("c3", "s3", Some("x"), 10, None);
    c3.note_id = "n1".to_string();
    let c4 = report_claim("c4", "s4", None, 10, None);
    let c5 = report_claim("c5", "s5", None, 10, Some(500));
    let claims = vec![c4, c1, c2.clone(), c3.clone(), c5];
    let notes = vec![
        ("n1".to_string(), "work".to_string()),
        ("n2".to_string(), "".to_string()),
        ("n3".to_string(), "work".to_string()),
        ("n4".to_string(), "home".to_string()),
    ];
    let provenance = vec![("c1".to_string(), "c2".to_string()), ("zz".to_string(), "c4".to_string())];
    let g = report_graph(&claims, &notes, &vec![(c2, c3)], &vec![], &provenance, 100, 4);
    let ids: Vec<&str> = g.nodes.iter().map(|n| n.id.as_str()).collect();
    assert_eq!(ids, vec!["c1", "c2", "c3", "c4"]);
    let kinds: Vec<&str> = g.nodes.iter().map(|n| n.kind).collect();
    assert_eq!(kinds, vec!["superseded", "contradicted", "contradicted", "normal"]);
    assert_eq!(g.nodes[0].region, "work");
    assert_eq!(g.nodes[1].region, "");
    assert_eq!(g.nodes[0].label, "s1 uses o");
    assert_eq!(g.derives, vec![("c1".to_string(), "c2".to_string())]);
    assert_eq!(g.contradicts, vec![("c2".to_string(), "c3".to_string())]);
    assert_eq!(g.superseded, vec!["c1".to_string()]);
    assert_eq!(g.n_regions, 2);
}

#[test]
fn supersession_is_decided_below_the_second() {
    // Validity ends 0.9 s into a second; at 0.1 s into it the claim still holds.
    let until = Some(1_000_900_000_000i128);
    assert!(!is_superseded_at(until, 1_000_100_000_000));
    assert!(is_superseded_at(until, 1_000_900_000_000));
    assert!(is_superseded_at(until, 1_001_000_000_000));
}
