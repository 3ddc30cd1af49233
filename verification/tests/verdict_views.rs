use memora::cite::{CitationCheck, CitationStatus};
use memora::entailment::Entailment;
use memora::verdict::{html_escape, reason, render_html, render_terminal, sentence_for_marker, tally, RenderOpts, VerdictLine};
use memora::verify_cmd::{
    claim_assertion, count_problems, entailment_hypothesis, entailment_line, entailment_totals, needs_entailment, status_str,
    verify_fails,
};

fn line(text: &str, status: CitationStatus) -> VerdictLine {
    VerdictLine { text: text.to_string(), status }
}

fn check(id: &str, status: CitationStatus) -> CitationCheck {
    CitationCheck { claim_id: id.to_string(), status, source_text: None, quote: None }
}

#[test]
fn tally_folds_mismatches_into_rejected() {
    let lines = vec![
        line("a", CitationStatus::Verified),
        line("b", CitationStatus::Unverified),
        line("c", CitationStatus::QuoteMismatch),
        line("d", CitationStatus::Superseded),
        line("e", CitationStatus::FingerprintMismatch),
    ];
    assert_eq!(tally(&lines), (1, 3, 1));
}

#[test]
fn html_escape_neutralises_markup() {
    assert_eq!(html_escape("<b>&</b>"), "&lt;b&gt;&amp;&lt;/b&gt;");
    assert_eq!(html_escape("plain"), "plain");
}

#[test]
fn sentence_for_marker_picks_the_cited_sentence() {
    let text = "First one. The launch is set [claim:0000000000000a02]. Last.";
    assert_eq!(sentence_for_marker(text, "0000000000000a02"), "The launch is set [claim:0000000000000a02].");
    assert_eq!(sentence_for_marker(text, "ffffffffffffffff"), "[claim:ffffffffffffffff]");
}

#[test]
fn render_html_escapes_and_strikes_rejected_lines() {
    let html = render_html(&vec![line("<x>", CitationStatus::Unverified)], "");
    assert!(html.contains("<s>&lt;x&gt;</s>"));
    assert!(html.contains("REJECTED \u{2014} hallucinated id"));
    assert!(html.contains("(nothing \u{2014} none of the citations could be verified)"));
}

#[test]
fn render_terminal_without_colour() {
    let out = render_terminal(
        &vec![line("Ok", CitationStatus::Verified), line("Bad", CitationStatus::Unverified)],
        "Ok  fine",
        "raw text",
        &RenderOpts { color: false, show_naive_contrast: true },
    );
    assert_eq!(out[0], format!("\u{2713} VERIFIED    {}", reason(CitationStatus::Verified)));
    assert_eq!(out[1], "   Ok");
    assert_eq!(out[2], "");
    assert_eq!(out[4], "   [rejected] Bad");
    assert_eq!(out[6], "Verdict");
    assert_eq!(out[7], "  1 verified   1 rejected   0 superseded");
    assert_eq!(out[10], "   raw text");
    assert_eq!(out[13], "   Ok fine");
    assert_eq!(out.len(), 14);
}

#[test]
fn render_terminal_paints_when_coloured() {
    let out = render_terminal(&vec![], "", "", &RenderOpts { color: true, show_naive_contrast: false });
    assert_eq!(out[0], "\u{1b}[1mVerdict\u{1b}[0m");
    assert_eq!(out.len(), 5);
}

#[test]
fn problems_count_superseded_only_when_not_allowed() {
    let checks = vec![
        check("a", CitationStatus::Verified),
        check("b", CitationStatus::Superseded),
        check("c", CitationStatus::QuoteMismatch),
    ];
    assert_eq!(count_problems(&checks, false), 2);
    assert_eq!(count_problems(&checks, true), 1);
    assert!(verify_fails(1, false, 0));
    assert!(!verify_fails(0, false, 3));
    assert!(verify_fails(0, true, 3));
}

#[test]
fn status_names_and_entailment_helpers() {
    assert_eq!(status_str(CitationStatus::FingerprintMismatch), "fingerprint_mismatch");
    assert_eq!(status_str(CitationStatus::Superseded), "superseded");
    assert!(needs_entailment(CitationStatus::Superseded));
    assert!(!needs_entailment(CitationStatus::Unverified));
    assert_eq!(claim_assertion("rado", "works_at", Some("hmc")), "rado works_at hmc");
    assert_eq!(claim_assertion("rado", "retired", None), "rado retired");
    assert_eq!(entailment_hypothesis(&Some("  ".into()), "fallback"), "fallback");
    assert_eq!(entailment_hypothesis(&Some("quoted".into()), "fallback"), "quoted");
    assert_eq!(entailment_line(Entailment::Entailed, "abc"), "  \u{2713} entailed     [claim:abc]");
    assert_eq!(
        entailment_totals(&vec![Entailment::Entailed, Entailment::Unsupported, Entailment::Entailed]),
        "2 entailed, 1 unsupported, 0 unchecked"
    );
}

#[test]
fn html_escape_loses_nothing() {
    for s in ["a < b && c > d", "&lt; already", "plain", "", "<<&>>"] {
        let e = html_escape(s);
        assert!(!e.contains('<') && !e.contains('>'));
        assert_eq!(e.replace("&lt;", "<").replace("&gt;", ">").replace("&amp;", "&"), s);
    }
}
