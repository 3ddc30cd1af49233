//! What the atlas asks the model about a region, and the region index page
//! built around its answer.
use vstd::prelude::*;
use crate::claims::{Claim, push_str_chars};
use crate::order::texts;
use crate::text::{string_of, trim};
use crate::entailment::trimmed;
use crate::ingest::joined_lines;

verus! {

/// One claim as a compact JSON-like row: id, subject, predicate, object.
pub open spec fn claim_row(c: Claim) -> Seq<char> {
    "[\""@ + c.id@ + "\",\""@ + c.subject@ + "\",\""@ + c.predicate@ + "\",\""@ + match c.object {
        Some(o) => o@,
        None => Seq::empty(),
    } + "\"]"@
}

/// The rows of the first `n` claims, one per line.
pub open spec fn claim_rows(cs: Seq<Claim>, n: int) -> Seq<char>
    decreases n,
{
    if n <= 0 {
        Seq::empty()
    } else if n == 1 {
        claim_row(cs[0])
    } else {
        claim_rows(cs, n - 1) + "\n"@ + claim_row(cs[n - 1])
    }
}

/// The request for a region's overview.
pub open spec fn overview_request_text(region: Seq<char>, claims: Seq<Claim>) -> Seq<char> {
    "Region: "@ + region + "\nClaims:\n"@ + claim_rows(claims, claims.len() as int)
}

/// The request for a region's overview (see `overview_request_text`).
pub fn region_overview_request(region: &str, claims: &Vec<Claim>) -> (r: String)
    ensures
        r@ == overview_request_text(region@, claims@),
{
    let mut out: Vec<char> = Vec::new();
    push_str_chars(&mut out, "Region: ");
    push_str_chars(&mut out, region);
    push_str_chars(&mut out, "\nClaims:\n");
    let ghost head = out@;
    let mut i: usize = 0;
    while i < claims.len()
        invariant
            i <= claims@.len(),
            out@ == head + claim_rows(claims@, i as int),
        decreases claims.len() - i,
    {
        let ghost before = out@;
        if i > 0 {
            push_str_chars(&mut out, "\n");
        }
        let c = &claims[i];
        push_str_chars(&mut out, "[\"");
        push_str_chars(&mut out, c.id.as_str());
        push_str_chars(&mut out, "\",\"");
        push_str_chars(&mut out, c.subject.as_str());
        push_str_chars(&mut out, "\",\"");
        push_str_chars(&mut out, c.predicate.as_str());
        push_str_chars(&mut out, "\",\"");
        match &c.object {
            Some(o) => push_str_chars(&mut out, o.as_str()),
            None => {},
        }
        push_str_chars(&mut out, "\"]");
        proof {
            if i == 0 {
                assert(out@ =~= head + claim_row(claims@[0]));
            } else {
                assert(out@ =~= before + "\n"@ + claim_row(claims@[i as int]));
            }
        }
        i = i + 1;
    }
    string_of(&out)
}

/// The first claim listed under a subject, if the subject is listed.
pub open spec fn first_claim_of(cbs: Seq<(String, Vec<Claim>)>, s: Seq<char>, i: int) -> Option<Claim>
    decreases cbs.len() - i,
{
    if i < 0 || i >= cbs.len() {
        None
    } else if cbs[i].0@ == s {
        if cbs[i].1@.len() > 0 {
            Some(cbs[i].1@[0])
        } else {
            None
        }
    } else {
        first_claim_of(cbs, s, i + 1)
    }
}

/// The cited lines of the first `n` subjects that have claims.
pub open spec fn top_subject_lines(subjects: Seq<String>, cbs: Seq<(String, Vec<Claim>)>, n: int) -> Seq<Seq<char>>
    decreases n,
{
    if n <= 0 {
        Seq::empty()
    } else {
        let prev = top_subject_lines(subjects, cbs, n - 1);
        match first_claim_of(cbs, subjects[n - 1]@, 0) {
            Some(c) => prev.push(subjects[n - 1]@ + " [claim:"@ + c.id@ + "]"@),
            None => prev,
        }
    }
}

/// The cited subjects of a region index: of the first five subjects, those
/// with claims, each with its first claim's marker.
pub open spec fn top_subjects(subjects: Seq<String>, cbs: Seq<(String, Vec<Claim>)>) -> Seq<Seq<char>> {
    top_subject_lines(subjects, cbs, if subjects.len() < 5 { subjects.len() as int } else { 5 })
}

/// Position of a subject's entry, if listed.
fn find_entry(cbs: &Vec<(String, Vec<Claim>)>, s: &String) -> (r: Option<usize>)
    ensures
        match r {
            Some(i) => i < cbs@.len() && cbs@[i as int].0@ == s@ && first_claim_of(cbs@, s@, 0)
                == first_claim_of(cbs@, s@, i as int),
            None => first_claim_of(cbs@, s@, 0) is None,
        },
{
    let mut i: usize = 0;
    while i < cbs.len()
        invariant
            i <= cbs@.len(),
            first_claim_of(cbs@, s@, 0) == first_claim_of(cbs@, s@, i as int),
        decreases cbs.len() - i,
    {
        if crate::text::str_eq(cbs[i].0.as_str(), s.as_str()) {
            return Some(i);
        }
        i = i + 1;
    }
    None
}

/// The cited subjects of a region index (see `top_subjects`).
pub fn region_top_subjects(subjects: &Vec<String>, cbs: &Vec<(String, Vec<Claim>)>) -> (r: Vec<String>)
    ensures
        texts(r@) == top_subjects(subjects@, cbs@),
{
    let n: usize = if subjects.len() < 5 {
        subjects.len()
    } else {
        5
    };
    let mut out: Vec<String> = Vec::new();
    let mut i: usize = 0;
    while i < n
        invariant
            i <= n <= subjects@.len(),
            n == (if subjects@.len() < 5 { subjects@.len() as int } else { 5 }),
            texts(out@) == top_subject_lines(subjects@, cbs@, i as int),
        decreases n - i,
    {
        let s = &subjects[i];
        match find_entry(cbs, s) {
            Some(k) => {
                if cbs[k].1.len() > 0 {
                    let mut line: Vec<char> = Vec::new();
                    push_str_chars(&mut line, s.as_str());
                    push_str_chars(&mut line, " [claim:");
                    push_str_chars(&mut line, cbs[k].1[0].id.as_str());
                    push_str_chars(&mut line, "]");
                    let ghost prev = out@;
                    out.push(string_of(&line));
                    proof {
                        assert(texts(out@) =~= texts(prev).push(line@));
                    }
                }
            },
            None => {},
        }
        i = i + 1;
    }
    out
}

/// The request for a region index.
pub open spec fn index_request_text(region: Seq<char>, top: Seq<Seq<char>>) -> Seq<char> {
    "Write 200-300 words about region '"@ + region
        + "'. Cite top subjects using existing markers.\nTop subjects:\n"@ + joined_lines(top, top.len() as int)
}

/// The cited subjects as list items, joined by line breaks.
pub open spec fn bullet_lines(top: Seq<Seq<char>>, n: int) -> Seq<char>
    decreases n,
{
    if n <= 0 {
        Seq::empty()
    } else if n == 1 {
        "- "@ + top[0]
    } else {
        bullet_lines(top, n - 1) + "\n"@ + "- "@ + top[n - 1]
    }
}

/// The region index page: the model's text and the cited subjects.
pub open spec fn index_page_text(region: Seq<char>, reply: Seq<char>, top: Seq<Seq<char>>) -> Seq<char> {
    "# Index: "@ + region + "\n\n_"@ + trim(reply) + "_\n\n## Top subjects\n"@ + bullet_lines(
        top,
        top.len() as int,
    ) + "\n"@
}

/// The request for a region index (see `index_request_text`).
pub fn region_index_request(region: &str, top: &Vec<String>) -> (r: String)
    ensures
        r@ == index_request_text(region@, texts(top@)),
{
    let mut out: Vec<char> = Vec::new();
    push_str_chars(&mut out, "Write 200-300 words about region '");
    push_str_chars(&mut out, region);
    push_str_chars(&mut out, "'. Cite top subjects using existing markers.\nTop subjects:\n");
    let ghost head = out@;
    let mut i: usize = 0;
    while i < top.len()
        invariant
            i <= top@.len(),
            out@ == head + joined_lines(texts(top@), i as int),
        decreases top.len() - i,
    {
        let ghost before = out@;
        if i > 0 {
            out.push('\n');
        }
        push_str_chars(&mut out, top[i].as_str());
        proof {
            assert(texts(top@)[i as int] == top@[i as int]@);
            if i == 0 {
                assert(out@ =~= head + joined_lines(texts(top@), 1));
            } else {
                assert(out@ =~= before + seq!['\n'] + texts(top@)[i as int]);
            }
        }
        i = i + 1;
    }
    string_of(&out)
}

/// The region index page (see `index_page_text`).
pub fn region_index_page(region: &str, reply: &str, top: &Vec<String>) -> (r: String)
    ensures
        r@ == index_page_text(region@, reply@, texts(top@)),
{
    let mut out: Vec<char> = Vec::new();
    push_str_chars(&mut out, "# Index: ");
    push_str_chars(&mut out, region);
    push_str_chars(&mut out, "\n\n_");
    let t = trimmed(reply);
    push_str_chars(&mut out, t.as_str());
    push_str_chars(&mut out, "_\n\n## Top subjects\n");
    let ghost head = out@;
    let mut i: usize = 0;
    while i < top.len()
        invariant
            i <= top@.len(),
            out@ == head + bullet_lines(texts(top@), i as int),
        decreases top.len() - i,
    {
        let ghost before = out@;
        if i > 0 {
            push_str_chars(&mut out, "\n");
        }
        push_str_chars(&mut out, "- ");
        push_str_chars(&mut out, top[i].as_str());
        proof {
            assert(texts(top@)[i as int] == top@[i as int]@);
            if i == 0 {
                assert(out@ =~= head + bullet_lines(texts(top@), 1));
            } else {
                assert(out@ =~= before + "\n"@ + "- "@ + texts(top@)[i as int]);
            }
        }
        i = i + 1;
    }
    push_str_chars(&mut out, "\n");
    string_of(&out)
}

} // verus!
