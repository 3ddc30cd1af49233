//! The optional second verification layer: whether a verified source span
//! supports the assertion built on it, as judged by a language model.
//!
//! The model call itself happens outside the library; this module decides
//! when a check may run, what is asked, and how the reply is read.
use vstd::prelude::*;

use crate::claims::push_str_chars;
use crate::privacy::Privacy;
use crate::text::{chars_of, string_of, string_of_range, trim, trim_bounds};

verus! {

/// Verdict on whether a source span supports a cited assertion.
#[derive(Debug, Clone, Copy, PartialEq, Eq, Structural)]
pub enum Entailment {
    /// The source span states or directly implies the assertion.
    Entailed,
    /// The assertion goes beyond, contradicts, or is not supported by the source.
    Unsupported,
    /// No check was run: empty text, or Secret content bound for a cloud endpoint.
    Unchecked,
}

impl Entailment {
    /// Lower-case name of the verdict.
    pub fn as_str(self) -> (r: &'static str)
        ensures
            r@ == (match self {
                Entailment::Entailed => "entailed"@,
                Entailment::Unsupported => "unsupported"@,
                Entailment::Unchecked => "unchecked"@,
            }),
    {
        match self {
            Entailment::Entailed => "entailed",
            Entailment::Unsupported => "unsupported",
            Entailment::Unchecked => "unchecked",
        }
    }
}

/// `Entailed` for `true`, `Unsupported` for `false`.
pub open spec fn spec_verdict(entailed: bool) -> Entailment {
    if entailed {
        Entailment::Entailed
    } else {
        Entailment::Unsupported
    }
}

/// `Entailed` for `true`, `Unsupported` for `false`.
pub fn verdict_from_bool(entailed: bool) -> (r: Entailment)
    ensures
        r == spec_verdict(entailed),
{
    if entailed {
        Entailment::Entailed
    } else {
        Entailment::Unsupported
    }
}

/// Verdict settled before any model call: `Unchecked` when either text is
/// blank after trimming, or when Secret content would leave for a non-local
/// endpoint; otherwise the check has to run.
pub open spec fn spec_gate(
    premise: Seq<char>,
    hypothesis: Seq<char>,
    privacy: Privacy,
    destination_is_local: bool,
) -> Option<Entailment> {
    if trim(premise).len() == 0 || trim(hypothesis).len() == 0 {
        Some(Entailment::Unchecked)
    } else if !destination_is_local && privacy == Privacy::Secret {
        Some(Entailment::Unchecked)
    } else {
        None
    }
}

/// `s` with leading and trailing whitespace removed (`str::trim`).
pub fn trimmed(s: &str) -> (r: String)
    ensures
        r@ == trim(s@),
{
    let v = chars_of(s);
    let (a, b) = trim_bounds(&v, 0, v.len());
    proof {
        assert(v@.subrange(0, v@.len() as int) =~= v@);
    }
    string_of_range(&v, a, b)
}

/// The verdict that needs no model call, if any (see `spec_gate`).
pub fn entailment_gate(
    premise: &str,
    hypothesis: &str,
    privacy: Privacy,
    destination_is_local: bool,
) -> (r: Option<Entailment>)
    ensures
        r == spec_gate(premise@, hypothesis@, privacy, destination_is_local),
{
    let p = trimmed(premise);
    let h = trimmed(hypothesis);
    if p.as_str().is_empty() || h.as_str().is_empty() {
        return Some(Entailment::Unchecked);
    }
    if !destination_is_local && privacy == Privacy::Secret {
        return Some(Entailment::Unchecked);
    }
    None
}

/// The question put to the model for a trimmed premise and hypothesis.
pub fn entailment_prompt(premise: &str, hypothesis: &str) -> (r: String)
    ensures
        r@ == "SOURCE:\n"@ + trim(premise@) + "\n\nASSERTION:\n"@ + trim(hypothesis@)
            + "\n\nDoes the SOURCE support the ASSERTION? Answer with JSON only. Use exactly\n{\"entailed\":true} if the source states or directly implies the assertion, or\n{\"entailed\":false} if the assertion goes beyond, contradicts, or is not\nsupported by the source."@,
{
    let p = trimmed(premise);
    let h = trimmed(hypothesis);
    let mut out: Vec<char> = Vec::new();
    push_str_chars(&mut out, "SOURCE:\n");
    push_str_chars(&mut out, p.as_str());
    push_str_chars(&mut out, "\n\nASSERTION:\n");
    push_str_chars(&mut out, h.as_str());
    push_str_chars(
        &mut out,
        "\n\nDoes the SOURCE support the ASSERTION? Answer with JSON only. Use exactly\n{\"entailed\":true} if the source states or directly implies the assertion, or\n{\"entailed\":false} if the assertion goes beyond, contradicts, or is not\nsupported by the source.",
    );
    string_of(&out)
}

/// What `serde_json::from_str::<serde_json::Value>(text)`, then `.get(key)`
/// and `.as_bool()`, yield: the boolean field `key` of a JSON object text.
pub uninterp spec fn json_bool_field(text: Seq<char>, key: Seq<char>) -> Option<bool>;

/// Reads the boolean field `key` of the JSON object in `text` with
/// `serde_json`; `None` when the text is not JSON, has no such field, or the
/// field is not a boolean. The result is named, not described.
#[verifier::external_body]
fn json_bool_field_of(text: &str, key: &str) -> (r: Option<bool>)
    ensures
        r == json_bool_field(text@, key@),
{
    let value: serde_json::Value = serde_json::from_str(text).ok()?;
    value.get(key)?.as_bool()
}

/// The boolean field `key` of the JSON object in `text`, which is trimmed first.
pub fn parse_bool_field(text: &str, key: &str) -> (r: Option<bool>)
    ensures
        r == json_bool_field(trim(text@), key@),
{
    let t = trimmed(text);
    json_bool_field_of(t.as_str(), key)
}

/// Verdict for the `entailed` field read from a reply: an unreadable reply
/// counts as entailed, since provenance already proved the citation real.
pub fn verdict_for_field(field: Option<bool>) -> (r: Entailment)
    ensures
        r == spec_verdict(
            match field {
                Some(b) => b,
                None => true,
            },
        ),
{
    match field {
        Some(b) => verdict_from_bool(b),
        None => verdict_from_bool(true),
    }
}

/// Verdict read from the model's reply to `entailment_prompt`.
pub fn verdict_from_reply(reply: &str) -> (r: Entailment)
    ensures
        r == spec_verdict(
            match json_bool_field(trim(reply@), "entailed"@) {
                Some(b) => b,
                None => true,
            },
        ),
{
    let field = parse_bool_field(reply, "entailed");
    verdict_for_field(field)
}

} // verus!
