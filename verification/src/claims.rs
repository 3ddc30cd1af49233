//! Claims: atomic facts extracted from notes, their ids and span fingerprints.
use vstd::prelude::*;

use crate::privacy::Privacy;
use crate::text::{byte_len, byte_len_of, chars_of, is_ascii_seq, str_eq, string_of};

verus! {

/// An atomic `(subject, predicate, object)` fact grounded in a byte span of a note.
///
/// Times are nanoseconds since the Unix epoch; confidence is in millionths.
#[derive(Debug, Clone)]
pub struct Claim {
    pub id: String,
    pub subject: String,
    pub predicate: String,
    /// `None` for unary predicates.
    pub object: Option<String>,
    pub note_id: String,
    pub span_start: usize,
    pub span_end: usize,
    pub span_fingerprint: String,
    pub valid_from: i128,
    pub valid_until: Option<i128>,
    pub confidence_millionths: u32,
    pub privacy: Privacy,
    pub extracted_by: String,
    pub extracted_at: i128,
}

/// Lower-case hexadecimal digit.
pub open spec fn is_hex_digit_lower(c: char) -> bool {
    ('0' <= c && c <= '9') || ('a' <= c && c <= 'f')
}

/// The 32 bytes of the BLAKE3 digest of `data` (`blake3::hash`).
pub uninterp spec fn blake3_digest(data: Seq<u8>) -> Seq<u8>;

/// `blake3::hash(data).as_bytes()`: the 32-byte BLAKE3 digest of `data`. The
/// digest itself is left to the outside crate.
#[verifier::external_body]
pub(crate) fn blake3_hash(data: &[u8]) -> (r: Vec<u8>)
    ensures
        r@ == blake3_digest(data@),
        r@.len() == 32,
{
    blake3::hash(data).as_bytes().to_vec()
}

/// The lower-case hexadecimal digit of `n` (below 16).
pub open spec fn hex_digit(n: nat) -> char {
    if n < 10 {
        (('0' as u32) + n) as char
    } else {
        (('a' as u32) + n - 10) as char
    }
}

/// Lower-case hexadecimal encoding of bytes, two digits per byte, high nibble
/// first (`Hash::to_hex`).
pub open spec fn hex_lower(b: Seq<u8>) -> Seq<char>
    decreases b.len(),
{
    if b.len() == 0 {
        Seq::empty()
    } else {
        hex_lower(b.drop_last()) + seq![hex_digit((b.last() / 16) as nat), hex_digit((b.last() % 16) as nat)]
    }
}

/// The lower-case hex encoding of the 256-bit BLAKE3 digest of `data`.
pub open spec fn blake3_hex(data: Seq<u8>) -> Seq<char> {
    hex_lower(blake3_digest(data))
}

/// The hexadecimal digit of a nibble.
fn hex_char(n: u8) -> (c: char)
    requires
        n < 16,
    ensures
        c == hex_digit(n as nat),
        is_hex_digit_lower(c),
{
    if n < 10 {
        let d: u8 = n + 48;
        d as char
    } else {
        let d: u8 = n + 87;
        d as char
    }
}

/// `blake3::hash(data).to_hex()`: 64 lower-case hexadecimal digits.
pub(crate) fn blake3_hex_of(data: &[u8]) -> (r: String)
    ensures
        r@ == blake3_hex(data@),
        r@.len() == 64,
        forall|k: int| 0 <= k < 64 ==> is_hex_digit_lower(#[trigger] r@[k]),
{
    let d = blake3_hash(data);
    let mut out: Vec<char> = Vec::new();
    let mut i: usize = 0;
    while i < d.len()
        invariant
            i <= d@.len(),
            d@.len() == 32,
            d@ == blake3_digest(data@),
            out@ == hex_lower(d@.take(i as int)),
            out@.len() == 2 * i,
            forall|k: int| 0 <= k < out@.len() ==> is_hex_digit_lower(#[trigger] out@[k]),
        decreases d.len() - i,
    {
        let b = d[i];
        proof {
            assert(d@.take(i + 1).drop_last() =~= d@.take(i as int));
        }
        out.push(hex_char(b / 16));
        out.push(hex_char(b % 16));
        i = i + 1;
    }
    proof {
        assert(d@.take(32) =~= d@);
    }
    string_of(&out)
}

/// The hash a note body is indexed under: the first 16 bytes of its BLAKE3
/// digest in lower-case hex (32 digits).
pub fn truncated_blake3_hex(body: &str) -> (r: String)
    ensures
        r@ == hex_lower(blake3_digest(vstd::utf8::encode_utf8(body@)).take(16)),
        r@.len() == 32,
{
    let d = blake3_hash(body.as_bytes());
    let mut out: Vec<char> = Vec::new();
    let mut i: usize = 0;
    while i < 16
        invariant
            i <= 16,
            d@.len() == 32,
            d@ == blake3_digest(vstd::utf8::encode_utf8(body@)),
            out@ == hex_lower(d@.take(i as int)),
            out@.len() == 2 * i,
        decreases 16 - i,
    {
        let b = d[i];
        proof {
            assert(d@.take(i + 1).drop_last() =~= d@.take(i as int));
        }
        out.push(hex_char(b / 16));
        out.push(hex_char(b % 16));
        i = i + 1;
    }
    string_of(&out)
}

/// Decimal digits of `n`, most significant first.
pub open spec fn decimal(n: nat) -> Seq<char>
    decreases n,
{
    if n < 10 {
        seq![(('0' as u32) + n) as char]
    } else {
        decimal(n / 10).push((('0' as u32) + (n % 10)) as char)
    }
}

/// Decimal rendering of `n` (`n.to_string()`).
pub fn usize_decimal(n: usize) -> (r: Vec<char>)
    ensures
        r@ == decimal(n as nat),
    decreases n,
{
    if n < 10 {
        let d: u8 = (n as u8) + 48;
        let c = d as char;
        let mut v: Vec<char> = Vec::new();
        v.push(c);
        v
    } else {
        let mut v = usize_decimal(n / 10);
        let d: u8 = ((n % 10) as u8) + 48;
        v.push(d as char);
        v
    }
}

/// Appends the characters of `s`.
pub fn push_str_chars(out: &mut Vec<char>, s: &str)
    ensures
        final(out)@ == old(out)@ + s@,
{
    let v = chars_of(s);
    let mut i: usize = 0;
    while i < v.len()
        invariant
            i <= v.len(),
            v@ == s@,
            out@ == old(out)@ + v@.take(i as int),
        decreases v.len() - i,
    {
        out.push(v[i]);
        i = i + 1;
        proof {
            assert(v@.take(i as int) =~= v@.take(i - 1).push(v@[i - 1]));
        }
    }
    proof {
        assert(v@.take(v@.len() as int) =~= v@);
    }
}

/// The text hashed into a claim id: `subject|predicate|object|note_id|span_start`,
/// with an empty object for unary claims.
pub open spec fn id_payload(
    s: Seq<char>,
    p: Seq<char>,
    o: Seq<char>,
    note_id: Seq<char>,
    span_start: nat,
) -> Seq<char> {
    s + seq!['|'] + p + seq!['|'] + o + seq!['|'] + note_id + seq!['|'] + decimal(span_start)
}

/// The id of a claim: the first 16 hex digits of the BLAKE3 digest of its
/// `subject|predicate|object|note_id|span_start` payload.
pub open spec fn claim_id_for(
    s: Seq<char>,
    p: Seq<char>,
    o: Seq<char>,
    note_id: Seq<char>,
    span_start: nat,
) -> Seq<char> {
    blake3_hex(vstd::utf8::encode_utf8(id_payload(s, p, o, note_id, span_start))).take(16)
}

impl Claim {
    /// Stable claim id: the first 16 hex digits of the BLAKE3 digest of
    /// `subject|predicate|object|note_id|span_start`.
    pub fn compute_id(s: &str, p: &str, o: Option<&str>, note_id: &str, span_start: usize) -> (r:
        String)
        ensures
            r@ == blake3_hex(
                vstd::utf8::encode_utf8(
                    id_payload(
                        s@,
                        p@,
                        match o {
                            Some(x) => x@,
                            None => Seq::empty(),
                        },
                        note_id@,
                        span_start as nat,
                    ),
                ),
            ).take(16),
            r@.len() == 16,
            forall|k: int| 0 <= k < 16 ==> is_hex_digit_lower(#[trigger] r@[k]),
    {
        let mut payload: Vec<char> = Vec::new();
        push_str_chars(&mut payload, s);
        payload.push('|');
        push_str_chars(&mut payload, p);
        payload.push('|');
        match o {
            Some(x) => push_str_chars(&mut payload, x),
            None => {},
        }
        payload.push('|');
        push_str_chars(&mut payload, note_id);
        payload.push('|');
        let digits = usize_decimal(span_start);
        let mut i: usize = 0;
        let ghost before = payload@;
        while i < digits.len()
            invariant
                i <= digits.len(),
                payload@ == before + digits@.take(i as int),
            decreases digits.len() - i,
        {
            payload.push(digits[i]);
            i = i + 1;
            proof {
                assert(digits@.take(i as int) =~= digits@.take(i - 1).push(digits@[i - 1]));
            }
        }
        proof {
            assert(digits@.take(digits@.len() as int) =~= digits@);
            let ov = match o {
                Some(x) => x@,
                None => Seq::<char>::empty(),
            };
            assert(payload@ =~= id_payload(s@, p@, ov, note_id@, span_start as nat));
        }
        let text = string_of(&payload);
        let hex = blake3_hex_of(text.as_str().as_bytes());
        let hv = chars_of(hex.as_str());
        let mut out: Vec<char> = Vec::new();
        let mut k: usize = 0;
        while k < 16
            invariant
                k <= 16,
                hv@ == hex@,
                hex@.len() == 64,
                out@ == hv@.take(k as int),
            decreases 16 - k,
        {
            out.push(hv[k]);
            k = k + 1;
            proof {
                assert(hv@.take(k as int) =~= hv@.take(k - 1).push(hv@[k - 1]));
            }
        }
        string_of(&out)
    }

    /// Full-width BLAKE3 fingerprint (64 hex digits) of a source span's UTF-8 bytes.
    pub fn compute_fingerprint(span_text: &str) -> (r: String)
        ensures
            r@ == blake3_hex(vstd::utf8::encode_utf8(span_text@)),
            r@.len() == 64,
            is_ascii_seq(r@),
    {
        let r = blake3_hex_of(span_text.as_bytes());
        proof {
            assert forall|k: int| 0 <= k < r@.len() implies (#[trigger] r@[k] as u32) < 0x80 by {
                assert(is_hex_digit_lower(r@[k]));
            }
        }
        r
    }

    /// Whether `span_text` matches a stored fingerprint: a full-width one is
    /// compared in full, a legacy 16-digit one against the first 16 digits.
    pub fn fingerprint_matches(span_text: &str, stored: &str) -> (b: bool)
        ensures
            b == fingerprint_match(blake3_hex(vstd::utf8::encode_utf8(span_text@)), stored@, byte_len(stored@)),
    {
        let full = Self::compute_fingerprint(span_text);
        let n = byte_len_of(stored);
        if n == 64 {
            str_eq(full.as_str(), stored)
        } else if n == 16 {
            let fv = chars_of(full.as_str());
            let sv = chars_of(stored);
            if sv.len() != 16 {
                assert(full@.take(16).len() != stored@.len());
                return false;
            }
            let mut k: usize = 0;
            while k < 16
                invariant
                    k <= 16,
                    fv@ == full@,
                    full@.len() == 64,
                    sv@ == stored@,
                    sv@.len() == 16,
                    n == byte_len(stored@),
                    n == 16,
                    full@ == blake3_hex(vstd::utf8::encode_utf8(span_text@)),
                    forall|j: int| 0 <= j < k ==> fv@[j] == sv@[j],
                decreases 16 - k,
            {
                if fv[k] != sv[k] {
                    assert(full@.take(16)[k as int] != stored@[k as int]);
                    return false;
                }
                k = k + 1;
            }
            proof {
                assert(full@.take(16) =~= stored@);
            }
            true
        } else {
            false
        }
    }

    /// A field-by-field copy of the claim.
    pub fn duplicate(&self) -> (r: Claim)
        ensures
            r == *self,
    {
        Claim {
            id: self.id.clone(),
            subject: self.subject.clone(),
            predicate: self.predicate.clone(),
            object: match &self.object {
                Some(o) => Some(o.clone()),
                None => None,
            },
            note_id: self.note_id.clone(),
            span_start: self.span_start,
            span_end: self.span_end,
            span_fingerprint: self.span_fingerprint.clone(),
            valid_from: self.valid_from,
            valid_until: self.valid_until,
            confidence_millionths: self.confidence_millionths,
            privacy: self.privacy,
            extracted_by: self.extracted_by.clone(),
            extracted_at: self.extracted_at,
        }
    }

    /// The object, or `(unary)` for claims without one.
    pub fn object_display(&self) -> (r: String)
        ensures
            r@ == (match self.object {
                Some(o) => o@,
                None => "(unary)"@,
            }),
    {
        match &self.object {
            Some(o) => o.clone(),
            None => "(unary)".to_string(),
        }
    }
}

/// Matching rule for stored fingerprints of `stored_bytes` bytes against the
/// full fingerprint `full`.
pub open spec fn fingerprint_match(full: Seq<char>, stored: Seq<char>, stored_bytes: nat) -> bool {
    if stored_bytes == 64 {
        full == stored
    } else if stored_bytes == 16 {
        full.take(16) == stored
    } else {
        false
    }
}

/// How two claims relate.
#[derive(Debug, Clone, Copy, PartialEq, Eq, Structural)]
pub enum ClaimRelation {
    Entails,
    Contradicts,
    Supersedes,
    Derives,
    CoOccurs,
}

/// The snake-case name of a relation.
pub open spec fn relation_name(r: ClaimRelation) -> Seq<char> {
    match r {
        ClaimRelation::Entails => "entails"@,
        ClaimRelation::Contradicts => "contradicts"@,
        ClaimRelation::Supersedes => "supersedes"@,
        ClaimRelation::Derives => "derives"@,
        ClaimRelation::CoOccurs => "co_occurs"@,
    }
}

/// The relation named `s`, if any.
pub open spec fn relation_named(s: Seq<char>) -> Option<ClaimRelation> {
    if s == "entails"@ {
        Some(ClaimRelation::Entails)
    } else if s == "contradicts"@ {
        Some(ClaimRelation::Contradicts)
    } else if s == "supersedes"@ {
        Some(ClaimRelation::Supersedes)
    } else if s == "derives"@ {
        Some(ClaimRelation::Derives)
    } else if s == "co_occurs"@ {
        Some(ClaimRelation::CoOccurs)
    } else {
        None
    }
}

impl ClaimRelation {
    /// The snake-case name of the relation.
    pub fn as_str(self) -> (r: &'static str)
        ensures
            r@ == relation_name(self),
    {
        match self {
            ClaimRelation::Entails => "entails",
            ClaimRelation::Contradicts => "contradicts",
            ClaimRelation::Supersedes => "supersedes",
            ClaimRelation::Derives => "derives",
            ClaimRelation::CoOccurs => "co_occurs",
        }
    }

    /// The snake-case name of the relation, as an owned string.
    pub fn to_string(&self) -> (r: String)
        ensures
            r@ == relation_name(*self),
    {
        self.as_str().to_string()
    }

    /// Parses a snake-case relation name; any other text is refused with
    /// `invalid claim relation: <text>`.
    pub fn parse(s: &str) -> (r: Result<ClaimRelation, String>)
        ensures
            match relation_named(s@) {
                Some(rel) => r == Ok::<ClaimRelation, String>(rel),
                None => r matches Err(e) && e@ == "invalid claim relation: "@ + s@,
            },
    {
        if str_eq(s, "entails") {
            Ok(ClaimRelation::Entails)
        } else if str_eq(s, "contradicts") {
            Ok(ClaimRelation::Contradicts)
        } else if str_eq(s, "supersedes") {
            Ok(ClaimRelation::Supersedes)
        } else if str_eq(s, "derives") {
            Ok(ClaimRelation::Derives)
        } else if str_eq(s, "co_occurs") {
            Ok(ClaimRelation::CoOccurs)
        } else {
            let mut out: Vec<char> = Vec::new();
            push_str_chars(&mut out, "invalid claim relation: ");
            push_str_chars(&mut out, s);
            Err(string_of(&out))
        }
    }
}

impl std::str::FromStr for ClaimRelation {
    type Err = String;

    fn from_str(s: &str) -> (r: Result<ClaimRelation, String>)
        ensures
            match relation_named(s@) {
                Some(rel) => r == Ok::<ClaimRelation, String>(rel),
                None => r matches Err(e) && e@ == "invalid claim relation: "@ + s@,
            },
    {
        ClaimRelation::parse(s)
    }
}

/// Naming a relation and parsing the name gives the relation back.
pub proof fn lemma_relation_round_trip(r: ClaimRelation)
    ensures
        relation_named(relation_name(r)) == Some(r),
{
    reveal_strlit("entails");
    reveal_strlit("contradicts");
    reveal_strlit("supersedes");
    reveal_strlit("derives");
    reveal_strlit("co_occurs");
    let e = "entails"@;
    let c = "contradicts"@;
    let s = "supersedes"@;
    let d = "derives"@;
    let o = "co_occurs"@;
    assert(e.len() == 7 && c.len() == 11 && s.len() == 10 && d.len() == 7 && o.len() == 9);
    assert(e[0] != d[0]);
}

/// A span matches the fingerprint taken of it, both in full and as the
/// 16-digit prefix older indexes stored.
pub proof fn lemma_own_fingerprint_matches(span: Seq<char>, fingerprint: Seq<char>)
    requires
        fingerprint == blake3_hex(vstd::utf8::encode_utf8(span)),
        fingerprint.len() == 64,
        is_ascii_seq(fingerprint),
    ensures
        fingerprint_match(blake3_hex(vstd::utf8::encode_utf8(span)), fingerprint, byte_len(fingerprint)),
        fingerprint_match(
            blake3_hex(vstd::utf8::encode_utf8(span)),
            fingerprint.take(16),
            byte_len(fingerprint.take(16)),
        ),
{
    crate::text::lemma_ascii_prefix_bytes(fingerprint, 64);
    assert(fingerprint.take(64) =~= fingerprint);
    let short = fingerprint.take(16);
    assert(is_ascii_seq(short));
    crate::text::lemma_ascii_prefix_bytes(short, 16);
    assert(short.take(16) =~= short);
}

} // verus!
