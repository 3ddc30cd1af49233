//! Claims as stored: reading a claim back from the text and integer columns
//! of its database row.
use vstd::prelude::*;

use crate::claims::Claim;
use crate::extract::{parse_rfc3339_text, rfc3339_timestamp};
use crate::privacy::{privacy_named, Privacy};

verus! {

/// The columns of a stored claim, as read from its row. Dates are RFC 3339
/// texts; confidence is in millionths.
#[derive(Debug, Clone)]
pub struct ClaimRow {
    pub id: String,
    pub subject: String,
    pub predicate: String,
    pub object: Option<String>,
    pub note_id: String,
    pub span_start: i64,
    pub span_end: i64,
    pub span_fingerprint: String,
    pub valid_from: String,
    pub valid_until: Option<String>,
    pub confidence_millionths: u32,
    pub privacy: String,
    pub extracted_by: String,
    pub extracted_at: String,
}

/// A column whose value cannot be read as a claim field: its index in the
/// result row, and why.
#[derive(Debug, Clone)]
pub struct RowError {
    pub column: usize,
    pub reason: String,
}

/// The column that makes a row unreadable, if any, checked in column order:
/// span start and end must be non-negative and fit a `usize`; dates must be
/// RFC 3339; the level must be a level name.
pub open spec fn bad_column(row: ClaimRow, offset: int) -> Option<int> {
    if row.span_start < 0 || row.span_start > usize::MAX {
        Some(offset + 5)
    } else if row.span_end < 0 || row.span_end > usize::MAX {
        Some(offset + 6)
    } else if rfc3339_timestamp(row.valid_from@) is None {
        Some(offset + 8)
    } else if row.valid_until is Some && rfc3339_timestamp(row.valid_until->0@) is None {
        Some(offset + 9)
    } else if privacy_named(row.privacy@) is None {
        Some(offset + 11)
    } else if rfc3339_timestamp(row.extracted_at@) is None {
        Some(offset + 13)
    } else {
        None
    }
}

/// Why the column at `k` past the row's first column cannot be read.
pub open spec fn column_reason(k: int) -> Seq<char> {
    if k == 5 {
        "span_start is negative or too large"@
    } else if k == 6 {
        "span_end is negative or too large"@
    } else if k == 8 {
        "valid_from is not an RFC 3339 date-time"@
    } else if k == 9 {
        "valid_until is not an RFC 3339 date-time"@
    } else if k == 11 {
        "privacy is not a privacy level"@
    } else {
        "extracted_at is not an RFC 3339 date-time"@
    }
}

fn row_error(column: usize, reason: &str) -> (r: Result<Claim, RowError>)
    ensures
        r matches Err(e) && e.column == column && e.reason@ == reason@,
{
    Err(RowError { column, reason: reason.to_string() })
}

/// The claim stored in a row whose columns start at `offset`, or the first
/// column that cannot be read (see `bad_column`).
pub fn claim_from_row(row: &ClaimRow, offset: usize) -> (r: Result<Claim, RowError>)
    requires
        offset + 13 <= usize::MAX,
    ensures
        match bad_column(*row, offset as int) {
            Some(col) => r matches Err(e) && e.column == col && e.reason@ == column_reason(col - offset),
            None => r matches Ok(c) && {
                &&& c.id@ == row.id@
                &&& c.subject@ == row.subject@
                &&& c.predicate@ == row.predicate@
                &&& crate::cite::opt_view(c.object) == crate::cite::opt_view(row.object)
                &&& c.note_id@ == row.note_id@
                &&& c.span_start == row.span_start
                &&& c.span_end == row.span_end
                &&& c.span_fingerprint@ == row.span_fingerprint@
                &&& Some(c.valid_from) == rfc3339_timestamp(row.valid_from@)
                &&& c.valid_until == match row.valid_until {
                    Some(t) => rfc3339_timestamp(t@),
                    None => None,
                }
                &&& c.confidence_millionths == row.confidence_millionths
                &&& Some(c.privacy) == privacy_named(row.privacy@)
                &&& c.extracted_by@ == row.extracted_by@
                &&& Some(c.extracted_at) == rfc3339_timestamp(row.extracted_at@)
            },
        },
{
    if row.span_start < 0 || row.span_start as i128 > usize::MAX as i128 {
        return row_error(offset + 5, "span_start is negative or too large");
    }
    if row.span_end < 0 || row.span_end as i128 > usize::MAX as i128 {
        return row_error(offset + 6, "span_end is negative or too large");
    }
    let valid_from = match parse_rfc3339_text(row.valid_from.as_str()) {
        Some(t) => t,
        None => return row_error(offset + 8, "valid_from is not an RFC 3339 date-time"),
    };
    let valid_until = match &row.valid_until {
        Some(v) => match parse_rfc3339_text(v.as_str()) {
            Some(t) => Some(t),
            None => return row_error(offset + 9, "valid_until is not an RFC 3339 date-time"),
        },
        None => None,
    };
    let privacy = match Privacy::parse(row.privacy.as_str()) {
        Some(p) => p,
        None => return row_error(offset + 11, "privacy is not a privacy level"),
    };
    let extracted_at = match parse_rfc3339_text(row.extracted_at.as_str()) {
        Some(t) => t,
        None => return row_error(offset + 13, "extracted_at is not an RFC 3339 date-time"),
    };
    Ok(Claim {
        id: row.id.clone(),
        subject: row.subject.clone(),
        predicate: row.predicate.clone(),
        object: match &row.object {
            Some(o) => Some(o.clone()),
            None => None,
        },
        note_id: row.note_id.clone(),
        span_start: row.span_start as usize,
        span_end: row.span_end as usize,
        span_fingerprint: row.span_fingerprint.clone(),
        valid_from,
        valid_until,
        confidence_millionths: row.confidence_millionths,
        privacy,
        extracted_by: row.extracted_by.clone(),
        extracted_at,
    })
}

} // verus!
