//! Privacy levels and how inline privacy markers combine with a note's level.
use vstd::prelude::*;

verus! {

/// Privacy band of a note or claim, from least to most restrictive.
#[derive(Debug, Clone, Copy, PartialEq, Eq, Structural)]
pub enum Privacy {
    Public,
    Private,
    Secret,
}

impl Privacy {
    /// Position of the level in the order Public < Private < Secret.
    pub open spec fn spec_rank(self) -> nat {
        match self {
            Privacy::Public => 0,
            Privacy::Private => 1,
            Privacy::Secret => 2,
        }
    }

    /// Numeric rank of the level (0, 1 or 2).
    pub fn rank(self) -> (r: u8)
        ensures
            r == self.spec_rank(),
    {
        match self {
            Privacy::Public => 0,
            Privacy::Private => 1,
            Privacy::Secret => 2,
        }
    }

    /// The more restrictive of two levels.
    pub fn max_level(self, other: Privacy) -> (r: Privacy)
        ensures
            r == spec_max_privacy(self, other),
    {
        if other.rank() > self.rank() {
            other
        } else {
            self
        }
    }
}

/// The more restrictive of two levels.
pub open spec fn spec_max_privacy(a: Privacy, b: Privacy) -> Privacy {
    if b.spec_rank() > a.spec_rank() {
        b
    } else {
        a
    }
}

/// The lower-case name of a level.
pub open spec fn privacy_name(p: Privacy) -> Seq<char> {
    match p {
        Privacy::Public => "public"@,
        Privacy::Private => "private"@,
        Privacy::Secret => "secret"@,
    }
}

/// The level with a given lower-case name.
pub open spec fn privacy_named(s: Seq<char>) -> Option<Privacy> {
    if s == "public"@ {
        Some(Privacy::Public)
    } else if s == "private"@ {
        Some(Privacy::Private)
    } else if s == "secret"@ {
        Some(Privacy::Secret)
    } else {
        None
    }
}

impl Privacy {
    /// The lower-case name of the level.
    pub fn as_str(self) -> (r: &'static str)
        ensures
            r@ == privacy_name(self),
    {
        match self {
            Privacy::Public => "public",
            Privacy::Private => "private",
            Privacy::Secret => "secret",
        }
    }

    /// The level with the given lower-case name, if any.
    pub fn parse(s: &str) -> (r: Option<Privacy>)
        ensures
            r == privacy_named(s@),
    {
        if crate::text::str_eq(s, "public") {
            Some(Privacy::Public)
        } else if crate::text::str_eq(s, "private") {
            Some(Privacy::Private)
        } else if crate::text::str_eq(s, "secret") {
            Some(Privacy::Secret)
        } else {
            None
        }
    }
}

/// Naming a level and reading the name back gives the level.
pub proof fn lemma_privacy_name_round_trip(p: Privacy)
    ensures
        privacy_named(privacy_name(p)) == Some(p),
{
    reveal_strlit("public");
    reveal_strlit("private");
    reveal_strlit("secret");
    assert("public"@.len() == 6 && "private"@.len() == 7 && "secret"@.len() == 6);
    assert("public"@[0] != "secret"@[0]);
}


/// How privacy levels are applied when answering.
#[derive(Debug, Clone, Copy, PartialEq, Eq, Structural)]
pub struct PrivacyConfig {
    /// Level of a note that does not state one.
    pub default_note_privacy: Privacy,
    /// Withhold secret material from cloud models.
    pub redact_secret_in_cloud: bool,
    /// Warn when a query touches secret material.
    pub warn_on_secret_query: bool,
}

impl Default for PrivacyConfig {
    fn default() -> (r: Self)
        ensures
            r.default_note_privacy == Privacy::Private,
            r.redact_secret_in_cloud,
            r.warn_on_secret_query,
    {
        PrivacyConfig {
            default_note_privacy: Privacy::Private,
            redact_secret_in_cloud: true,
            warn_on_secret_query: true,
        }
    }
}

} // verus!
