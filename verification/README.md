# memora

A personal knowledge vault that answers questions from your notes and cites
each statement with a `[claim:ID]` marker pointing at a claim extracted from a
note. A citation counts only when the quoted text is found in the cited span of
the note, the span still has the fingerprint recorded at extraction time (or
its 16-digit prefix, for claims indexed before full fingerprints), and the
claim has not been retracted; a retracted claim is reported as superseded.
Sentences citing anything else are dropped from the answer.

The library in `src/` is written in Verus and verified: every public function
states what it returns in its `ensures` clause, and the laws of the library are
public proof functions, among them:

- `cite::lemma_rewrite_cites_only_verified`: an answer rewritten with the
  verified ids cites no other id;
- `validator::lemma_verified_iff_proven`: a citation is verified exactly when
  its claim is known, the cited span can be read, the span's text matches the
  stored fingerprint, any quote before the citation is found in the span and
  the claim's validity has not ended; superseded exactly when all of that
  holds but the validity has ended;
- `cite::lemma_written_marker_is_found`: a marker written for a claim id is
  parsed back as that id;
- `note_text::lemma_rendered_note_body`: a rendered note file reads back its
  body;
- `ingest::lemma_clean_text_idempotent` and `ingest::lemma_cleaned_is_tidy`:
  cleaning extracted text twice changes nothing, and cleaned text has no
  carriage returns, form feeds, runs of three line breaks or stray whitespace;
- `atlas::lemma_subjects_ascending`: claims grouped by subject come in strictly
  ascending subject order;
- `lemma_unescape_escaped` (HTML escaping): decoding escaped text gives it back;
- `stale::lemma_stale_claims_complete`: staleness reaches every claim derived,
  directly or not, from an edited source;
- `claims::lemma_own_fingerprint_matches`, `order::lemma_rank_order_sorted`,
  `report::lemma_script_escaped_is_inert`, `ingest::lemma_slug_is_filesystem_safe`,
  `lemma_escaped_has_no_markup` (HTML escaping, in the module of answer views)
  and the round trips of relation and privacy names.

Claim times are nanoseconds since the Unix epoch. Calls into outside crates
(BLAKE3, `regex`, `chrono`, `serde_json`, `scraper`)
stand behind small trusted wrappers whose contracts say what those crates
document.

`app/` is the command line around the library: argument parsing, files,
reading an existing SQLite index (`verify`, `claims show`, `report`, `doctor`)
and the terminal. It has no command that builds the index, asks a language
model or consolidates regions. `tests/` runs the library on concrete values.
