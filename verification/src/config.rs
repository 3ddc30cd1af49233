//! Vault configuration: the sections of `.memora/config.toml`, their defaults,
//! and where the file lives.
use vstd::prelude::*;
use crate::text::{has_suffix, ends_with, str_eq, string_of};
use crate::claims::push_str_chars;

verus! {

/// How note references in frontmatter are kept up to date.
#[derive(Debug, Clone, Copy, PartialEq, Eq, Structural)]
pub enum RefsSyncMode {
    SyncFromWikilinks,
    Manual,
}

impl Default for RefsSyncMode {
    fn default() -> (r: Self)
        ensures
            r == RefsSyncMode::SyncFromWikilinks,
    {
        RefsSyncMode::SyncFromWikilinks
    }
}

/// `[llm]`: the language model provider.
#[derive(Debug, Clone)]
pub struct LlmConfig {
    pub provider: String,
    pub model: Option<String>,
    /// Used for embeddings when `[embed] provider = "ollama"`; falls back to `model`.
    pub embedding_model: Option<String>,
    /// Base URL of a local model server.
    pub endpoint: Option<String>,
}

impl Default for LlmConfig {
    fn default() -> (r: Self)
        ensures
            r.provider@ == "ollama"@,
            r.model is None,
            r.embedding_model is None,
            r.endpoint is None,
    {
        LlmConfig { provider: "ollama".to_string(), model: None, embedding_model: None, endpoint: None }
    }
}

/// Number of notes indexed concurrently unless configured otherwise.
pub fn default_index_parallelism() -> (r: usize)
    ensures
        r == 8,
{
    8
}

/// `[indexing]`.
#[derive(Debug, Clone)]
pub struct IndexingConfig {
    pub parallelism: usize,
}

impl Default for IndexingConfig {
    fn default() -> (r: Self)
        ensures
            r.parallelism == 8,
    {
        IndexingConfig { parallelism: default_index_parallelism() }
    }
}

/// `[embed]`: the embedding provider.
#[derive(Debug, Clone)]
pub struct EmbedConfig {
    pub provider: String,
    pub model: String,
    pub dim: usize,
    /// Model name for local embeddings; preferred over `[llm].embedding_model`.
    pub embedding_model: Option<String>,
    /// Base URL for embeddings only; defaults to `[llm].endpoint`.
    pub endpoint: Option<String>,
}

impl Default for EmbedConfig {
    fn default() -> (r: Self)
        ensures
            r.provider@ == "deterministic"@,
            r.model@ == "memora-cli/deterministic"@,
            r.dim == 64,
            r.embedding_model is None,
            r.endpoint is None,
    {
        EmbedConfig {
            provider: "deterministic".to_string(),
            model: "memora-cli/deterministic".to_string(),
            dim: 64,
            embedding_model: None,
            endpoint: None,
        }
    }
}

/// `[retrieval]`.
#[derive(Debug, Clone)]
pub struct RetrievalConfig {
    pub top_k: usize,
}

impl Default for RetrievalConfig {
    fn default() -> (r: Self)
        ensures
            r.top_k == 5,
    {
        RetrievalConfig { top_k: 5 }
    }
}

/// `[watch]`.
#[derive(Debug, Clone)]
pub struct WatchConfig {
    pub debounce_ms: u64,
}

impl Default for WatchConfig {
    fn default() -> (r: Self)
        ensures
            r.debounce_ms == 250,
    {
        WatchConfig { debounce_ms: 250 }
    }
}

/// `[frontmatter]`.
#[derive(Debug, Clone)]
pub struct FrontmatterConfig {
    pub refs_mode: String,
}

/// The message for an unknown `refs_mode` value.
pub open spec fn invalid_refs_mode_message(other: Seq<char>) -> Seq<char> {
    "invalid frontmatter.refs_mode `"@ + other + "`; expected `sync_from_wikilinks` or `manual`"@
}

impl FrontmatterConfig {
    /// The configured references mode: `sync_from_wikilinks` or `manual`, any
    /// other value is an error naming it.
    pub fn refs_sync_mode(&self) -> (r: Result<RefsSyncMode, String>)
        ensures
            self.refs_mode@ == "sync_from_wikilinks"@ ==> r == Ok::<RefsSyncMode, String>(
                RefsSyncMode::SyncFromWikilinks,
            ),
            self.refs_mode@ == "manual"@ ==> r == Ok::<RefsSyncMode, String>(RefsSyncMode::Manual),
            self.refs_mode@ != "sync_from_wikilinks"@ && self.refs_mode@ != "manual"@ ==> (
            r is Err && r->Err_0@ == invalid_refs_mode_message(self.refs_mode@)),
    {
        proof {
            reveal_strlit("sync_from_wikilinks");
            reveal_strlit("manual");
            assert("manual"@.len() != "sync_from_wikilinks"@.len());
        }
        if str_eq(self.refs_mode.as_str(), "sync_from_wikilinks") {
            Ok(RefsSyncMode::SyncFromWikilinks)
        } else if str_eq(self.refs_mode.as_str(), "manual") {
            Ok(RefsSyncMode::Manual)
        } else {
            let mut msg: Vec<char> = Vec::new();
            push_str_chars(&mut msg, "invalid frontmatter.refs_mode `");
            push_str_chars(&mut msg, self.refs_mode.as_str());
            push_str_chars(&mut msg, "`; expected `sync_from_wikilinks` or `manual`");
            Err(string_of(&msg))
        }
    }
}

impl Default for FrontmatterConfig {
    fn default() -> (r: Self)
        ensures
            r.refs_mode@ == "sync_from_wikilinks"@,
    {
        FrontmatterConfig { refs_mode: "sync_from_wikilinks".to_string() }
    }
}

/// `[consolidation]`.
#[derive(Debug, Clone)]
pub struct ConsolidationConfig {
    pub daily_at: String,
}

impl Default for ConsolidationConfig {
    fn default() -> (r: Self)
        ensures
            r.daily_at@ == "03:00"@,
    {
        ConsolidationConfig { daily_at: "03:00".to_string() }
    }
}

/// `[challenger]`.
#[derive(Debug, Clone)]
pub struct ChallengerConfig {
    pub daily_at: String,
}

impl Default for ChallengerConfig {
    fn default() -> (r: Self)
        ensures
            r.daily_at@ == "07:00"@,
    {
        ChallengerConfig { daily_at: "07:00".to_string() }
    }
}

/// `[privacy]`, as written in the file.
#[derive(Debug, Clone)]
pub struct PrivacyConfig {
    pub default_note_privacy: String,
    pub redact_secret_in_cloud: bool,
    pub warn_on_secret_query: bool,
}

impl Default for PrivacyConfig {
    fn default() -> (r: Self)
        ensures
            r.default_note_privacy@ == "private"@,
            r.redact_secret_in_cloud,
            r.warn_on_secret_query,
    {
        PrivacyConfig {
            default_note_privacy: "private".to_string(),
            redact_secret_in_cloud: true,
            warn_on_secret_query: true,
        }
    }
}

/// The whole configuration file.
#[derive(Debug, Clone)]
pub struct AppConfig {
    pub llm: LlmConfig,
    pub embed: EmbedConfig,
    pub indexing: IndexingConfig,
    pub retrieval: RetrievalConfig,
    pub watch: WatchConfig,
    pub frontmatter: FrontmatterConfig,
    pub consolidation: ConsolidationConfig,
    pub challenger: ChallengerConfig,
    pub privacy: PrivacyConfig,
}

impl Default for AppConfig {
    fn default() -> (r: Self)
        ensures
            r.llm.provider@ == "ollama"@,
            r.llm.model is None,
            r.llm.embedding_model is None,
            r.llm.endpoint is None,
            r.embed.provider@ == "deterministic"@,
            r.embed.model@ == "memora-cli/deterministic"@,
            r.embed.dim == 64,
            r.embed.embedding_model is None,
            r.embed.endpoint is None,
            r.indexing.parallelism == 8,
            r.retrieval.top_k == 5,
            r.watch.debounce_ms == 250,
            r.frontmatter.refs_mode@ == "sync_from_wikilinks"@,
            r.consolidation.daily_at@ == "03:00"@,
            r.challenger.daily_at@ == "07:00"@,
            r.privacy.default_note_privacy@ == "private"@,
            r.privacy.redact_secret_in_cloud,
            r.privacy.warn_on_secret_query,
    {
        AppConfig {
            llm: LlmConfig::default(),
            embed: EmbedConfig::default(),
            indexing: IndexingConfig::default(),
            retrieval: RetrievalConfig::default(),
            watch: WatchConfig::default(),
            frontmatter: FrontmatterConfig::default(),
            consolidation: ConsolidationConfig::default(),
            challenger: ChallengerConfig::default(),
            privacy: PrivacyConfig::default(),
        }
    }
}

/// `Path::join` of a relative component onto a base path: the component alone
/// when the base is empty, otherwise the base, a `/` unless it already ends in
/// one, and the component.
pub open spec fn path_join(base: Seq<char>, part: Seq<char>) -> Seq<char> {
    if base.len() == 0 {
        part
    } else if has_suffix(base, "/"@) {
        base + part
    } else {
        base + "/"@ + part
    }
}

/// Joins a relative component onto a path (see `path_join`).
pub fn join_path(base: &str, part: &str) -> (r: String)
    ensures
        r@ == path_join(base@, part@),
{
    if base.unicode_len() == 0 {
        return part.to_string();
    }
    let mut out: Vec<char> = Vec::new();
    push_str_chars(&mut out, base);
    if !ends_with(base, "/") {
        out.push('/');
    }
    push_str_chars(&mut out, part);
    proof {
        reveal_strlit("/");
    }
    string_of(&out)
}

/// The vault's own configuration file: `<vault>/.memora/config.toml`.
pub fn config_path(vault_root: &str) -> (r: String)
    ensures
        r@ == path_join(path_join(vault_root@, ".memora"@), "config.toml"@),
{
    let dir = join_path(vault_root, ".memora");
    join_path(dir.as_str(), "config.toml")
}

/// Which file the configuration is read from: the vault's own file when it
/// exists, else the global file when it is given and exists, else none (the
/// defaults apply).
pub fn choose_config_source(
    vault_config: &str,
    vault_exists: bool,
    global_config: Option<&str>,
    global_exists: bool,
) -> (r: Option<String>)
    ensures
        vault_exists ==> r is Some && r->0@ == vault_config@,
        !vault_exists && global_config is Some && global_exists ==> r is Some && r->0@
            == global_config->0@,
        !vault_exists && (global_config is None || !global_exists) ==> r is None,
{
    if vault_exists {
        Some(vault_config.to_string())
    } else {
        match global_config {
            Some(g) => if global_exists {
                Some(g.to_string())
            } else {
                None
            },
            None => None,
        }
    }
}

} // verus!
