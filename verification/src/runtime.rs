//! Decisions made when the command line opens a vault: which model provider
//! the configuration names, whether a cloud provider may be used, and which
//! embedder is built.
use vstd::prelude::*;
use crate::config::{EmbedConfig, LlmConfig};
use crate::entailment::trimmed;
use crate::extract::trimmed_field;
use crate::text::{str_eq, string_of};
use crate::claims::push_str_chars;

verus! {

/// A language model provider.
#[derive(Debug, Clone, Copy, PartialEq, Eq, Structural)]
pub enum LlmProvider {
    Anthropic,
    OpenAi,
    Ollama,
}

/// The provider a configured name stands for; unknown names mean the local
/// Ollama provider.
pub open spec fn provider_named(name: Seq<char>) -> LlmProvider {
    if name == "anthropic"@ {
        LlmProvider::Anthropic
    } else if name == "openai"@ {
        LlmProvider::OpenAi
    } else {
        LlmProvider::Ollama
    }
}

/// The provider named in `[llm] provider`.
pub fn provider_from_config(cfg: &LlmConfig) -> (r: LlmProvider)
    ensures
        r == provider_named(cfg.provider@),
{
    if str_eq(cfg.provider.as_str(), "anthropic") {
        LlmProvider::Anthropic
    } else if str_eq(cfg.provider.as_str(), "openai") {
        LlmProvider::OpenAi
    } else {
        LlmProvider::Ollama
    }
}

/// Whether the provider sends prompts off the machine.
pub open spec fn spec_is_cloud(p: LlmProvider) -> bool {
    p is Anthropic || p is OpenAi
}

/// Whether the provider sends prompts off the machine.
pub fn is_cloud_provider(provider: LlmProvider) -> (r: bool)
    ensures
        r == spec_is_cloud(provider),
{
    match provider {
        LlmProvider::Anthropic | LlmProvider::OpenAi => true,
        LlmProvider::Ollama => false,
    }
}

/// Whether an embedding provider sends text off the machine.
pub fn is_cloud_embed_provider(provider: &str) -> (r: bool)
    ensures
        r == (provider@ == "openai"@),
{
    str_eq(provider, "openai")
}

/// The refusal for a cloud language model while network access is off.
pub open spec fn llm_gate_message(provider: Seq<char>) -> Seq<char> {
    "LLM provider `"@ + provider
        + "` sends prompts to a cloud endpoint, but network LLM access is disabled. Set MEMORA_ENABLE_NETWORK_LLM=1 to allow it, or use a local provider (`[llm] provider = \"ollama\"`)."@
}

/// The refusal for a cloud embedder while network access is off.
pub open spec fn embed_gate_message(provider: Seq<char>) -> Seq<char> {
    "embed provider `"@ + provider
        + "` sends note bodies and query text to a cloud endpoint, but network LLM access is disabled. Set MEMORA_ENABLE_NETWORK_LLM=1 to allow it, or use a local provider (`[embed] provider = \"ollama\"` or `\"deterministic\"`)."@
}

/// The provider to build a client for: a cloud provider is refused unless
/// network access is enabled; local providers always pass.
pub fn gate_llm_provider(cfg: &LlmConfig, network_enabled: bool) -> (r: Result<LlmProvider, String>)
    ensures
        r is Err <==> (spec_is_cloud(provider_named(cfg.provider@)) && !network_enabled),
        r is Ok ==> r->Ok_0 == provider_named(cfg.provider@),
        r is Err ==> r->Err_0@ == llm_gate_message(cfg.provider@),
{
    let provider = provider_from_config(cfg);
    if is_cloud_provider(provider) && !network_enabled {
        let mut msg: Vec<char> = Vec::new();
        push_str_chars(&mut msg, "LLM provider `");
        push_str_chars(&mut msg, cfg.provider.as_str());
        push_str_chars(
            &mut msg,
            "` sends prompts to a cloud endpoint, but network LLM access is disabled. Set MEMORA_ENABLE_NETWORK_LLM=1 to allow it, or use a local provider (`[llm] provider = \"ollama\"`).",
        );
        return Err(string_of(&msg));
    }
    Ok(provider)
}

/// The message of an embed refusal for `provider`.
fn embed_refusal(provider: &str) -> (r: String)
    ensures
        r@ == embed_gate_message(provider@),
{
    let mut msg: Vec<char> = Vec::new();
    push_str_chars(&mut msg, "embed provider `");
    push_str_chars(&mut msg, provider);
    push_str_chars(
        &mut msg,
        "` sends note bodies and query text to a cloud endpoint, but network LLM access is disabled. Set MEMORA_ENABLE_NETWORK_LLM=1 to allow it, or use a local provider (`[embed] provider = \"ollama\"` or `\"deterministic\"`).",
    );
    string_of(&msg)
}

/// Whether the configured embedder may be built: a cloud embedder is refused
/// unless network access is enabled.
pub fn gate_embed_provider(cfg: &EmbedConfig, network_enabled: bool) -> (r: Result<(), String>)
    ensures
        r is Err <==> (cfg.provider@ == "openai"@ && !network_enabled),
        r is Err ==> r->Err_0@ == embed_gate_message(cfg.provider@),
{
    if is_cloud_embed_provider(cfg.provider.as_str()) && !network_enabled {
        return Err(embed_refusal(cfg.provider.as_str()));
    }
    Ok(())
}

/// The message when no embedding model is configured.
pub open spec fn no_embedding_model_message() -> Seq<char> {
    "no embedding model configured. Set [embed].embedding_model in .memora/config.toml (e.g. \"nomic-embed-text\") or [llm].embedding_model for legacy setups."@
}

/// The embedding model for a local embedder: `[embed].embedding_model`, else
/// `[llm].embedding_model`, each trimmed and only when not blank.
pub open spec fn spec_embedding_model(embed: EmbedConfig, llm: LlmConfig) -> Option<Seq<char>> {
    match trimmed_field(embed.embedding_model) {
        Some(m) => Some(m),
        None => trimmed_field(llm.embedding_model),
    }
}

/// The trimmed text of an optional setting, when not blank.
fn trimmed_setting(f: &Option<String>) -> (r: Option<String>)
    ensures
        match r {
            Some(s) => trimmed_field(*f) == Some(s@),
            None => trimmed_field(*f) is None,
        },
{
    match f {
        Some(s) => {
            let t = trimmed(s.as_str());
            if t.unicode_len() > 0 {
                Some(t)
            } else {
                None
            }
        },
        None => None,
    }
}

/// The embedding model for a local embedder (see `spec_embedding_model`), or
/// an error saying where to set one.
pub fn resolve_ollama_embedding_model(embed: &EmbedConfig, llm: &LlmConfig) -> (r: Result<
    String,
    String,
>)
    ensures
        match spec_embedding_model(*embed, *llm) {
            Some(m) => r is Ok && r->Ok_0@ == m,
            None => r is Err && r->Err_0@ == no_embedding_model_message(),
        },
{
    match trimmed_setting(&embed.embedding_model) {
        Some(m) => Ok(m),
        None => match trimmed_setting(&llm.embedding_model) {
            Some(m) => Ok(m),
            None => Err(
                "no embedding model configured. Set [embed].embedding_model in .memora/config.toml (e.g. \"nomic-embed-text\") or [llm].embedding_model for legacy setups.".to_string(),
            ),
        },
    }
}

/// Which embedder to build, with what it is built from.
#[derive(Debug, Clone)]
pub enum EmbedderPlan {
    /// A local model server.
    Ollama { embedding_model: String, endpoint: Option<String>, chat_model: String, dim: usize },
    /// The OpenAI embeddings service.
    OpenAi,
    /// Hash-derived vectors of the given dimension, with no model at all.
    Deterministic { dim: usize },
}

/// The chat model used by the local model server when none is configured.
pub open spec fn default_chat_model() -> Seq<char> {
    "llama3.1:8b"@
}

/// `Some(s)` when the option holds a string, by its view.
pub open spec fn opt_view(o: Option<String>) -> Option<Seq<char>> {
    match o {
        Some(s) => Some(s@),
        None => None,
    }
}

/// A copy of an optional string.
fn clone_opt(o: &Option<String>) -> (r: Option<String>)
    ensures
        opt_view(r) == opt_view(*o),
{
    match o {
        Some(s) => Some(s.clone()),
        None => None,
    }
}

/// The embedder the configuration asks for. `ollama` needs an embedding model
/// (see `resolve_ollama_embedding_model`) and takes the embed endpoint, else the
/// llm one; `openai` is refused while network access is off; any other value
/// is the local deterministic embedder.
pub fn build_embedder(embed: &EmbedConfig, llm: &LlmConfig, network_enabled: bool) -> (r: Result<
    EmbedderPlan,
    String,
>)
    ensures
        embed.provider@ == "ollama"@ ==> match spec_embedding_model(*embed, *llm) {
            None => r is Err && r->Err_0@ == no_embedding_model_message(),
            Some(m) => match r {
                Ok(EmbedderPlan::Ollama { embedding_model, endpoint, chat_model, dim }) => {
                    &&& embedding_model@ == m
                    &&& opt_view(endpoint) == (if embed.endpoint is Some {
                        opt_view(embed.endpoint)
                    } else {
                        opt_view(llm.endpoint)
                    })
                    &&& chat_model@ == (match llm.model {
                        Some(cm) => cm@,
                        None => default_chat_model(),
                    })
                    &&& dim == embed.dim
                },
                _ => false,
            },
        },
        embed.provider@ == "openai"@ ==> (if network_enabled {
            r == Ok::<EmbedderPlan, String>(EmbedderPlan::OpenAi)
        } else {
            r is Err && r->Err_0@ == embed_gate_message("openai"@)
        }),
        embed.provider@ != "ollama"@ && embed.provider@ != "openai"@ ==> r
            == Ok::<EmbedderPlan, String>(EmbedderPlan::Deterministic { dim: embed.dim }),
{
    proof {
        reveal_strlit("ollama");
        reveal_strlit("openai");
        assert("ollama"@[1] != "openai"@[1]);
    }
    if str_eq(embed.provider.as_str(), "ollama") {
        let embedding_model = match resolve_ollama_embedding_model(embed, llm) {
            Ok(m) => m,
            Err(e) => return Err(e),
        };
        let endpoint = if embed.endpoint.is_some() {
            clone_opt(&embed.endpoint)
        } else {
            clone_opt(&llm.endpoint)
        };
        let chat_model = match &llm.model {
            Some(m) => m.clone(),
            None => "llama3.1:8b".to_string(),
        };
        Ok(EmbedderPlan::Ollama { embedding_model, endpoint, chat_model, dim: embed.dim })
    } else if str_eq(embed.provider.as_str(), "openai") {
        if !network_enabled {
            return Err(embed_refusal("openai"));
        }
        Ok(EmbedderPlan::OpenAi)
    } else {
        Ok(EmbedderPlan::Deterministic { dim: embed.dim })
    }
}

/// An opened vault: the directory that holds the notes.
#[derive(Debug, Clone)]
pub struct Vault {
    pub root: String,
}

impl Vault {
    /// A vault rooted at `root`.
    pub fn new(root: String) -> (r: Vault)
        ensures
            r.root@ == root@,
    {
        Vault { root }
    }
}

/// The vault rooted at the given directory.
pub fn open_vault(vault: &str) -> (r: Vault)
    ensures
        r.root@ == vault@,
{
    Vault::new(vault.to_string())
}

} // verus!
