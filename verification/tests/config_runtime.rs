use memora::config::{choose_config_source, config_path, join_path, AppConfig, EmbedConfig, FrontmatterConfig, LlmConfig, RefsSyncMode};
use memora::runtime::{
    build_embedder, gate_embed_provider, gate_llm_provider, is_cloud_embed_provider, is_cloud_provider, open_vault,
    provider_from_config, resolve_ollama_embedding_model, EmbedderPlan, LlmProvider,
};

fn llm(provider: &str) -> LlmConfig {
    LlmConfig { provider: provider.into(), model: None, embedding_model: None, endpoint: None }
}

#[test]
fn resolve_prefers_embed_embedding_model_over_llm_chat_model() {
    let embed = EmbedConfig {
        provider: "ollama".into(),
        model: "unused-for-ollama-embeddings".into(),
        dim: 768,
        embedding_model: Some("nomic-embed-text".into()),
        endpoint: None,
    };
    let llm = LlmConfig {
        provider: "ollama".into(),
        model: Some("qwen2.5:14b-instruct-q5_K_M".into()),
        embedding_model: None,
        endpoint: None,
    };
    let m = resolve_ollama_embedding_model(&embed, &llm).expect("resolve");
    assert_eq!(m, "nomic-embed-text");
    assert_ne!(m, "qwen2.5:14b-instruct-q5_K_M");
}

#[test]
fn config_returns_default_when_neither() {
    let chosen = choose_config_source("vault/.memora/config.toml", false, Some("home/.config/memora/config.toml"), false);
    assert_eq!(chosen, None);
    let cfg = AppConfig::default();
    assert_eq!(cfg.llm.provider, "ollama");
    assert_eq!(cfg.embed.model, "memora-cli/deterministic");
    assert_eq!(cfg.indexing.parallelism, 8);
}

#[test]
fn config_source_prefers_vault_then_global() {
    assert_eq!(choose_config_source("v.toml", true, Some("g.toml"), true).as_deref(), Some("v.toml"));
    assert_eq!(choose_config_source("v.toml", false, Some("g.toml"), true).as_deref(), Some("g.toml"));
    assert_eq!(choose_config_source("v.toml", false, None, true), None);
}

#[test]
fn app_config_defaults_match_documentation() {
    let cfg = AppConfig::default();
    assert_eq!(cfg.embed.provider, "deterministic");
    assert_eq!(cfg.embed.dim, 64);
    assert_eq!(cfg.retrieval.top_k, 5);
    assert_eq!(cfg.watch.debounce_ms, 250);
    assert_eq!(cfg.frontmatter.refs_mode, "sync_from_wikilinks");
    assert_eq!(cfg.consolidation.daily_at, "03:00");
    assert_eq!(cfg.challenger.daily_at, "07:00");
    assert_eq!(cfg.privacy.default_note_privacy, "private");
    assert!(cfg.privacy.redact_secret_in_cloud);
    assert!(cfg.privacy.warn_on_secret_query);
    assert_eq!(cfg.llm.model, None);
}

#[test]
fn refs_mode_parses_known_values_and_rejects_others() {
    let ok = FrontmatterConfig { refs_mode: "manual".into() };
    assert_eq!(ok.refs_sync_mode(), Ok(RefsSyncMode::Manual));
    let sync = FrontmatterConfig { refs_mode: "sync_from_wikilinks".into() };
    assert_eq!(sync.refs_sync_mode(), Ok(RefsSyncMode::SyncFromWikilinks));
    let bad = FrontmatterConfig { refs_mode: "auto".into() };
    assert_eq!(
        bad.refs_sync_mode(),
        Err("invalid frontmatter.refs_mode `auto`; expected `sync_from_wikilinks` or `manual`".to_string())
    );
}

#[test]
fn config_path_joins_like_path_join() {
    assert_eq!(config_path("vault"), "vault/.memora/config.toml");
    assert_eq!(config_path("vault/"), "vault/.memora/config.toml");
    assert_eq!(config_path(""), ".memora/config.toml");
    assert_eq!(join_path("a", "b"), "a/b");
}

#[test]
fn provider_names_map_to_providers() {
    assert_eq!(provider_from_config(&llm("anthropic")), LlmProvider::Anthropic);
    assert_eq!(provider_from_config(&llm("openai")), LlmProvider::OpenAi);
    assert_eq!(provider_from_config(&llm("ollama")), LlmProvider::Ollama);
    assert_eq!(provider_from_config(&llm("something-else")), LlmProvider::Ollama);
    assert!(is_cloud_provider(LlmProvider::Anthropic));
    assert!(!is_cloud_provider(LlmProvider::Ollama));
    assert!(is_cloud_embed_provider("openai"));
    assert!(!is_cloud_embed_provider("ollama"));
}

#[test]
fn cloud_llm_is_gated_by_network_flag() {
    let err = gate_llm_provider(&llm("anthropic"), false).unwrap_err();
    assert!(err.contains("MEMORA_ENABLE_NETWORK_LLM"));
    assert!(err.starts_with("LLM provider `anthropic` sends prompts"));
    assert_eq!(gate_llm_provider(&llm("anthropic"), true), Ok(LlmProvider::Anthropic));
    assert_eq!(gate_llm_provider(&llm("ollama"), false), Ok(LlmProvider::Ollama));
}

#[test]
fn cloud_embed_provider_is_gated_without_network_flag() {
    let openai = EmbedConfig { provider: "openai".into(), model: "text-embedding-3-small".into(), dim: 1536, embedding_model: None, endpoint: None };
    let err = gate_embed_provider(&openai, false).unwrap_err();
    assert!(err.contains("MEMORA_ENABLE_NETWORK_LLM"));
    assert_eq!(gate_embed_provider(&openai, true), Ok(()));
    let local = EmbedConfig { provider: "deterministic".into(), model: "unused".into(), dim: 64, embedding_model: None, endpoint: None };
    assert_eq!(gate_embed_provider(&local, false), Ok(()));
}

#[test]
fn embedder_plan_follows_provider() {
    let local = EmbedConfig { provider: "deterministic".into(), model: "unused".into(), dim: 64, embedding_model: None, endpoint: None };
    assert!(matches!(build_embedder(&local, &llm("ollama"), false), Ok(EmbedderPlan::Deterministic { dim: 64 })));
    let openai = EmbedConfig { provider: "openai".into(), model: "m".into(), dim: 8, embedding_model: None, endpoint: None };
    assert!(build_embedder(&openai, &llm("ollama"), false).unwrap_err().contains("embed provider `openai`"));
    assert!(matches!(build_embedder(&openai, &llm("ollama"), true), Ok(EmbedderPlan::OpenAi)));
    let ollama = EmbedConfig { provider: "ollama".into(), model: "m".into(), dim: 768, embedding_model: Some("  nomic-embed-text ".into()), endpoint: None };
    let chat = LlmConfig { provider: "ollama".into(), model: None, embedding_model: None, endpoint: Some("http://h:1".into()) };
    match build_embedder(&ollama, &chat, false) {
        Ok(EmbedderPlan::Ollama { embedding_model, endpoint, chat_model, dim }) => {
            assert_eq!(embedding_model, "nomic-embed-text");
            assert_eq!(endpoint.as_deref(), Some("http://h:1"));
            assert_eq!(chat_model, "llama3.1:8b");
            assert_eq!(dim, 768);
        }
        other => panic!("unexpected plan: {other:?}"),
    }
    let missing = EmbedConfig { provider: "ollama".into(), model: "m".into(), dim: 768, embedding_model: Some("   ".into()), endpoint: None };
    assert!(build_embedder(&missing, &llm("ollama"), false).unwrap_err().starts_with("no embedding model configured"));
}

#[test]
fn legacy_llm_embedding_model_is_the_fallback() {
    let embed = EmbedConfig { provider: "ollama".into(), model: "m".into(), dim: 1, embedding_model: None, endpoint: None };
    let legacy = LlmConfig { provider: "ollama".into(), model: None, embedding_model: Some("mxbai".into()), endpoint: None };
    assert_eq!(resolve_ollama_embedding_model(&embed, &legacy), Ok("mxbai".to_string()));
}

#[test]
fn open_vault_keeps_root() {
    assert_eq!(open_vault("notes").root, "notes");
}
