//! Memora: citation verification, claim analysis and note text processing.
pub mod privacy;
pub mod text;
pub mod cite;
pub mod claims;
pub mod validator;
pub mod entailment;
pub mod privacy_markers;
pub mod extract;
pub mod verdict;
pub mod order;
pub mod challenger;
pub mod atlas;
pub mod review;
pub mod answer;
pub mod store;
pub mod ingest;
pub mod config;
pub mod runtime;
pub mod cli;
pub mod privacy_audit;
pub mod verify_cmd;
pub mod report;
pub mod embed;
pub mod contradict;
pub mod challenge_report;
pub mod world_map;
pub mod stale;
pub mod atlas_prompts;
pub mod note_text;
pub mod report_assets;
pub mod report_graph;
