//! Plain records exchanged with the collaborators around the engine:
//! messaging channels, model providers, memory, the package registry and the
//! resident agent's settings.
use vstd::prelude::*;

verus! {

/// A message received on a channel.
#[derive(Debug, Clone)]
pub struct InboundMessage {
    pub content: String,
    pub sender: String,
    pub channel_id: String,
}

/// A message to send on a channel.
#[derive(Debug, Clone)]
pub struct OutboundMessage {
    pub content: String,
    pub channel_id: String,
}

/// One message of a conversation with a model.
#[derive(Debug, Clone)]
pub struct Message {
    pub role: String,
    pub content: String,
}

/// Token counts of one model call.
#[derive(Debug, Clone, Copy, PartialEq, Eq, Structural)]
pub struct Usage {
    pub input_tokens: u64,
    pub output_tokens: u64,
}

/// Metadata stored with a memory.
#[derive(Debug, Clone, Default)]
pub struct Metadata {
    pub source: Option<String>,
    pub tags: Vec<String>,
}

/// A package as the registry lists it.
#[derive(Debug, Clone)]
pub struct RegistryEntry {
    pub name: String,
    pub version: String,
    pub description: Option<String>,
    pub author: Option<String>,
    pub downloads: u64,
}

/// Where the package registry is, and the key to it.
#[derive(Debug, Clone)]
pub struct StoreConfig {
    pub registry_url: String,
    pub api_key: Option<String>,
}

impl Default for StoreConfig {
    fn default() -> (r: StoreConfig)
        ensures
            r.registry_url@ == "https://llm.store/api/v1"@,
            r.api_key.is_none(),
    {
        StoreConfig { registry_url: "https://llm.store/api/v1".to_owned(), api_key: None }
    }
}

/// Settings of the resident agent.
#[derive(Debug, Clone)]
pub struct TrustclawConfig {
    pub name: String,
    pub personality: String,
    pub writing_style: String,
    pub default_provider: String,
    pub default_model: String,
    pub autonomy: String,
}

impl Default for TrustclawConfig {
    fn default() -> (r: TrustclawConfig)
        ensures
            r.name@ == "Trustclaw"@,
            r.personality@ == "sassy & bold"@,
            r.writing_style@ == "Professional"@,
            r.default_provider@ == "anthropic"@,
            r.default_model@ == "default"@,
            r.autonomy@ == "supervised"@,
    {
        TrustclawConfig {
            name: "Trustclaw".to_owned(),
            personality: "sassy & bold".to_owned(),
            writing_style: "Professional".to_owned(),
            default_provider: "anthropic".to_owned(),
            default_model: "default".to_owned(),
            autonomy: "supervised".to_owned(),
        }
    }
}

} // verus!
