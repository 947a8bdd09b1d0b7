//! Configuration model: one KDL document, `config/krystallizer.kdl`, one
//! top-level node per subsystem. Each node is a struct here. Secrets are
//! never in the file: the config names the environment variable that holds
//! the value, and the value is resolved at call time by the caller, who
//! reads the environment and hands the value to `embedding_api_key`.

use vstd::prelude::*;
use vstd::string::*;
use crate::memory::has_substring;

verus! {

/// Root of `config/krystallizer.kdl`. New subsystems are new top-level
/// nodes here (and new fields here), never new config files.
#[derive(Debug, Clone)]
pub struct KrystallizerConfig {
    /// `embedding { ... }`: the embedding provider.
    pub embedding: EmbeddingConfig,
}

/// One OpenAI-compatible embeddings endpoint. `api_key_env` names the
/// environment variable holding the Bearer token; the key itself never
/// appears in the config or in this struct.
#[derive(Debug, Clone)]
pub struct EmbeddingConfig {
    pub provider: String,
    pub base_url: String,
    pub endpoint: String,
    pub model: String,
    pub dimensions: u32,
    pub metric: String,
    /// Environment variable name holding the API key (not the key).
    pub api_key_env: String,
    pub timeout_ms: u64,
}

/// Why the configuration could not be loaded or resolved. File paths and
/// the underlying reader and parser failures are held as their rendered
/// text.
#[derive(Debug)]
pub enum ConfigError {
    /// The config file could not be read.
    Io { path: String, source: String },
    /// The config file could not be decoded.
    Parse { path: String, report: String },
    /// Environment variable named by `api_key_env` is unset or empty.
    MissingSecret { var: String },
}

impl ConfigError {
    /// The human-readable message of the error.
    pub open spec fn message_view(self) -> Seq<char> {
        match self {
            ConfigError::Io { path, source } => "failed to read config file "@ + path@ + ": "@
                + source@,
            ConfigError::Parse { path, report } => "failed to parse config file "@ + path@
                + ": "@ + report@,
            ConfigError::MissingSecret { var } => "environment variable `"@ + var@
                + "` (named by api_key_env) is unset or empty"@,
        }
    }

    /// Renders the error. A missing secret is reported by the name of its
    /// variable, never by a value.
    pub fn message(&self) -> (r: String)
        ensures
            r@ == self.message_view(),
    {
        match self {
            ConfigError::Io { path, source } => {
                let mut m = String::from_str("failed to read config file ");
                m.append(path.as_str());
                m.append(": ");
                m.append(source.as_str());
                m
            },
            ConfigError::Parse { path, report } => {
                let mut m = String::from_str("failed to parse config file ");
                m.append(path.as_str());
                m.append(": ");
                m.append(report.as_str());
                m
            },
            ConfigError::MissingSecret { var } => {
                let mut m = String::from_str("environment variable `");
                m.append(var.as_str());
                m.append("` (named by api_key_env) is unset or empty");
                m
            },
        }
    }
}

/// The message of a missing secret names the variable.
pub proof fn lemma_missing_secret_names_variable(var: String)
    ensures
        has_substring(ConfigError::MissingSecret { var }.message_view(), var@),
{
    reveal_strlit("environment variable `");
    let m = ConfigError::MissingSecret { var }.message_view();
    assert(m.subrange(22, 22 + var@.len() as int) =~= var@);
}

impl KrystallizerConfig {
    /// Resolves the embedding API key from the value the environment holds
    /// for `api_key_env` (`None` when the variable is unset or not valid
    /// Unicode). An unset or empty value is a `MissingSecret` error that
    /// names the variable, never a value.
    pub fn embedding_api_key(&self, env_value: Option<String>) -> (r: Result<String, ConfigError>)
        ensures
            (env_value matches Some(v) && v@.len() > 0) ==> r == Ok::<String, ConfigError>(
                env_value->0,
            ),
            !(env_value matches Some(v) && v@.len() > 0) ==> (r matches Err(
                ConfigError::MissingSecret { var },
            ) && var@ == self.embedding.api_key_env@),
    {
        match env_value {
            Some(v) => {
                if v.as_str().is_empty() {
                    Err(ConfigError::MissingSecret { var: self.embedding.api_key_env.clone() })
                } else {
                    Ok(v)
                }
            },
            None => Err(ConfigError::MissingSecret { var: self.embedding.api_key_env.clone() }),
        }
    }
}

} // verus!
