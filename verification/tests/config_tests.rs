use mem_core::{ConfigError, EmbeddingConfig, KrystallizerConfig};

fn full(api_key_env: &str) -> KrystallizerConfig {
    KrystallizerConfig {
        embedding: EmbeddingConfig {
            provider: "dashscope".to_string(),
            base_url: "https://dashscope.aliyuncs.com/compatible-mode/v1".to_string(),
            endpoint: "/embeddings".to_string(),
            model: "text-embedding-v4".to_string(),
            dimensions: 1024,
            metric: "cosine".to_string(),
            api_key_env: api_key_env.to_string(),
            timeout_ms: 10000,
        },
    }
}

#[test]
fn missing_secret_names_variable_not_value() {
    // An unset variable reaches the resolver as no value.
    let cfg = full("KRYSTALLIZER_TEST_UNSET_KEY_VAR");
    let err = cfg.embedding_api_key(None).unwrap_err();
    let msg = err.message();
    assert!(msg.contains("KRYSTALLIZER_TEST_UNSET_KEY_VAR"), "names the var: {msg}");

    // Empty counts as missing too.
    let cfg2 = full("KRYSTALLIZER_TEST_EMPTY_KEY_VAR");
    assert!(cfg2.embedding_api_key(Some(String::new())).is_err());
}

#[test]
fn present_secret_is_returned() {
    let cfg = full("DASHSCOPE_API_KEY");
    assert_eq!(cfg.embedding_api_key(Some("sk-123".to_string())).unwrap(), "sk-123");
}

#[test]
fn missing_secret_error_holds_the_variable_name() {
    let cfg = full("DASHSCOPE_API_KEY");
    match cfg.embedding_api_key(Some(String::new())) {
        Err(ConfigError::MissingSecret { var }) => assert_eq!(var, "DASHSCOPE_API_KEY"),
        other => panic!("unexpected: {other:?}"),
    }
}

#[test]
fn error_messages() {
    let e = ConfigError::MissingSecret { var: "K".to_string() };
    assert_eq!(e.message(), "environment variable `K` (named by api_key_env) is unset or empty");
    let e = ConfigError::Io { path: "a.kdl".to_string(), source: "not found".to_string() };
    assert_eq!(e.message(), "failed to read config file a.kdl: not found");
    let e = ConfigError::Parse { path: "a.kdl".to_string(), report: "bad node".to_string() };
    assert_eq!(e.message(), "failed to parse config file a.kdl: bad node");
}
