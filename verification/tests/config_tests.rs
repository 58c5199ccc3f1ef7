use vigrep::cli::Cli;
use vigrep::config::{
    default_config_dir, default_config_path, preferred_editors, AppConfig, BackendChoice, BackendProfile, ConfigError,
    RuntimeConfig, DEFAULT_CHUNK_MAX_CHARS,
};

fn empty_cli() -> Cli {
    Cli {
        backend: None,
        base_url: None,
        rerank_base_url: None,
        rerank_backend: None,
        model: None,
        rerank_model: None,
        rerank: false,
        rerank_top_n: None,
        concurrent_requests: None,
        debug_http: false,
    }
}

#[test]
fn parse_accepts_known_names() {
    assert_eq!(BackendChoice::parse("llama-cpp").unwrap(), BackendChoice::LlamaCpp);
    assert_eq!(BackendChoice::parse("  LLaMA.CPP \n").unwrap(), BackendChoice::LlamaCpp);
    assert_eq!(BackendChoice::parse("llamacpp").unwrap(), BackendChoice::LlamaCpp);
    assert_eq!(BackendChoice::parse("Ollama").unwrap(), BackendChoice::Ollama);
}

#[test]
fn parse_rejects_other_names() {
    match BackendChoice::parse(" VLLM ") {
        Err(ConfigError::UnsupportedBackend(name)) => assert_eq!(name, "vllm"),
        other => panic!("unexpected {:?}", other),
    }
    let err = BackendChoice::parse("x").unwrap_err();
    assert_eq!(err.message(), "unsupported backend 'x'. Use llama-cpp or ollama");
}

#[test]
fn default_config_matches_documented_values() {
    let c = AppConfig::default();
    assert_eq!(c.backend, "llama-cpp");
    assert_eq!(c.rerank_backend, "");
    assert_eq!(c.concurrent_requests, 1);
    assert_eq!(c.chunk_lines, 32);
    assert_eq!(c.chunk_max_chars, DEFAULT_CHUNK_MAX_CHARS);
    assert_eq!(c.chunk_max_chars, 2048);
    assert_eq!(c.chunk_overlap, 4);
    assert_eq!(c.default_top_k, 10);
    assert!(!c.rerank_enabled);
    assert_eq!(c.rerank_top_n, 40);
    assert_eq!(c.llama_cpp.base_url, "http://127.0.0.1:8080");
    assert_eq!(c.ollama.base_url, "http://127.0.0.1:11434");
    assert_eq!(c.ollama.model, "nomic-embed-text");
    assert_eq!(c.llama_cpp.rerank_model.as_deref(), Some(""));
    assert_eq!(c.ollama.api_key.as_deref(), Some(""));
    assert_eq!(c.llama_cpp.api_key.as_deref(), Some(""));
    assert_eq!(c.llama_cpp.model, "nomic-embed-text");
    assert_eq!(c.llama_cpp.rerank_base_url.as_deref(), Some(""));
    let p = BackendProfile::default();
    assert_eq!(p.base_url, "");
    assert!(p.rerank_base_url.is_none());
}

#[test]
fn runtime_from_defaults() {
    let rt = RuntimeConfig::from_cli_and_config(&empty_cli(), AppConfig::default()).unwrap();
    assert_eq!(rt.backend, BackendChoice::LlamaCpp);
    assert_eq!(rt.rerank_backend, BackendChoice::LlamaCpp);
    assert_eq!(rt.backend_profile.base_url, "http://127.0.0.1:8080");
    assert_eq!(rt.chunk_lines, 32);
    assert_eq!(rt.chunk_overlap, 4);
    assert_eq!(rt.concurrent_requests, 1);
    assert!(!rt.rerank_enabled);
}

#[test]
fn runtime_clamps_counts() {
    let mut config = AppConfig::default();
    config.chunk_lines = 0;
    config.chunk_max_chars = 0;
    config.chunk_overlap = 9;
    config.default_top_k = 0;
    let mut cli = empty_cli();
    cli.concurrent_requests = Some(0);
    cli.rerank_top_n = Some(0);
    let rt = RuntimeConfig::from_cli_and_config(&cli, config).unwrap();
    assert_eq!(rt.chunk_lines, 1);
    assert_eq!(rt.chunk_max_chars, 1);
    assert_eq!(rt.chunk_overlap, 0);
    assert_eq!(rt.default_top_k, 1);
    assert_eq!(rt.concurrent_requests, 1);
    assert_eq!(rt.rerank_top_n, 1);
}

#[test]
fn runtime_command_line_overrides() {
    let mut cli = empty_cli();
    cli.backend = Some("ollama".to_string());
    cli.base_url = Some("http://h:1".to_string());
    cli.model = Some("m".to_string());
    cli.rerank_backend = Some("llama-cpp".to_string());
    cli.rerank_base_url = Some("http://r:2".to_string());
    cli.rerank_model = Some("rm".to_string());
    cli.rerank = true;
    cli.debug_http = true;
    let rt = RuntimeConfig::from_cli_and_config(&cli, AppConfig::default()).unwrap();
    assert_eq!(rt.backend, BackendChoice::Ollama);
    assert_eq!(rt.backend_profile.base_url, "http://h:1");
    assert_eq!(rt.backend_profile.model, "m");
    assert_eq!(rt.rerank_backend, BackendChoice::LlamaCpp);
    assert_eq!(rt.rerank_backend_profile.base_url, "http://h:1");
    assert_eq!(rt.rerank_backend_profile.rerank_base_url.as_deref(), Some("http://r:2"));
    assert_eq!(rt.rerank_backend_profile.rerank_model.as_deref(), Some("rm"));
    assert!(rt.rerank_enabled);
    assert!(rt.debug_http);
}

#[test]
fn runtime_rerank_backend_falls_back_to_backend() {
    let mut config = AppConfig::default();
    config.backend = "ollama".to_string();
    config.rerank_backend = "   ".to_string();
    let rt = RuntimeConfig::from_cli_and_config(&empty_cli(), config).unwrap();
    assert_eq!(rt.rerank_backend, BackendChoice::Ollama);
    let mut config = AppConfig::default();
    config.rerank_backend = " Ollama ".to_string();
    let rt = RuntimeConfig::from_cli_and_config(&empty_cli(), config).unwrap();
    assert_eq!(rt.rerank_backend, BackendChoice::Ollama);
}

#[test]
fn runtime_errors() {
    let mut cli = empty_cli();
    cli.backend = Some("nope".to_string());
    assert!(matches!(
        RuntimeConfig::from_cli_and_config(&cli, AppConfig::default()),
        Err(ConfigError::UnsupportedBackend(_))
    ));

    let mut cli = empty_cli();
    cli.rerank_backend = Some("nope".to_string());
    assert!(matches!(
        RuntimeConfig::from_cli_and_config(&cli, AppConfig::default()),
        Err(ConfigError::UnsupportedBackend(_))
    ));

    let mut cli = empty_cli();
    cli.base_url = Some("  ".to_string());
    assert!(matches!(
        RuntimeConfig::from_cli_and_config(&cli, AppConfig::default()),
        Err(ConfigError::MissingBaseUrl)
    ));

    let mut cli = empty_cli();
    cli.backend = Some("ollama".to_string());
    cli.model = Some("".to_string());
    assert!(matches!(
        RuntimeConfig::from_cli_and_config(&cli, AppConfig::default()),
        Err(ConfigError::MissingModel)
    ));

    let mut config = AppConfig::default();
    config.rerank_enabled = true;
    config.llama_cpp.base_url = "http://x".to_string();
    config.llama_cpp.model = " ".to_string();
    config.llama_cpp.rerank_model = None;
    assert!(matches!(
        RuntimeConfig::from_cli_and_config(&empty_cli(), config),
        Err(ConfigError::MissingRerankModel)
    ));

    let mut cli = empty_cli();
    cli.rerank = true;
    cli.rerank_base_url = Some(" ".to_string());
    let mut config = AppConfig::default();
    config.llama_cpp.base_url = "http://x".to_string();
    let mut cli2 = empty_cli();
    cli2.rerank = true;
    config.backend = "ollama".to_string();
    config.rerank_backend = "llama-cpp".to_string();
    config.llama_cpp.base_url = " ".to_string();
    assert!(matches!(
        RuntimeConfig::from_cli_and_config(&cli2, config.clone()),
        Err(ConfigError::MissingRerankBaseUrl)
    ));
    cli2.base_url = Some("http://y".to_string());
    assert!(RuntimeConfig::from_cli_and_config(&cli2, config).is_ok());
    assert!(RuntimeConfig::from_cli_and_config(&cli, AppConfig::default()).is_ok());
}

#[test]
fn config_path_under_config_dir() {
    assert_eq!(
        default_config_path(Some("/home/u/.config".to_string())).unwrap(),
        "/home/u/.config/vigrep/config.toml"
    );
    assert_eq!(
        default_config_path(Some("/cfg/".to_string())).unwrap(),
        "/cfg/vigrep/config.toml"
    );
    assert!(matches!(default_config_path(None), Err(ConfigError::MissingConfigDir)));
}

#[test]
fn editors_in_preference_order() {
    assert_eq!(
        preferred_editors(Some("vim".to_string()), Some(" ".to_string())),
        vec!["vim".to_string(), "nano".to_string()]
    );
    assert_eq!(
        preferred_editors(Some("code".to_string()), Some("emacs".to_string())),
        vec!["code".to_string(), "emacs".to_string(), "nano".to_string()]
    );
    assert_eq!(preferred_editors(None, None), vec!["nano".to_string()]);
}

#[test]
fn config_dir_under_user_config() {
    assert_eq!(default_config_dir(Some("/c".to_string())).unwrap(), "/c/vigrep");
    assert_eq!(default_config_dir(Some(String::new())).unwrap(), "vigrep");
    assert!(default_config_dir(None).is_err());
}

#[test]
fn rerank_url_falls_back_to_cli_base_url() {
    let mut cli = empty_cli();
    cli.base_url = Some("http://10.0.0.1:9".to_string());
    cli.rerank = true;
    let rt = RuntimeConfig::from_cli_and_config(&cli, AppConfig::default()).unwrap();
    assert_eq!(rt.backend_profile.base_url, "http://10.0.0.1:9");
    assert_eq!(rt.rerank_backend_profile.base_url, "http://10.0.0.1:9");
    let b = vigrep::backend::EmbeddingBackend::new(rt.rerank_backend, rt.rerank_backend_profile, false).unwrap();
    assert_eq!(b.rerank_urls()[0], "http://10.0.0.1:9/rerank");

    let mut cli2 = empty_cli();
    cli2.base_url = Some("http://10.0.0.1:9".to_string());
    cli2.rerank_base_url = Some("http://10.0.0.2:7".to_string());
    let rt2 = RuntimeConfig::from_cli_and_config(&cli2, AppConfig::default()).unwrap();
    assert_eq!(rt2.rerank_backend_profile.rerank_base_url.as_deref(), Some("http://10.0.0.2:7"));
}
