use vigrep::cli::{completion_dir, CompletionBase, CompletionShell};
use vigrep::backend::{
    normalize_url, ollama_candidate_count, ollama_rerank_prompt, rerank_failure_message, rerank_next,
    rerank_item_index, BackendClient, EmbeddingBackend, RerankPayload, RerankStep,
};
use vigrep::config::{AppConfig, BackendChoice, BackendProfile};
use vigrep::endpoint::{
    bool_default_text, bool_prompt_label, pick_model, pick_without_prompt, prompt_answer, resolve_backend,
    discovery_url, models_after_health, BackendPick, HealthModels,
    url_prompt_label, usize_answer, usize_default_text, valid_backends, yes_answer,
};
use vigrep::stats::{byte_unit_index, byte_unit_name};
use vigrep::strings::{parse_usize, to_chars, trim_str};

fn profile(base: &str, model: &str) -> BackendProfile {
    BackendProfile {
        base_url: base.to_string(),
        rerank_base_url: None,
        model: model.to_string(),
        rerank_model: None,
        api_key: None,
    }
}

#[test]
fn urls_lose_trailing_slashes() {
    assert_eq!(normalize_url("http://h:1///"), "http://h:1");
    assert_eq!(normalize_url("http://h"), "http://h");
    assert_eq!(normalize_url("/"), "");
}

#[test]
fn backend_urls_and_labels() {
    let mut p = profile("  http://h:8080/ ", " m ");
    p.rerank_base_url = Some(" http://r:9/ ".to_string());
    p.api_key = Some("  ".to_string());
    let b = EmbeddingBackend::new(BackendChoice::LlamaCpp, p, false).unwrap();
    assert_eq!(b.label(), "llama.cpp");
    assert_eq!(b.embedding_url(), "http://h:8080/embedding");
    assert_eq!(
        b.rerank_urls(),
        vec!["http://r:9/rerank".to_string(), "http://r:9/v1/rerank".to_string(), "http://r:9/api/rerank".to_string()]
    );
    assert_eq!(b.rerank_model_label().as_deref(), Some("m"));
    assert_eq!(b.backend_client().auth_token(), None);
    assert_eq!(b.backend_client().llama_cpp_base_urls(), vec!["http://h:8080".to_string()]);

    let mut q = profile("http://o:11434", "");
    q.rerank_model = Some(" rr ".to_string());
    q.api_key = Some(" tok ".to_string());
    let o = EmbeddingBackend::new(BackendChoice::Ollama, q, true).unwrap();
    assert_eq!(o.label(), "ollama");
    assert_eq!(o.embedding_url(), "http://o:11434/api/embed");
    assert_eq!(o.rerank_urls(), vec!["http://o:11434/api/chat".to_string()]);
    assert_eq!(o.rerank_model_label().as_deref(), Some("rr"));
    assert_eq!(o.backend_client().auth_token().as_deref(), Some("tok"));
    assert!(o.backend_client().logs_http());

    let v = EmbeddingBackend::Vllm(BackendClient::new(profile("http://v", ""), false).unwrap());
    assert_eq!(v.label(), "vllm");
    assert_eq!(v.embedding_url(), "http://v/v1/embeddings");
    assert_eq!(v.rerank_model_label(), None);
    let _ = AppConfig::default();
}

#[test]
fn log_preview_trims_long_bodies() {
    assert_eq!(BackendClient::preview("short", 10), "short");
    assert_eq!(BackendClient::preview("abcdef", 3), "abc… <trimmed 6 chars to 3>");
}

#[test]
fn ollama_rerank_requests() {
    assert_eq!(ollama_candidate_count(40, 5), 5);
    assert_eq!(ollama_candidate_count(2, 5), 2);
    assert_eq!(ollama_candidate_count(0, 0), 1);
    let prompt = ollama_rerank_prompt("q", "doc");
    assert!(prompt.starts_with("You are a reranker.\n"));
    assert!(prompt.ends_with("Query:\nq\n\nDocument:\ndoc\n"));
    assert!(prompt.contains("{\"score\": number}"));
}

#[test]
fn byte_units() {
    assert_eq!(byte_unit_index(0), 0);
    assert_eq!(byte_unit_index(1023), 0);
    assert_eq!(byte_unit_index(1024), 1);
    assert_eq!(byte_unit_index(5 * 1024 * 1024), 2);
    assert_eq!(byte_unit_index(1 << 30), 3);
    assert_eq!(byte_unit_index(1 << 50), 4);
    assert_eq!(byte_unit_index(-5), 0);
    assert_eq!(byte_unit_name(1), "KiB");
    assert_eq!(byte_unit_name(4), "TiB");
}

#[test]
fn prompt_answers() {
    assert_eq!(prompt_answer("  \n", "dflt"), "dflt");
    assert_eq!(prompt_answer(" value \n", "dflt"), "value");
    assert_eq!(url_prompt_label("Base URL"), "Base URL URL (empty=skip)");
    assert_eq!(bool_prompt_label("Enable reranking"), "Enable reranking (yes/no)");
    assert_eq!(bool_default_text(true), "yes");
    assert_eq!(bool_default_text(false), "no");
    assert!(yes_answer("yes"));
    assert!(yes_answer("y"));
    assert!(!yes_answer("Yes"));
    assert_eq!(usize_answer("12", 40), 12);
    assert_eq!(usize_answer("abc", 40), 40);
    assert_eq!(usize_answer("0", 40), 1);
    assert_eq!(usize_default_text(40), "40");
}

#[test]
fn model_picks() {
    let models = vec!["a".to_string(), "b".to_string()];
    assert_eq!(pick_model(&models, " 2\n"), Some("b".to_string()));
    assert_eq!(pick_model(&models, "0"), None);
    assert_eq!(pick_model(&models, "3"), None);
    assert_eq!(pick_model(&models, ""), None);
}

#[test]
fn backend_choice_prompt() {
    let names = vec!["llama-cpp".to_string(), "ollama".to_string(), "vllm".to_string()];
    let urls = vec!["http://l".to_string(), "".to_string(), "http://v".to_string()];
    let valid = valid_backends(&names, &urls);
    assert_eq!(valid, vec![(1, "llama-cpp".to_string()), (3, "vllm".to_string())]);
    assert_eq!(resolve_backend(&valid, &names, "llama-cpp", "3"), "vllm");
    assert_eq!(resolve_backend(&valid, &names, "vllm", "2"), "vllm");
    assert_eq!(resolve_backend(&valid, &names, "ollama", "2"), "ollama");
    assert_eq!(resolve_backend(&valid, &names, "", "x"), "llama-cpp");
    assert_eq!(resolve_backend(&valid, &names, "other", ""), "llama-cpp");
    assert!(matches!(pick_without_prompt(&valid), BackendPick::Ask));
}

#[test]
fn single_backend_needs_no_prompt() {
    let names = vec!["llama-cpp".to_string(), "ollama".to_string()];
    let urls = vec!["".to_string(), "http://o".to_string()];
    let valid = valid_backends(&names, &urls);
    assert_eq!(valid, vec![(2, "ollama".to_string())]);
    assert_eq!(resolve_backend(&valid, &names, "llama-cpp", ""), "ollama");
    assert_eq!(resolve_backend(&valid, &names, "llama-cpp", "1"), "ollama");
    match pick_without_prompt(&valid) {
        BackendPick::Only(name) => assert_eq!(name, "ollama"),
        _ => panic!("expected the only candidate"),
    }
    let none = valid_backends(&names, &vec!["".to_string(), "".to_string()]);
    assert!(matches!(pick_without_prompt(&none), BackendPick::NoneConfigured));
}

#[test]
fn usize_parsing_follows_std() {
    for s in ["0", "+7", "18446744073709551615", "18446744073709551616", "", "+", "-1", " 1", "12a"] {
        assert_eq!(parse_usize(&to_chars(s)), s.parse::<usize>().ok(), "{s}");
    }
    assert_eq!(trim_str("\u{3000} x \u{85}"), "x");
    assert_eq!(trim_str(" \t\r\n"), "");
}

#[test]
fn completion_directories() {
    assert_eq!(completion_dir(CompletionShell::Bash), (CompletionBase::DataDir, "bash-completion/completions"));
    assert_eq!(completion_dir(CompletionShell::Fish), (CompletionBase::ConfigDir, "fish/completions"));
    assert_eq!(completion_dir(CompletionShell::Elvish), (CompletionBase::ConfigDir, "elvish/lib"));
    assert_eq!(completion_dir(CompletionShell::PowerShell), (CompletionBase::DataDir, "powershell/Completions"));
    assert_eq!(completion_dir(CompletionShell::Zsh), (CompletionBase::DataDir, "zsh/site-functions"));
}

#[test]
fn rerank_attempts_walk_every_endpoint_and_payload() {
    let mut sent = Vec::new();
    let mut attempt = 0;
    loop {
        match rerank_next(attempt, 3, 2, if attempt == 0 { None } else { Some(false) }) {
            RerankStep::Send { endpoint, payload } => {
                sent.push((endpoint, payload));
                attempt += 1;
            }
            RerankStep::Parse => panic!("nothing succeeded"),
            RerankStep::GiveUp => break,
        }
    }
    assert_eq!(sent, vec![(0, 0), (0, 1), (1, 0), (1, 1), (2, 0), (2, 1)]);
    assert!(matches!(rerank_next(2, 3, 2, Some(true)), RerankStep::Parse));
    assert!(matches!(rerank_next(0, 3, 0, None), RerankStep::GiveUp));
    assert!(matches!(rerank_next(0, 0, 2, None), RerankStep::GiveUp));
    assert_eq!(
        rerank_failure_message("llama.cpp", &["a -> HTTP 404".to_string(), "b -> HTTP 500".to_string()]),
        "llama.cpp rerank request failed on all endpoint/payload combinations: a -> HTTP 404 | b -> HTTP 500"
    );
}

#[test]
fn llama_cpp_model_discovery_steps() {
    assert_eq!(discovery_url("http://h:1//", "/health"), "http://h:1/health");
    assert_eq!(discovery_url("http://h:1", "/slots"), "http://h:1/slots");
    match models_after_health(None) {
        HealthModels::Found(v) => assert!(v.is_empty()),
        HealthModels::AskSlots => panic!("no answer means no models"),
    }
    match models_after_health(Some(Some("qwen".to_string()))) {
        HealthModels::Found(v) => assert_eq!(v, vec!["qwen".to_string()]),
        HealthModels::AskSlots => panic!("a named model settles it"),
    }
    assert!(matches!(models_after_health(Some(Some(String::new()))), HealthModels::AskSlots));
    assert!(matches!(models_after_health(Some(None)), HealthModels::AskSlots));
}

#[test]
fn rerank_request_shapes_and_indexes() {
    let l = EmbeddingBackend::new(BackendChoice::LlamaCpp, profile("http://l", "m"), false).unwrap();
    assert!(l.rerank_payloads() == vec![RerankPayload::ModelDocuments, RerankPayload::Documents, RerankPayload::ModelInput]);
    let o = EmbeddingBackend::new(BackendChoice::Ollama, profile("http://o", "m"), false).unwrap();
    assert!(o.rerank_payloads().is_empty());
    let v = EmbeddingBackend::Vllm(BackendClient::new(profile("http://v", "m"), false).unwrap());
    assert!(v.rerank_payloads() == vec![RerankPayload::ModelDocuments, RerankPayload::Documents]);
    assert_eq!(rerank_item_index(&[None, Some(4), Some(9), None]), Some(4));
    assert_eq!(rerank_item_index(&[Some(0), None, None, None]), Some(0));
    assert_eq!(rerank_item_index(&[None, None, None, None]), None);
}
