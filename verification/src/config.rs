//! Settings: the config file's model, its defaults, and the runtime settings
//! that the config file and the command line resolve to.
use vstd::prelude::*;

use crate::cli::Cli;
use crate::text::{at_least_one, effective_overlap};
use crate::strings::{
    trim_end, trim_start, ascii_lower, chars_eq, from_chars, is_blank, string_views, to_ascii_lower, to_chars, trim,
    trim_chars, trim_str,
};

verus! {

/// The character budget of a chunk unless the config file says otherwise.
pub const DEFAULT_CHUNK_MAX_CHARS: usize = 2048;

/// The contents of the config file.
#[derive(Debug, Clone)]
pub struct AppConfig {
    pub backend: String,
    pub rerank_backend: String,
    pub concurrent_requests: usize,
    pub chunk_lines: usize,
    pub chunk_max_chars: usize,
    pub chunk_overlap: usize,
    pub default_top_k: usize,
    pub rerank_enabled: bool,
    pub rerank_top_n: usize,
    pub llama_cpp: BackendProfile,
    pub ollama: BackendProfile,
}

/// Where a backend is reached and which models it serves.
#[derive(Debug, Clone)]
pub struct BackendProfile {
    pub base_url: String,
    pub rerank_base_url: Option<String>,
    pub model: String,
    pub rerank_model: Option<String>,
    pub api_key: Option<String>,
}

/// The settings a command runs with, once the config file and the command
/// line are combined and checked.
#[derive(Debug, Clone)]
pub struct RuntimeConfig {
    pub backend: BackendChoice,
    pub backend_profile: BackendProfile,
    pub rerank_backend: BackendChoice,
    pub rerank_backend_profile: BackendProfile,
    pub concurrent_requests: usize,
    pub chunk_lines: usize,
    pub chunk_max_chars: usize,
    pub chunk_overlap: usize,
    pub default_top_k: usize,
    pub rerank_enabled: bool,
    pub rerank_top_n: usize,
    pub debug_http: bool,
}

/// The supported embedding backends.
#[derive(Debug, Clone, Copy, PartialEq, Eq, Structural)]
pub enum BackendChoice {
    LlamaCpp,
    Ollama,
}

/// Why settings were refused.
#[derive(Debug)]
pub enum ConfigError {
    /// The named backend (trimmed and lowercased) is not supported.
    UnsupportedBackend(String),
    /// The selected backend has no base URL.
    MissingBaseUrl,
    /// The selected Ollama backend has no model.
    MissingModel,
    /// Reranking is on, but no reranking base URL is configured.
    MissingRerankBaseUrl,
    /// Reranking is on, but no reranking model is configured.
    MissingRerankModel,
    /// No user config directory is known.
    MissingConfigDir,
}

/// The mathematical value of a [`ConfigError`].
pub enum ConfigErrorView {
    UnsupportedBackend(Seq<char>),
    MissingBaseUrl,
    MissingModel,
    MissingRerankBaseUrl,
    MissingRerankModel,
    MissingConfigDir,
}

impl View for ConfigError {
    type V = ConfigErrorView;

    open spec fn view(&self) -> ConfigErrorView {
        match self {
            ConfigError::UnsupportedBackend(name) => ConfigErrorView::UnsupportedBackend(name@),
            ConfigError::MissingBaseUrl => ConfigErrorView::MissingBaseUrl,
            ConfigError::MissingModel => ConfigErrorView::MissingModel,
            ConfigError::MissingRerankBaseUrl => ConfigErrorView::MissingRerankBaseUrl,
            ConfigError::MissingRerankModel => ConfigErrorView::MissingRerankModel,
            ConfigError::MissingConfigDir => ConfigErrorView::MissingConfigDir,
        }
    }
}

/// The message shown for an error.
pub open spec fn config_error_message(e: ConfigErrorView) -> Seq<char> {
    match e {
        ConfigErrorView::UnsupportedBackend(name) => "unsupported backend '"@ + name
            + "'. Use llama-cpp or ollama"@,
        ConfigErrorView::MissingBaseUrl => "The selected backend has no base URL configured"@,
        ConfigErrorView::MissingModel => "The selected backend has no model configured"@,
        ConfigErrorView::MissingRerankBaseUrl =>
            "Reranking is enabled, but no reranking base URL is configured"@,
        ConfigErrorView::MissingRerankModel =>
            "Reranking is enabled, but no reranking model is configured"@,
        ConfigErrorView::MissingConfigDir => "Unable to determine the user config directory"@,
    }
}

impl ConfigError {
    /// The message that describes this error.
    pub fn message(&self) -> (r: String)
        ensures
            r@ == config_error_message(self@),
    {
        match self {
            ConfigError::UnsupportedBackend(name) => {
                let mut r = String::from_str("unsupported backend '");
                r.append(name.as_str());
                r.append("'. Use llama-cpp or ollama");
                r
            },
            ConfigError::MissingBaseUrl => String::from_str(
                "The selected backend has no base URL configured",
            ),
            ConfigError::MissingModel => String::from_str(
                "The selected backend has no model configured",
            ),
            ConfigError::MissingRerankBaseUrl => String::from_str(
                "Reranking is enabled, but no reranking base URL is configured",
            ),
            ConfigError::MissingRerankModel => String::from_str(
                "Reranking is enabled, but no reranking model is configured",
            ),
            ConfigError::MissingConfigDir => String::from_str(
                "Unable to determine the user config directory",
            ),
        }
    }
}

/// The backend that a name selects: the name is trimmed and compared without
/// regard to ASCII case.
pub open spec fn backend_from_name(value: Seq<char>) -> Option<BackendChoice> {
    let key = ascii_lower(trim(value));
    if key == "llama-cpp"@ || key == "llama.cpp"@ || key == "llamacpp"@ {
        Some(BackendChoice::LlamaCpp)
    } else if key == "ollama"@ {
        Some(BackendChoice::Ollama)
    } else {
        None
    }
}

/// The ends of a trimmed text are not whitespace.
pub proof fn lemma_trim_ends(s: Seq<char>)
    ensures
        trim(s).len() > 0 ==> !crate::strings::is_ws(trim(s)[0]) && !crate::strings::is_ws(
            trim(s).last(),
        ),
        trim_start(s).len() > 0 ==> !crate::strings::is_ws(trim_start(s)[0]),
    decreases s.len(),
{
    if s.len() > 0 && crate::strings::is_ws(s[0]) {
        lemma_trim_ends(s.drop_first());
    }
    lemma_trim_end_keeps_start(trim_start(s));
}

proof fn lemma_trim_end_keeps_start(s: Seq<char>)
    ensures
        trim_end(s).len() > 0 ==> trim_end(s)[0] == s[0] && !crate::strings::is_ws(
            trim_end(s).last(),
        ),
    decreases s.len(),
{
    if s.len() > 0 && crate::strings::is_ws(s.last()) {
        lemma_trim_end_keeps_start(s.drop_last());
    }
}

/// A text whose ends are not whitespace is its own trim.
pub proof fn lemma_trim_of_trimmed(s: Seq<char>)
    requires
        s.len() > 0 ==> !crate::strings::is_ws(s[0]) && !crate::strings::is_ws(s.last()),
    ensures
        trim(s) == s,
{
}

/// Backend names are read without regard to surrounding whitespace and ASCII
/// case: a name selects the same backend as its trimmed, lowercased form.
pub proof fn lemma_backend_name_normalized(value: Seq<char>)
    ensures
        backend_from_name(value) == backend_from_name(ascii_lower(trim(value))),
{
    let t = trim(value);
    let l = ascii_lower(t);
    lemma_trim_ends(value);
    assert(l.len() == t.len());
    if l.len() > 0 {
        assert(l[0] == crate::strings::ascii_lower_char(t[0]));
        assert(l.last() == crate::strings::ascii_lower_char(t.last()));
    }
    lemma_trim_of_trimmed(l);
    assert(ascii_lower(l) =~= l);
}

impl BackendChoice {
    /// The backend that `value` names (`llama-cpp`, `llama.cpp`, `llamacpp` or
    /// `ollama`, in any ASCII case and with surrounding whitespace).
    pub fn parse(value: &str) -> (r: Result<BackendChoice, ConfigError>)
        ensures
            r is Ok <==> backend_from_name(value@) is Some,
            r matches Ok(c) ==> backend_from_name(value@) == Some(c),
            r matches Err(e) ==> e@ == ConfigErrorView::UnsupportedBackend(
                ascii_lower(trim(value@)),
            ),
    {
        let chars = to_chars(value);
        let trimmed = trim_chars(chars.as_slice());
        let key = to_ascii_lower(trimmed.as_slice());
        let llama_dash = to_chars("llama-cpp");
        let llama_dot = to_chars("llama.cpp");
        let llama_plain = to_chars("llamacpp");
        let ollama = to_chars("ollama");
        if chars_eq(key.as_slice(), llama_dash.as_slice()) || chars_eq(
            key.as_slice(),
            llama_dot.as_slice(),
        ) || chars_eq(key.as_slice(), llama_plain.as_slice()) {
            Ok(BackendChoice::LlamaCpp)
        } else if chars_eq(key.as_slice(), ollama.as_slice()) {
            Ok(BackendChoice::Ollama)
        } else {
            Err(ConfigError::UnsupportedBackend(from_chars(key.as_slice())))
        }
    }
}

/// A copy of an optional string.
pub fn copy_option(o: &Option<String>) -> (r: Option<String>)
    ensures
        r == *o,
{
    match o {
        Some(s) => Some(s.clone()),
        None => None,
    }
}

impl BackendProfile {
    /// A copy of this profile.
    pub fn duplicate(&self) -> (r: BackendProfile)
        ensures
            r == *self,
    {
        BackendProfile {
            base_url: self.base_url.clone(),
            rerank_base_url: copy_option(&self.rerank_base_url),
            model: self.model.clone(),
            rerank_model: copy_option(&self.rerank_model),
            api_key: copy_option(&self.api_key),
        }
    }

    /// A profile for a backend at `base_url` serving `model`, with empty
    /// reranking settings and an empty API key.
    fn local(base_url: &str, model: &str) -> (r: BackendProfile)
        ensures
            r.base_url@ == base_url@,
            r.model@ == model@,
            r.rerank_base_url matches Some(u) && u@.len() == 0,
            r.rerank_model matches Some(m) && m@.len() == 0,
            r.api_key matches Some(k) && k@.len() == 0,
    {
        BackendProfile {
            base_url: String::from_str(base_url),
            rerank_base_url: Some(String::new()),
            model: String::from_str(model),
            rerank_model: Some(String::new()),
            api_key: Some(String::new()),
        }
    }
}

impl Default for BackendProfile {
    fn default() -> (r: BackendProfile)
        ensures
            r.base_url@.len() == 0,
            r.rerank_base_url is None,
            r.model@.len() == 0,
            r.rerank_model is None,
            r.api_key is None,
    {
        BackendProfile {
            base_url: String::new(),
            rerank_base_url: None,
            model: String::new(),
            rerank_model: None,
            api_key: None,
        }
    }
}

impl Default for AppConfig {
    fn default() -> (r: AppConfig)
        ensures
            r.backend@ == "llama-cpp"@,
            r.rerank_backend@.len() == 0,
            r.concurrent_requests == 1,
            r.chunk_lines == 32,
            r.chunk_max_chars == DEFAULT_CHUNK_MAX_CHARS,
            r.chunk_overlap == 4,
            r.default_top_k == 10,
            !r.rerank_enabled,
            r.rerank_top_n == 40,
            r.llama_cpp.base_url@ == "http://127.0.0.1:8080"@,
            r.llama_cpp.model@ == "nomic-embed-text"@,
            r.llama_cpp.rerank_base_url matches Some(u) && u@.len() == 0,
            r.llama_cpp.rerank_model matches Some(m) && m@.len() == 0,
            r.llama_cpp.api_key matches Some(k) && k@.len() == 0,
            r.ollama.base_url@ == "http://127.0.0.1:11434"@,
            r.ollama.model@ == "nomic-embed-text"@,
            r.ollama.rerank_base_url matches Some(u) && u@.len() == 0,
            r.ollama.rerank_model matches Some(m) && m@.len() == 0,
            r.ollama.api_key matches Some(k) && k@.len() == 0,
    {
        AppConfig {
            backend: String::from_str("llama-cpp"),
            rerank_backend: String::new(),
            concurrent_requests: 1,
            chunk_lines: 32,
            chunk_max_chars: DEFAULT_CHUNK_MAX_CHARS,
            chunk_overlap: 4,
            default_top_k: 10,
            rerank_enabled: false,
            rerank_top_n: 40,
            llama_cpp: BackendProfile::local("http://127.0.0.1:8080", "nomic-embed-text"),
            ollama: BackendProfile::local("http://127.0.0.1:11434", "nomic-embed-text"),
        }
    }
}

// ---------------------------------------------------------------------------
// Resolving the runtime settings
// ---------------------------------------------------------------------------

/// The trimmed `preferred` setting when it is given and not blank, else
/// `fallback`.
pub open spec fn effective_setting(preferred: Option<String>, fallback: Seq<char>) -> Seq<char> {
    if preferred is Some && trim(preferred->0@).len() > 0 {
        trim(preferred->0@)
    } else {
        fallback
    }
}

/// The trimmed `preferred` setting when it is given and not blank, else
/// `fallback`.
pub fn effective_setting_chars(preferred: &Option<String>, fallback: &str) -> (r: Vec<char>)
    ensures
        r@ == effective_setting(*preferred, fallback@),
{
    match preferred {
        Some(p) => {
            let pc = to_chars(p.as_str());
            let t = trim_chars(pc.as_slice());
            if t.len() > 0 {
                return t;
            }
        },
        None => {},
    }
    to_chars(fallback)
}

fn at_least_one_usize(v: usize) -> (r: usize)
    ensures
        r == at_least_one(v as int),
{
    if v < 1 {
        1
    } else {
        v
    }
}

/// The value given on the command line, else the configured one.
pub open spec fn given_or(given: Option<usize>, configured: usize) -> int {
    match given {
        Some(v) => v as int,
        None => configured as int,
    }
}

/// The name of the embedding backend: the command line's, else the config
/// file's.
pub open spec fn backend_name(cli: Cli, config: AppConfig) -> Seq<char> {
    match cli.backend {
        Some(b) => b@,
        None => config.backend@,
    }
}

/// The name of the reranking backend: the command line's, else the config
/// file's when it is not blank (trimmed), else the embedding backend's name.
pub open spec fn rerank_backend_name(cli: Cli, config: AppConfig) -> Seq<char> {
    match cli.rerank_backend {
        Some(r) => r@,
        None => if trim(config.rerank_backend@).len() == 0 {
            backend_name(cli, config)
        } else {
            trim(config.rerank_backend@)
        },
    }
}

/// The config file's profile for a backend.
pub open spec fn profile_for(config: AppConfig, choice: BackendChoice) -> BackendProfile {
    match choice {
        BackendChoice::LlamaCpp => config.llama_cpp,
        BackendChoice::Ollama => config.ollama,
    }
}

/// The embedding backend's profile with the command line's base URL and
/// model put in.
pub open spec fn embedding_profile(cli: Cli, config: AppConfig, choice: BackendChoice) -> BackendProfile {
    let p = profile_for(config, choice);
    BackendProfile {
        base_url: match cli.base_url {
            Some(u) => u,
            None => p.base_url,
        },
        rerank_base_url: p.rerank_base_url,
        model: match cli.model {
            Some(m) => m,
            None => p.model,
        },
        rerank_model: p.rerank_model,
        api_key: p.api_key,
    }
}

/// The reranking backend's profile with the command line's base URL,
/// reranking base URL and reranking model put in. The base URL is where
/// reranking requests go when no reranking base URL is given or configured,
/// so `--rerank-base-url` falls back to `--base-url`.
pub open spec fn rerank_profile(cli: Cli, config: AppConfig, choice: BackendChoice) -> BackendProfile {
    let p = profile_for(config, choice);
    BackendProfile {
        base_url: match cli.base_url {
            Some(u) => u,
            None => p.base_url,
        },
        rerank_base_url: match cli.rerank_base_url {
            Some(u) => Some(u),
            None => p.rerank_base_url,
        },
        model: p.model,
        rerank_model: match cli.rerank_model {
            Some(m) => Some(m),
            None => p.rerank_model,
        },
        api_key: p.api_key,
    }
}

/// Whether reranking is on: asked for on the command line or in the config file.
pub open spec fn rerank_wanted(cli: Cli, config: AppConfig) -> bool {
    cli.rerank || config.rerank_enabled
}

/// Why the command line and the config file are refused, in the order of the
/// checks; `None` when they are accepted.
pub open spec fn runtime_fault(cli: Cli, config: AppConfig) -> Option<ConfigErrorView> {
    let bname = backend_name(cli, config);
    let rname = rerank_backend_name(cli, config);
    match backend_from_name(bname) {
        None => Some(ConfigErrorView::UnsupportedBackend(ascii_lower(trim(bname)))),
        Some(b) => match backend_from_name(rname) {
            None => Some(ConfigErrorView::UnsupportedBackend(ascii_lower(trim(rname)))),
            Some(rb) => {
                let bp = embedding_profile(cli, config, b);
                let rp = rerank_profile(cli, config, rb);
                if trim(bp.base_url@).len() == 0 {
                    Some(ConfigErrorView::MissingBaseUrl)
                } else if b == BackendChoice::Ollama && trim(bp.model@).len() == 0 {
                    Some(ConfigErrorView::MissingModel)
                } else if rerank_wanted(cli, config) && trim(
                    effective_setting(rp.rerank_base_url, rp.base_url@),
                ).len() == 0 {
                    Some(ConfigErrorView::MissingRerankBaseUrl)
                } else if rerank_wanted(cli, config) && trim(
                    effective_setting(rp.rerank_model, rp.model@),
                ).len() == 0 {
                    Some(ConfigErrorView::MissingRerankModel)
                } else {
                    None
                }
            },
        },
    }
}

/// Whether `rt` holds the settings that the command line and the config file
/// resolve to.
pub open spec fn runtime_matches(cli: Cli, config: AppConfig, rt: RuntimeConfig) -> bool {
    let b = backend_from_name(backend_name(cli, config))->0;
    let rb = backend_from_name(rerank_backend_name(cli, config))->0;
    let chunk_lines = at_least_one(config.chunk_lines as int);
    &&& rt.backend == b
    &&& rt.rerank_backend == rb
    &&& rt.backend_profile == embedding_profile(cli, config, b)
    &&& rt.rerank_backend_profile == rerank_profile(cli, config, rb)
    &&& rt.concurrent_requests == at_least_one(
        given_or(cli.concurrent_requests, config.concurrent_requests),
    )
    &&& rt.chunk_lines == chunk_lines
    &&& rt.chunk_max_chars == at_least_one(config.chunk_max_chars as int)
    &&& rt.chunk_overlap == effective_overlap(config.chunk_overlap as int, chunk_lines)
    &&& rt.default_top_k == at_least_one(config.default_top_k as int)
    &&& rt.rerank_top_n == at_least_one(given_or(cli.rerank_top_n, config.rerank_top_n))
    &&& rt.rerank_enabled == rerank_wanted(cli, config)
    &&& rt.debug_http == cli.debug_http
}

/// What the resolved settings are, in terms of the command line and the
/// config file: each count is the command line's value when given, else the
/// config file's, and at least 1; the character budget is the config file's
/// `chunk_max_chars` (at least 1) and the line count its `chunk_lines` (at
/// least 1), each on its own; the overlap stays below the line count; the
/// embedding profile is the config file's profile for the embedding backend
/// with the command line's base URL and model put in; the reranking profile
/// is the config file's profile for the reranking backend with the command
/// line's base URL, reranking base URL and reranking model put in.
pub proof fn lemma_runtime_settings(cli: Cli, config: AppConfig, rt: RuntimeConfig)
    requires
        runtime_matches(cli, config, rt),
    ensures
        rt.chunk_max_chars == (if config.chunk_max_chars == 0 {
            1
        } else {
            config.chunk_max_chars
        }),
        rt.chunk_lines == (if config.chunk_lines == 0 {
            1
        } else {
            config.chunk_lines
        }),
        rt.chunk_overlap == (if config.chunk_overlap < rt.chunk_lines {
            config.chunk_overlap
        } else {
            (rt.chunk_lines - 1) as usize
        }),
        rt.default_top_k == (if config.default_top_k == 0 {
            1
        } else {
            config.default_top_k
        }),
        rt.concurrent_requests == (match cli.concurrent_requests {
            Some(v) => if v == 0 {
                1
            } else {
                v
            },
            None => if config.concurrent_requests == 0 {
                1
            } else {
                config.concurrent_requests
            },
        }),
        rt.rerank_top_n == (match cli.rerank_top_n {
            Some(v) => if v == 0 {
                1
            } else {
                v
            },
            None => if config.rerank_top_n == 0 {
                1
            } else {
                config.rerank_top_n
            },
        }),
        rt.rerank_enabled == (cli.rerank || config.rerank_enabled),
        rt.debug_http == cli.debug_http,
        rt.backend_profile.base_url == (match cli.base_url {
            Some(u) => u,
            None => if rt.backend == BackendChoice::LlamaCpp {
                config.llama_cpp.base_url
            } else {
                config.ollama.base_url
            },
        }),
        rt.backend_profile.model == (match cli.model {
            Some(m) => m,
            None => if rt.backend == BackendChoice::LlamaCpp {
                config.llama_cpp.model
            } else {
                config.ollama.model
            },
        }),
        rt.backend_profile.api_key == (if rt.backend == BackendChoice::LlamaCpp {
            config.llama_cpp.api_key
        } else {
            config.ollama.api_key
        }),
        rt.rerank_backend_profile.base_url == (match cli.base_url {
            Some(u) => u,
            None => if rt.rerank_backend == BackendChoice::LlamaCpp {
                config.llama_cpp.base_url
            } else {
                config.ollama.base_url
            },
        }),
        rt.rerank_backend_profile.rerank_base_url == (match cli.rerank_base_url {
            Some(u) => Some(u),
            None => if rt.rerank_backend == BackendChoice::LlamaCpp {
                config.llama_cpp.rerank_base_url
            } else {
                config.ollama.rerank_base_url
            },
        }),
        rt.rerank_backend_profile.rerank_model == (match cli.rerank_model {
            Some(m) => Some(m),
            None => if rt.rerank_backend == BackendChoice::LlamaCpp {
                config.llama_cpp.rerank_model
            } else {
                config.ollama.rerank_model
            },
        }),
        rt.rerank_backend_profile.model == (if rt.rerank_backend == BackendChoice::LlamaCpp {
            config.llama_cpp.model
        } else {
            config.ollama.model
        }),
        rt.rerank_backend_profile.api_key == (if rt.rerank_backend == BackendChoice::LlamaCpp {
            config.llama_cpp.api_key
        } else {
            config.ollama.api_key
        }),
{
}

impl RuntimeConfig {
    /// Combines the command line with the config file: the command line wins,
    /// counts are at least 1, the overlap stays below the lines of a chunk,
    /// and the selected backends must be usable.
    pub fn from_cli_and_config(cli: &Cli, config: AppConfig) -> (r: Result<RuntimeConfig, ConfigError>)
        ensures
            r is Ok <==> runtime_fault(*cli, config) is None,
            r matches Err(e) ==> runtime_fault(*cli, config) == Some(e@),
            r matches Ok(rt) ==> runtime_matches(*cli, config, rt),
            r matches Ok(rt) ==> rt.chunk_max_chars == (if config.chunk_max_chars == 0 {
                1
            } else {
                config.chunk_max_chars
            }) && rt.chunk_lines == (if config.chunk_lines == 0 {
                1
            } else {
                config.chunk_lines
            }) && rt.chunk_overlap == (if config.chunk_overlap < rt.chunk_lines {
                config.chunk_overlap
            } else {
                (rt.chunk_lines - 1) as usize
            }) && rt.default_top_k == (if config.default_top_k == 0 {
                1
            } else {
                config.default_top_k
            }),
    {
        let backend_name_str: String = match &cli.backend {
            Some(b) => b.clone(),
            None => config.backend.clone(),
        };
        let backend = match BackendChoice::parse(backend_name_str.as_str()) {
            Ok(b) => b,
            Err(e) => return Err(e),
        };
        let rerank_backend_name_str: String = match &cli.rerank_backend {
            Some(r) => r.clone(),
            None => {
                if is_blank(config.rerank_backend.as_str()) {
                    backend_name_str.clone()
                } else {
                    trim_str(config.rerank_backend.as_str())
                }
            },
        };
        let rerank_backend = match BackendChoice::parse(rerank_backend_name_str.as_str()) {
            Ok(b) => b,
            Err(e) => return Err(e),
        };

        let concurrent_requests = at_least_one_usize(
            match cli.concurrent_requests {
                Some(v) => v,
                None => config.concurrent_requests,
            },
        );
        let chunk_lines = at_least_one_usize(config.chunk_lines);
        let chunk_max_chars = at_least_one_usize(config.chunk_max_chars);
        let chunk_overlap = if config.chunk_overlap < chunk_lines - 1 {
            config.chunk_overlap
        } else {
            chunk_lines - 1
        };
        let default_top_k = at_least_one_usize(config.default_top_k);
        let rerank_top_n = at_least_one_usize(
            match cli.rerank_top_n {
                Some(v) => v,
                None => config.rerank_top_n,
            },
        );
        let rerank_enabled = cli.rerank || config.rerank_enabled;

        let mut backend_profile = match backend {
            BackendChoice::LlamaCpp => config.llama_cpp.duplicate(),
            BackendChoice::Ollama => config.ollama.duplicate(),
        };
        let mut rerank_backend_profile = match rerank_backend {
            BackendChoice::LlamaCpp => config.llama_cpp.duplicate(),
            BackendChoice::Ollama => config.ollama.duplicate(),
        };

        match &cli.base_url {
            Some(base_url) => {
                backend_profile.base_url = base_url.clone();
                rerank_backend_profile.base_url = base_url.clone();
            },
            None => {},
        }
        match &cli.rerank_base_url {
            Some(rerank_base_url) => {
                rerank_backend_profile.rerank_base_url = Some(rerank_base_url.clone());
            },
            None => {},
        }
        match &cli.model {
            Some(model) => {
                backend_profile.model = model.clone();
            },
            None => {},
        }
        match &cli.rerank_model {
            Some(rerank_model) => {
                rerank_backend_profile.rerank_model = Some(rerank_model.clone());
            },
            None => {},
        }

        if is_blank(backend_profile.base_url.as_str()) {
            return Err(ConfigError::MissingBaseUrl);
        }
        if backend == BackendChoice::Ollama && is_blank(backend_profile.model.as_str()) {
            return Err(ConfigError::MissingModel);
        }
        if rerank_enabled {
            let rerank_model = effective_setting_chars(
                &rerank_backend_profile.rerank_model,
                rerank_backend_profile.model.as_str(),
            );
            let rerank_base_url = effective_setting_chars(
                &rerank_backend_profile.rerank_base_url,
                rerank_backend_profile.base_url.as_str(),
            );
            let url_trimmed = trim_chars(rerank_base_url.as_slice());
            if url_trimmed.len() == 0 {
                return Err(ConfigError::MissingRerankBaseUrl);
            }
            let model_trimmed = trim_chars(rerank_model.as_slice());
            if model_trimmed.len() == 0 {
                return Err(ConfigError::MissingRerankModel);
            }
        }

        let rt = RuntimeConfig {
            backend,
            backend_profile,
            rerank_backend,
            rerank_backend_profile,
            concurrent_requests,
            chunk_lines,
            chunk_max_chars,
            chunk_overlap,
            default_top_k,
            rerank_enabled,
            rerank_top_n,
            debug_http: cli.debug_http,
        };
        proof {
            lemma_runtime_settings(*cli, config, rt);
        }
        Ok(rt)
    }
}

// ---------------------------------------------------------------------------
// Config file location and editors
// ---------------------------------------------------------------------------

/// `dir` with the relative path `name` appended, as `Path::join` does on
/// Unix: a `/` goes between them unless `dir` is empty or ends with one.
pub open spec fn path_join(dir: Seq<char>, name: Seq<char>) -> Seq<char> {
    if dir.len() == 0 || dir.last() == '/' {
        dir + name
    } else {
        dir + seq!['/'] + name
    }
}

/// `dir` with `name` appended as a path component.
pub fn join_path(dir: &str, name: &str) -> (r: String)
    ensures
        r@ == path_join(dir@, name@),
{
    let d = to_chars(dir);
    let mut r = String::from_str(dir);
    if d.len() > 0 && d[d.len() - 1] != '/' {
        r.append("/");
        proof {
            reveal_strlit("/");
        }
    }
    r.append(name);
    r
}

/// vigrep's own directory under the user config directory `config_dir`.
pub fn default_config_dir(config_dir: Option<String>) -> (r: Result<String, ConfigError>)
    ensures
        config_dir is None ==> (r matches Err(e) && e@ == ConfigErrorView::MissingConfigDir),
        config_dir matches Some(d) ==> (r matches Ok(p) && p@ == path_join(d@, "vigrep"@)),
{
    match config_dir {
        Some(dir) => Ok(join_path(dir.as_str(), "vigrep")),
        None => Err(ConfigError::MissingConfigDir),
    }
}

/// The path of the config file under the user config directory
/// `config_dir`: `vigrep/config.toml` in it.
pub fn default_config_path(config_dir: Option<String>) -> (r: Result<String, ConfigError>)
    ensures
        config_dir is None ==> (r matches Err(e) && e@ == ConfigErrorView::MissingConfigDir),
        config_dir matches Some(d) ==> (r matches Ok(p) && p@ == path_join(
            path_join(d@, "vigrep"@),
            "config.toml"@,
        )),
{
    match default_config_dir(config_dir) {
        Ok(app_dir) => Ok(join_path(app_dir.as_str(), "config.toml")),
        Err(e) => Err(e),
    }
}

/// The editors to try, in order: `VISUAL` and `EDITOR` when set and not
/// blank, then `nano`.
pub open spec fn editor_order(visual: Option<String>, editor: Option<String>) -> Seq<Seq<char>> {
    let first = if visual is Some && trim(visual->0@).len() > 0 {
        seq![visual->0@]
    } else {
        Seq::empty()
    };
    let second = if editor is Some && trim(editor->0@).len() > 0 {
        seq![editor->0@]
    } else {
        Seq::empty()
    };
    first + second + seq!["nano"@]
}

/// The order in which editors are tried: `nano` last; a set, non-blank
/// `EDITOR` right before it, whether or not `VISUAL` is set; a set, non-blank
/// `VISUAL` first; and nothing else.
pub proof fn lemma_editor_order(visual: Option<String>, editor: Option<String>)
    ensures
        editor_order(visual, editor).len() == 1 + (if visual matches Some(v) && trim(v@).len() > 0 {
            1int
        } else {
            0int
        }) + (if editor matches Some(e) && trim(e@).len() > 0 {
            1int
        } else {
            0int
        }),
        editor_order(visual, editor).last() == "nano"@,
        (editor matches Some(e) && trim(e@).len() > 0) ==> editor_order(visual, editor)[editor_order(
            visual,
            editor,
        ).len() - 2] == editor->0@,
        (visual matches Some(v) && trim(v@).len() > 0) ==> editor_order(visual, editor)[0]
            == visual->0@,
{
}

/// The editors to try for the config file, given the values of `VISUAL` and
/// `EDITOR`.
pub fn preferred_editors(visual: Option<String>, editor: Option<String>) -> (r: Vec<String>)
    ensures
        string_views(r@) == editor_order(visual, editor),
        r.len() == 1 + (if visual matches Some(v) && trim(v@).len() > 0 {
            1int
        } else {
            0int
        }) + (if editor matches Some(e) && trim(e@).len() > 0 {
            1int
        } else {
            0int
        }),
        r@.last()@ == "nano"@,
        (editor matches Some(e) && trim(e@).len() > 0) ==> r@[r.len() - 2]@ == editor->0@,
        (visual matches Some(v) && trim(v@).len() > 0) ==> r@[0]@ == visual->0@,
{
    proof {
        lemma_editor_order(visual, editor);
    }
    let ghost v0 = visual;
    let ghost e0 = editor;
    let mut editors: Vec<String> = Vec::new();
    match visual {
        Some(value) => {
            if !is_blank(value.as_str()) {
                editors.push(value);
            }
        },
        None => {},
    }
    let ghost after_first = string_views(editors@);
    match editor {
        Some(value) => {
            if !is_blank(value.as_str()) {
                editors.push(value);
            }
        },
        None => {},
    }
    let ghost after_second = string_views(editors@);
    editors.push(String::from_str("nano"));
    proof {
        let first = if v0 is Some && trim(v0->0@).len() > 0 {
            seq![v0->0@]
        } else {
            Seq::empty()
        };
        let second = if e0 is Some && trim(e0->0@).len() > 0 {
            seq![e0->0@]
        } else {
            Seq::empty()
        };
        assert(after_first =~= first);
        assert(after_second =~= first + second);
        assert(string_views(editors@) =~= first + second + seq!["nano"@]);
    }
    editors
}

} // verus!
