//! The embedding backends: which endpoints they are reached at, which model
//! and token they are sent, and the requests for reranking.
use vstd::prelude::*;

use crate::config::{
    effective_setting, effective_setting_chars, lemma_trim_ends, lemma_trim_of_trimmed, BackendChoice,
    BackendProfile,
};
use crate::strings::{
    copy_range, decimal, from_chars, join, join_chars, string_views, to_chars, trim, trim_chars,
    usize_to_decimal, views,
};

verus! {

/// The HTTP client that requests are sent with.
#[verifier::external_type_specification]
#[verifier::external_body]
pub struct ExHttpClient(reqwest::Client);

/// An error of the HTTP client.
#[verifier::external_type_specification]
#[verifier::external_body]
pub struct ExHttpError(reqwest::Error);

/// The request timeout, in whole seconds, that an HTTP client was built
/// with.
pub uninterp spec fn client_timeout_secs(c: reqwest::Client) -> u64;

/// Builds an HTTP client whose requests time out after `timeout_secs`
/// seconds.
///
/// Calls `reqwest::ClientBuilder::build` on `reqwest::Client::builder()` with
/// the timeout set by `ClientBuilder::timeout`, which stores the given
/// duration as the client's request timeout. The contract claims only that a
/// client that was built carries that timeout; whether building succeeds
/// depends on the TLS backend and the system resolver, and is left unsaid.
#[verifier::external_body]
fn build_http_client(timeout_secs: u64) -> (r: Result<reqwest::Client, reqwest::Error>)
    ensures
        r matches Ok(c) ==> client_timeout_secs(c) == timeout_secs,
{
    reqwest::Client::builder().timeout(std::time::Duration::from_secs(timeout_secs)).build()
}

/// Why a backend could not be set up.
#[derive(Debug)]
pub enum BackendError {
    /// The HTTP client could not be built.
    HttpClient(reqwest::Error),
}

/// The seconds after which a request to a backend times out.
pub const REQUEST_TIMEOUT_SECS: u64 = 300;

/// A backend's HTTP client with the profile it serves and whether requests
/// and responses are logged.
#[derive(Debug)]
pub struct BackendClient {
    client: reqwest::Client,
    profile: BackendProfile,
    debug_http: bool,
}

/// An embedding backend of one of the supported kinds.
#[derive(Debug)]
pub enum EmbeddingBackend {
    LlamaCpp(BackendClient),
    Ollama(BackendClient),
    Vllm(BackendClient),
}

/// `s` without the `/` characters at its end.
pub open spec fn strip_slashes(s: Seq<char>) -> Seq<char>
    decreases s.len(),
{
    if s.len() > 0 && s.last() == '/' {
        strip_slashes(s.drop_last())
    } else {
        s
    }
}

/// `url` without the `/` characters at its end.
pub fn normalize_url(url: &str) -> (r: String)
    ensures
        r@ == strip_slashes(url@),
{
    let chars = to_chars(url);
    let mut end = chars.len();
    assert(chars@.subrange(0, end as int) == chars@);
    while end > 0 && chars[end - 1] == '/'
        invariant
            end <= chars.len(),
            strip_slashes(url@) == strip_slashes(chars@.subrange(0, end as int)),
        decreases end,
    {
        assert(chars@.subrange(0, end as int).drop_last() == chars@.subrange(0, end - 1));
        end = end - 1;
    }
    let kept = copy_range(chars.as_slice(), 0, end);
    from_chars(kept.as_slice())
}

/// The trimmed `value` when it is given and not blank.
pub open spec fn nonblank(value: Option<String>) -> Option<Seq<char>> {
    if value is Some && trim(value->0@).len() > 0 {
        Some(trim(value->0@))
    } else {
        None
    }
}

fn nonblank_string(value: &Option<String>) -> (r: Option<String>)
    ensures
        match r {
            Some(s) => nonblank(*value) == Some(s@),
            None => nonblank(*value) is None,
        },
{
    match value {
        Some(v) => {
            let chars = to_chars(v.as_str());
            let t = trim_chars(chars.as_slice());
            if t.len() > 0 {
                Some(from_chars(t.as_slice()))
            } else {
                None
            }
        },
        None => None,
    }
}

/// The reranking model of a profile: its reranking model when one is set
/// (trimmed), else its model (trimmed), else none.
pub open spec fn rerank_model_of(p: BackendProfile) -> Option<Seq<char>> {
    if nonblank(p.rerank_model) is Some {
        nonblank(p.rerank_model)
    } else if trim(p.model@).len() > 0 {
        Some(trim(p.model@))
    } else {
        None
    }
}

/// Which model reranking asks for: a reranking model that is set and not
/// blank wins, trimmed, whatever the embedding model is; without one, the
/// embedding model, trimmed, when it is not blank; else none.
pub proof fn lemma_rerank_model_choice(p: BackendProfile)
    ensures
        (p.rerank_model matches Some(m) && trim(m@).len() > 0) ==> rerank_model_of(p) == Some(
            trim(p.rerank_model->0@),
        ),
        !(p.rerank_model matches Some(m) && trim(m@).len() > 0) && trim(p.model@).len() > 0
            ==> rerank_model_of(p) == Some(trim(p.model@)),
        !(p.rerank_model matches Some(m) && trim(m@).len() > 0) && trim(p.model@).len() == 0
            ==> rerank_model_of(p) is None,
{
}

/// The base URL that embeddings are requested from.
pub open spec fn embed_base_url_of(p: BackendProfile) -> Seq<char> {
    strip_slashes(trim(p.base_url@))
}

/// The base URL that reranking is requested from: the reranking base URL
/// when one is set, else the base URL.
pub open spec fn rerank_base_url_of(p: BackendProfile) -> Seq<char> {
    strip_slashes(trim(effective_setting(p.rerank_base_url, p.base_url@)))
}

/// Where reranking requests go: a reranking base URL that is set and not
/// blank wins, trimmed and without trailing `/`, whatever the base URL is;
/// without one, the base URL, trimmed and without trailing `/`.
pub proof fn lemma_rerank_base_url_choice(p: BackendProfile)
    ensures
        (p.rerank_base_url matches Some(u) && trim(u@).len() > 0) ==> rerank_base_url_of(p)
            == strip_slashes(trim(p.rerank_base_url->0@)),
        !(p.rerank_base_url matches Some(u) && trim(u@).len() > 0) ==> rerank_base_url_of(p)
            == strip_slashes(trim(p.base_url@)),
{
    if p.rerank_base_url matches Some(u) && trim(u@).len() > 0 {
        lemma_trim_ends(p.rerank_base_url->0@);
        lemma_trim_of_trimmed(trim(p.rerank_base_url->0@));
    }
}

/// The text of a log line: `value` itself when it has at most `max_chars`
/// characters, else its first `max_chars` characters and a note of the cut.
pub open spec fn log_preview(value: Seq<char>, max_chars: int) -> Seq<char> {
    if value.len() <= max_chars {
        value
    } else {
        value.take(max_chars) + "… <trimmed "@ + decimal(value.len()) + " chars to "@ + decimal(
            max_chars as nat,
        ) + ">"@
    }
}

impl BackendClient {
    /// A client for the backend described by `profile`.
    pub fn new(profile: BackendProfile, debug_http: bool) -> (r: Result<BackendClient, BackendError>)
        ensures
            r matches Ok(c) ==> c.profile() == profile && c.debug_http() == debug_http
                && client_timeout_secs(c.http_client()) == REQUEST_TIMEOUT_SECS,
    {
        match build_http_client(REQUEST_TIMEOUT_SECS) {
            Ok(client) => Ok(BackendClient { client, profile, debug_http }),
            Err(e) => Err(BackendError::HttpClient(e)),
        }
    }

    /// The profile this client serves.
    pub closed spec fn profile(&self) -> BackendProfile {
        self.profile
    }

    /// Whether requests and responses are logged.
    pub closed spec fn debug_http(&self) -> bool {
        self.debug_http
    }

    /// The HTTP client.
    pub closed spec fn http_client(&self) -> reqwest::Client {
        self.client
    }

    /// The HTTP client.
    pub fn http(&self) -> (r: &reqwest::Client)
        ensures
            *r == self.http_client(),
    {
        &self.client
    }

    /// The profile this client serves.
    pub fn backend_profile(&self) -> (r: &BackendProfile)
        ensures
            *r == self.profile(),
    {
        &self.profile
    }

    /// Whether requests and responses are logged.
    pub fn logs_http(&self) -> (r: bool)
        ensures
            r == self.debug_http(),
    {
        self.debug_http
    }

    /// The base URL that embeddings are requested from.
    pub fn normalize_embed_base_url(&self) -> (r: String)
        ensures
            r@ == embed_base_url_of(self.profile()),
    {
        let t = crate::strings::trim_str(self.profile.base_url.as_str());
        normalize_url(t.as_str())
    }

    /// The base URL that reranking is requested from.
    pub fn normalize_rerank_base_url(&self) -> (r: String)
        ensures
            r@ == rerank_base_url_of(self.profile()),
            (self.profile().rerank_base_url matches Some(u) && trim(u@).len() > 0) ==> r@
                == strip_slashes(trim(self.profile().rerank_base_url->0@)),
            !(self.profile().rerank_base_url matches Some(u) && trim(u@).len() > 0) ==> r@
                == strip_slashes(trim(self.profile().base_url@)),
    {
        proof {
            lemma_rerank_base_url_choice(self.profile());
        }
        let chosen = effective_setting_chars(
            &self.profile.rerank_base_url,
            self.profile.base_url.as_str(),
        );
        let t = trim_chars(chosen.as_slice());
        let s = from_chars(t.as_slice());
        normalize_url(s.as_str())
    }

    /// The base URLs tried for llama.cpp embeddings.
    pub fn llama_cpp_base_urls(&self) -> (r: Vec<String>)
        ensures
            r.len() == 1,
            r@[0]@ == embed_base_url_of(self.profile()),
    {
        let mut r = Vec::new();
        r.push(self.normalize_embed_base_url());
        r
    }

    /// The bearer token sent with requests: the API key when one is set
    /// (trimmed).
    pub fn auth_token(&self) -> (r: Option<String>)
        ensures
            match r {
                Some(t) => nonblank(self.profile().api_key) == Some(t@),
                None => nonblank(self.profile().api_key) is None,
            },
    {
        nonblank_string(&self.profile.api_key)
    }

    /// The model that reranking asks for.
    pub fn effective_rerank_model(&self) -> (r: Option<String>)
        ensures
            match r {
                Some(m) => rerank_model_of(self.profile()) == Some(m@),
                None => rerank_model_of(self.profile()) is None,
            },
            (self.profile().rerank_model matches Some(m) && trim(m@).len() > 0) ==> (r matches Some(
                x,
            ) && x@ == trim(self.profile().rerank_model->0@)),
            !(self.profile().rerank_model matches Some(m) && trim(m@).len() > 0) ==> (if trim(
                self.profile().model@,
            ).len() > 0 {
                r matches Some(x) && x@ == trim(self.profile().model@)
            } else {
                r is None
            }),
    {
        proof {
            lemma_rerank_model_choice(self.profile());
        }
        match nonblank_string(&self.profile.rerank_model) {
            Some(m) => Some(m),
            None => {
                let chars = to_chars(self.profile.model.as_str());
                let t = trim_chars(chars.as_slice());
                if t.len() > 0 {
                    Some(from_chars(t.as_slice()))
                } else {
                    None
                }
            },
        }
    }

    /// The text logged for a request or response body.
    pub fn preview(value: &str, max_chars: usize) -> (r: String)
        ensures
            r@ == log_preview(value@, max_chars as int),
    {
        let chars = to_chars(value);
        if chars.len() <= max_chars {
            return from_chars(chars.as_slice());
        }
        let prefix = copy_range(chars.as_slice(), 0, max_chars);
        assert(chars@.subrange(0, max_chars as int) == chars@.take(max_chars as int));
        let mut r = from_chars(prefix.as_slice());
        r.append("… <trimmed ");
        let count = usize_to_decimal(chars.len());
        let count_s = from_chars(count.as_slice());
        r.append(count_s.as_str());
        r.append(" chars to ");
        let max_digits = usize_to_decimal(max_chars);
        let max_s = from_chars(max_digits.as_slice());
        r.append(max_s.as_str());
        r.append(">");
        r
    }
}

/// The name of a backend kind.
pub open spec fn backend_label(b: EmbeddingBackend) -> Seq<char> {
    match b {
        EmbeddingBackend::LlamaCpp(_) => "llama.cpp"@,
        EmbeddingBackend::Ollama(_) => "ollama"@,
        EmbeddingBackend::Vllm(_) => "vllm"@,
    }
}

/// The path, under the base URL, that a backend kind serves embeddings at.
pub open spec fn embedding_path(b: EmbeddingBackend) -> Seq<char> {
    match b {
        EmbeddingBackend::LlamaCpp(_) => "/embedding"@,
        EmbeddingBackend::Ollama(_) => "/api/embed"@,
        EmbeddingBackend::Vllm(_) => "/v1/embeddings"@,
    }
}

/// The paths, under the reranking base URL, that a backend kind is asked
/// for reranking at, in the order they are tried.
pub open spec fn rerank_paths(b: EmbeddingBackend) -> Seq<Seq<char>> {
    match b {
        EmbeddingBackend::LlamaCpp(_) => seq!["/rerank"@, "/v1/rerank"@, "/api/rerank"@],
        EmbeddingBackend::Ollama(_) => seq!["/api/chat"@],
        EmbeddingBackend::Vllm(_) => seq!["/v1/rerank"@, "/rerank"@],
    }
}

impl EmbeddingBackend {
    /// A backend of the chosen kind for `profile`.
    pub fn new(choice: BackendChoice, profile: BackendProfile, debug_http: bool) -> (r: Result<
        EmbeddingBackend,
        BackendError,
    >)
        ensures
            r matches Ok(b) ==> b.client().profile() == profile && b.client().debug_http()
                == debug_http && client_timeout_secs(b.client().http_client())
                == REQUEST_TIMEOUT_SECS && match choice {
                BackendChoice::LlamaCpp => b is LlamaCpp,
                BackendChoice::Ollama => b is Ollama,
            },
    {
        let client = match BackendClient::new(profile, debug_http) {
            Ok(c) => c,
            Err(e) => return Err(e),
        };
        Ok(
            match choice {
                BackendChoice::LlamaCpp => EmbeddingBackend::LlamaCpp(client),
                BackendChoice::Ollama => EmbeddingBackend::Ollama(client),
            },
        )
    }

    /// The client of this backend.
    pub open spec fn client(&self) -> BackendClient {
        match self {
            EmbeddingBackend::LlamaCpp(c) => *c,
            EmbeddingBackend::Ollama(c) => *c,
            EmbeddingBackend::Vllm(c) => *c,
        }
    }

    /// The client of this backend.
    pub fn backend_client(&self) -> (r: &BackendClient)
        ensures
            *r == self.client(),
    {
        match self {
            EmbeddingBackend::LlamaCpp(c) => c,
            EmbeddingBackend::Ollama(c) => c,
            EmbeddingBackend::Vllm(c) => c,
        }
    }

    /// The name of this backend's kind.
    pub fn label(&self) -> (r: &'static str)
        ensures
            r@ == backend_label(*self),
    {
        match self {
            EmbeddingBackend::LlamaCpp(_) => "llama.cpp",
            EmbeddingBackend::Ollama(_) => "ollama",
            EmbeddingBackend::Vllm(_) => "vllm",
        }
    }

    /// The model that reranking asks for.
    pub fn rerank_model_label(&self) -> (r: Option<String>)
        ensures
            match r {
                Some(m) => rerank_model_of(self.client().profile()) == Some(m@),
                None => rerank_model_of(self.client().profile()) is None,
            },
            (self.client().profile().rerank_model matches Some(m) && trim(m@).len() > 0) ==> (r matches Some(
                x,
            ) && x@ == trim(self.client().profile().rerank_model->0@)),
    {
        self.backend_client().effective_rerank_model()
    }

    /// The URL that embeddings are requested from.
    pub fn embedding_url(&self) -> (r: String)
        ensures
            r@ == embed_base_url_of(self.client().profile()) + embedding_path(*self),
    {
        let mut url = self.backend_client().normalize_embed_base_url();
        match self {
            EmbeddingBackend::LlamaCpp(_) => url.append("/embedding"),
            EmbeddingBackend::Ollama(_) => url.append("/api/embed"),
            EmbeddingBackend::Vllm(_) => url.append("/v1/embeddings"),
        }
        url
    }

    /// The URLs that reranking is requested from, in the order they are
    /// tried.
    pub fn rerank_urls(&self) -> (r: Vec<String>)
        ensures
            r.len() == rerank_paths(*self).len(),
            forall|i: int|
                0 <= i < r.len() ==> (#[trigger] r@[i])@ == rerank_base_url_of(self.client().profile())
                    + rerank_paths(*self)[i],
    {
        let base = self.backend_client().normalize_rerank_base_url();
        let paths: Vec<&'static str> = match self {
            EmbeddingBackend::LlamaCpp(_) => vec!["/rerank", "/v1/rerank", "/api/rerank"],
            EmbeddingBackend::Ollama(_) => vec!["/api/chat"],
            EmbeddingBackend::Vllm(_) => vec!["/v1/rerank", "/rerank"],
        };
        let ghost path_views = paths@.map_values(|p: &str| p@);
        assert(path_views =~= rerank_paths(*self));
        let mut r: Vec<String> = Vec::new();
        let mut i: usize = 0;
        while i < paths.len()
            invariant
                i <= paths.len(),
                path_views == paths@.map_values(|p: &str| p@),
                r.len() == i,
                forall|k: int|
                    0 <= k < i ==> (#[trigger] r@[k])@ == base@ + path_views[k],
            decreases paths.len() - i,
        {
            let mut url = base.clone();
            url.append(paths[i]);
            r.push(url);
            i = i + 1;
        }
        r
    }
}

/// The number of documents that Ollama is asked to score: `top_n`, but no
/// more than there are documents, and at least 1.
pub fn ollama_candidate_count(top_n: usize, document_count: usize) -> (r: usize)
    ensures
        r == (if top_n < document_count {
            if top_n < 1 {
                1
            } else {
                top_n
            }
        } else if document_count < 1 {
            1
        } else {
            document_count
        }),
{
    let m = if top_n < document_count {
        top_n
    } else {
        document_count
    };
    if m < 1 {
        1
    } else {
        m
    }
}

/// The prompt that asks a chat model to score one document for a query.
pub open spec fn rerank_prompt_of(query: Seq<char>, document: Seq<char>) -> Seq<char> {
    "You are a reranker.\nRate the relevance between the query and document from 0 to 1.\nReturn JSON only with this exact shape: {\"score\": number}.\n\nQuery:\n"@
        + query + "\n\nDocument:\n"@ + document + "\n"@
}

/// The prompt that asks a chat model to score `document` for `query`.
pub fn ollama_rerank_prompt(query: &str, document: &str) -> (r: String)
    ensures
        r@ == rerank_prompt_of(query@, document@),
{
    let mut r = String::from_str(
        "You are a reranker.\nRate the relevance between the query and document from 0 to 1.\nReturn JSON only with this exact shape: {\"score\": number}.\n\nQuery:\n",
    );
    r.append(query);
    r.append("\n\nDocument:\n");
    r.append(document);
    r.append("\n");
    r
}

/// The next step in asking a backend for reranking, which tries every
/// endpoint with every payload in turn (endpoints in order, and for each
/// endpoint the payloads in order) until one answers with success.
pub enum RerankStep {
    /// Send payload number `payload` to endpoint number `endpoint`.
    Send { endpoint: usize, payload: usize },
    /// The last request succeeded: read its response.
    Parse,
    /// Every endpoint and payload was tried without success.
    GiveUp,
}

/// The step after `attempt` requests were sent, `last_ok` telling whether
/// the last one succeeded (`None` before the first).
pub open spec fn rerank_step_of(attempt: int, n_endpoints: int, n_payloads: int, last_ok: Option<bool>) -> RerankStep {
    if last_ok == Some(true) {
        RerankStep::Parse
    } else if 0 <= attempt < n_endpoints * n_payloads {
        RerankStep::Send {
            endpoint: (attempt / n_payloads) as usize,
            payload: (attempt % n_payloads) as usize,
        }
    } else {
        RerankStep::GiveUp
    }
}

/// Decides what to do next when asking for reranking: read the response of a
/// request that succeeded, else send the next endpoint and payload pair,
/// else give up.
pub fn rerank_next(attempt: usize, n_endpoints: usize, n_payloads: usize, last_ok: Option<bool>) -> (r:
    RerankStep)
    ensures
        r == rerank_step_of(attempt as int, n_endpoints as int, n_payloads as int, last_ok),
        r matches RerankStep::Send { endpoint, payload } ==> endpoint < n_endpoints && payload
            < n_payloads,
{
    match last_ok {
        Some(true) => return RerankStep::Parse,
        _ => {},
    }
    if n_payloads == 0 {
        proof {
            assert(n_endpoints * 0 == 0) by (nonlinear_arith);
        }
        return RerankStep::GiveUp;
    }
    let endpoint = attempt / n_payloads;
    let payload = attempt % n_payloads;
    proof {
        assert(attempt < n_endpoints * n_payloads <==> attempt / n_payloads < n_endpoints)
            by (nonlinear_arith)
            requires
                n_payloads > 0,
        ;
    }
    if endpoint < n_endpoints {
        RerankStep::Send { endpoint, payload }
    } else {
        RerankStep::GiveUp
    }
}

/// Every endpoint and payload pair is sent exactly once, endpoint by
/// endpoint: the request sent after `attempt` failed ones goes to endpoint
/// `attempt / n_payloads` with payload `attempt % n_payloads`, and the
/// attempts before `n_endpoints * n_payloads` reach every pair.
pub proof fn lemma_rerank_steps_cover_pairs(n_endpoints: int, n_payloads: int, endpoint: int, payload: int)
    requires
        0 <= endpoint < n_endpoints,
        0 <= payload < n_payloads,
        n_endpoints * n_payloads <= usize::MAX,
    ensures
        rerank_step_of(endpoint * n_payloads + payload, n_endpoints, n_payloads, Some(false))
            == (RerankStep::Send { endpoint: endpoint as usize, payload: payload as usize }),
        rerank_step_of(n_endpoints * n_payloads, n_endpoints, n_payloads, Some(false))
            == RerankStep::GiveUp,
{
    let a = endpoint * n_payloads + payload;
    assert(0 <= a < n_endpoints * n_payloads) by (nonlinear_arith)
        requires
            0 <= endpoint < n_endpoints,
            0 <= payload < n_payloads,
            a == endpoint * n_payloads + payload,
    ;
    assert(a / n_payloads == endpoint && a % n_payloads == payload) by (nonlinear_arith)
        requires
            0 <= endpoint,
            0 <= payload < n_payloads,
            a == endpoint * n_payloads + payload,
    ;
}

/// The error reported when no endpoint and payload pair succeeded: the
/// backend's label and each failure, separated by `" | "`.
pub fn rerank_failure_message(label: &str, errors: &[String]) -> (r: String)
    ensures
        r@ == label@ + " rerank request failed on all endpoint/payload combinations: "@ + join(
            string_views(errors@),
            " | "@,
        ),
{
    let mut pieces: Vec<Vec<char>> = Vec::new();
    let mut i: usize = 0;
    while i < errors.len()
        invariant
            i <= errors.len(),
            views(pieces@) == string_views(errors@).take(i as int),
        decreases errors.len() - i,
    {
        let piece = to_chars(errors[i].as_str());
        let ghost before = pieces@;
        pieces.push(piece);
        assert(views(pieces@) == views(before).push(errors@[i as int]@));
        assert(string_views(errors@).take(i + 1) == string_views(errors@).take(i as int).push(
            errors@[i as int]@,
        ));
        i = i + 1;
    }
    assert(string_views(errors@).take(errors.len() as int) == string_views(errors@));
    let sep = to_chars(" | ");
    let joined = join_chars(pieces.as_slice(), sep.as_slice());
    let mut r = String::from_str(label);
    r.append(" rerank request failed on all endpoint/payload combinations: ");
    let tail = from_chars(joined.as_slice());
    r.append(tail.as_str());
    r
}

/// The shape of a reranking request body sent to a backend's rerank
/// endpoint; every shape also carries the query, the documents and `top_n`.
#[derive(PartialEq, Eq, Structural)]
pub enum RerankPayload {
    /// The model, with the documents under `documents`.
    ModelDocuments,
    /// No model, with the documents under `documents`.
    Documents,
    /// The model, with the documents under `input`.
    ModelInput,
}

/// The request bodies tried against each rerank endpoint of a backend, in
/// order; Ollama reranks through chat requests instead and gets none.
pub open spec fn rerank_payloads_of(b: EmbeddingBackend) -> Seq<RerankPayload> {
    match b {
        EmbeddingBackend::LlamaCpp(_) => seq![
            RerankPayload::ModelDocuments,
            RerankPayload::Documents,
            RerankPayload::ModelInput,
        ],
        EmbeddingBackend::Ollama(_) => seq![],
        EmbeddingBackend::Vllm(_) => seq![RerankPayload::ModelDocuments, RerankPayload::Documents],
    }
}

impl EmbeddingBackend {
    /// The request bodies tried against each rerank endpoint, in order.
    pub fn rerank_payloads(&self) -> (r: Vec<RerankPayload>)
        ensures
            r@ == rerank_payloads_of(*self),
    {
        let mut r: Vec<RerankPayload> = Vec::new();
        match self {
            EmbeddingBackend::LlamaCpp(_) => {
                r.push(RerankPayload::ModelDocuments);
                r.push(RerankPayload::Documents);
                r.push(RerankPayload::ModelInput);
            },
            EmbeddingBackend::Ollama(_) => {},
            EmbeddingBackend::Vllm(_) => {
                r.push(RerankPayload::ModelDocuments);
                r.push(RerankPayload::Documents);
            },
        }
        proof {
            assert(r@ =~= rerank_payloads_of(*self));
        }
        r
    }
}

/// The index of the first of a rerank item's index fields that holds an
/// unsigned integer (the fields tried in order are `index`, `document_index`,
/// `doc_index` and `input_index`).
pub open spec fn first_index(fields: Seq<Option<u64>>) -> Option<usize>
    decreases fields.len(),
{
    if fields.len() == 0 {
        None
    } else {
        match fields[0] {
            Some(v) => Some(v as usize),
            None => first_index(fields.drop_first()),
        }
    }
}

/// The document index of a rerank item, from the values of its index fields
/// in the order they are tried.
pub fn rerank_item_index(fields: &[Option<u64>]) -> (r: Option<usize>)
    ensures
        r == first_index(fields@),
{
    let mut i: usize = 0;
    assert(fields@.skip(0) == fields@);
    while i < fields.len()
        invariant
            i <= fields.len(),
            first_index(fields@) == first_index(fields@.skip(i as int)),
        decreases fields.len() - i,
    {
        assert(fields@.skip(i as int)[0] == fields@[i as int]);
        assert(fields@.skip(i as int).drop_first() == fields@.skip(i + 1));
        match fields[i] {
            Some(v) => {
                return Some(v as usize);
            },
            None => {},
        }
        i = i + 1;
    }
    assert(fields@.skip(i as int).len() == 0);
    None
}

} // verus!
