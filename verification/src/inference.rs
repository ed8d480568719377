//! "Talk to a model": the normalized request and response of an
//! OpenAI-compatible model server, the offline echo endpoint, and the pieces
//! of the real client that are decisions rather than I/O — where its URLs
//! point and what a reply or a failed probe means.

use vstd::prelude::*;
use crate::text::{append_str, concat2, strip_suffix, strip_suffix_of, trim_slashes, trim_trailing_slashes};

verus! {

/// An OpenAI-compatible generation request, trimmed to what is needed.
#[derive(Debug, PartialEq, Eq)]
pub struct GenerateRequest {
    pub model: String,
    pub prompt: String,
}

#[derive(Debug, PartialEq, Eq)]
pub struct GenerateResponse {
    pub text: String,
}

#[derive(Debug, Clone, Copy, PartialEq, Eq, Structural)]
pub enum Health {
    Ready,
    Unavailable,
}

#[derive(Debug, PartialEq, Eq)]
pub enum InferenceError {
    Unavailable,
    Transport(String),
    EmptyResponse,
}

/// The text an inference error is reported with.
pub open spec fn inference_error_text(e: InferenceError) -> Seq<char> {
    match e {
        InferenceError::Unavailable => "endpoint unavailable"@,
        InferenceError::Transport(m) => "inference transport error: "@ + m@,
        InferenceError::EmptyResponse => "model response contained no choices"@,
    }
}

impl InferenceError {
    /// The error as a line of text.
    pub fn message(&self) -> (r: String)
        ensures
            r@ == inference_error_text(*self),
    {
        match self {
            InferenceError::Unavailable => "endpoint unavailable".to_string(),
            InferenceError::Transport(m) => {
                let mut r = "inference transport error: ".to_string();
                append_str(&mut r, m.as_str());
                r
            },
            InferenceError::EmptyResponse => "model response contained no choices".to_string(),
        }
    }
}

/// Offline echo endpoint for tests: always healthy, deterministically
/// prefixes the prompt with the model.
pub struct FakeEndpoint;

impl FakeEndpoint {
    pub fn generate(&self, req: GenerateRequest) -> (r: Result<GenerateResponse, InferenceError>)
        ensures
            r matches Ok(resp) && resp.text@ == "["@ + req.model@ + "] "@ + req.prompt@,
    {
        let mut text = "[".to_string();
        append_str(&mut text, req.model.as_str());
        append_str(&mut text, "] ");
        append_str(&mut text, req.prompt.as_str());
        Ok(GenerateResponse { text })
    }

    pub fn health(&self) -> (r: Result<Health, InferenceError>)
        ensures
            r == Ok::<Health, InferenceError>(Health::Ready),
    {
        Ok(Health::Ready)
    }
}

/// The server root for a configured base URL: trailing slashes and a `/v1`
/// suffix removed, so either form of the URL works.
pub open spec fn server_root(url: Seq<char>) -> Seq<char> {
    match strip_suffix(trim_slashes(url), "/v1"@) {
        Some(root) => root,
        None => trim_slashes(url),
    }
}

pub fn normalize_base_url(base_url: &str) -> (r: String)
    ensures
        r@ == server_root(base_url@),
{
    let trimmed = trim_trailing_slashes(base_url);
    match strip_suffix_of(trimmed.as_str(), "/v1") {
        Some(root) => root,
        None => trimmed,
    }
}

/// `GET` here lists the served models and doubles as the health probe.
pub fn models_url(root: &str) -> (r: String)
    ensures
        r@ == root@ + "/v1/models"@,
{
    concat2(root, "/v1/models")
}

/// `POST` here generates a chat completion.
pub fn chat_url(root: &str) -> (r: String)
    ensures
        r@ == root@ + "/v1/chat/completions"@,
{
    concat2(root, "/v1/chat/completions")
}

/// The generated text of a completion: the content of its first choice, or an
/// error when it has none.
pub fn first_choice(contents: Vec<String>) -> (r: Result<GenerateResponse, InferenceError>)
    ensures
        contents.len() == 0 ==> r == Err::<GenerateResponse, InferenceError>(InferenceError::EmptyResponse),
        contents.len() > 0 ==> (r matches Ok(resp) && resp.text@ == contents@[0]@),
{
    if contents.len() == 0 {
        Err(InferenceError::EmptyResponse)
    } else {
        Ok(GenerateResponse { text: contents[0].clone() })
    }
}

/// A health probe reports `Ready` when the server answered successfully and
/// `Unavailable` otherwise — never an error.
pub fn health_from_probe(answered: bool) -> (r: Health)
    ensures
        r == (if answered { Health::Ready } else { Health::Unavailable }),
{
    if answered {
        Health::Ready
    } else {
        Health::Unavailable
    }
}


/// Either form of a server's base URL — the root, or the root with `/v1`,
/// with or without a trailing slash — normalizes to the same root.
pub proof fn lemma_base_url_forms_agree(root: Seq<char>)
    requires
        root.len() > 0 && root.last() != '/',
        strip_suffix(root, "/v1"@) is None,
    ensures
        server_root(root) == root,
        server_root(root + "/"@) == root,
        server_root(root + "/v1"@) == root,
        server_root(root + "/v1/"@) == root,
{
    reveal_strlit("/");
    reveal_strlit("/v1");
    reveal_strlit("/v1/");
    let a = root + "/"@;
    assert(a.drop_last() =~= root);
    let b = root + "/v1"@;
    let c = root + "/v1/"@;
    assert(c.drop_last() =~= b);
    assert(trim_slashes(b) == b);
    assert(b.subrange(b.len() - 3, b.len() as int) =~= "/v1"@);
    assert(b.subrange(0, b.len() - 3) =~= root);
}

} // verus!
