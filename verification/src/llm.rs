//! The language-model abstraction the tool layer talks to, and the
//! stand-in used when no model is configured.

use crate::error::WikiError;
use vstd::prelude::*;

verus! {

/// A completion request.
#[derive(Debug, Clone)]
pub struct CompletionRequest {
    pub system: Option<String>,
    pub prompt: String,
    pub max_tokens: Option<u32>,
}

/// A completion.
#[derive(Debug, Clone)]
pub struct CompletionResponse {
    pub text: String,
}

/// A language-model backend (a hosted API, a local model, a subprocess).
pub trait LlmBackend {
    /// Produce a completion, or an error when the backend is unavailable
    /// or fails.
    fn complete(&self, req: &CompletionRequest) -> Result<CompletionResponse, WikiError>;

    /// Whether the backend is configured and reachable.
    fn available(&self) -> bool;
}

/// The backend used when none is configured: never available.
#[derive(Debug)]
pub struct NoopLlm;

impl LlmBackend for NoopLlm {
    fn complete(&self, req: &CompletionRequest) -> (r: Result<CompletionResponse, WikiError>)
        ensures
            r matches Err(WikiError::LlmUnavailable),
    {
        Err(WikiError::LlmUnavailable)
    }

    fn available(&self) -> (r: bool)
        ensures
            !r,
    {
        false
    }
}

} // verus!
