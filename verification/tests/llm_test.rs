use lw_core::llm::{CompletionRequest, LlmBackend, NoopLlm};
use lw_core::WikiError;

#[test]
fn noop_llm_is_unavailable() {
    let llm = NoopLlm;
    assert!(!llm.available());
    let req = CompletionRequest { system: None, prompt: "hi".to_string(), max_tokens: Some(5) };
    assert!(matches!(llm.complete(&req), Err(WikiError::LlmUnavailable)));
}
