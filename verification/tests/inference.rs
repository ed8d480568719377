use sag::inference::{
    chat_url, first_choice, health_from_probe, models_url, normalize_base_url, FakeEndpoint, GenerateRequest, Health,
    InferenceError,
};

#[test]
fn fake_endpoint_is_ready_and_echoes() {
    assert_eq!(FakeEndpoint.health().unwrap(), Health::Ready);
    let resp = FakeEndpoint
        .generate(GenerateRequest {
            model: "qwen3-coder:30b".into(),
            prompt: "hello".into(),
        })
        .unwrap();
    assert_eq!(resp.text, "[qwen3-coder:30b] hello");
}

#[test]
fn openai_endpoint_normalizes_base_url() {
    for input in ["http://h:11434", "http://h:11434/", "http://h:11434/v1", "http://h:11434/v1/"] {
        assert_eq!(normalize_base_url(input), "http://h:11434");
    }
}

#[test]
fn endpoint_urls_and_replies() {
    assert_eq!(models_url("http://h:1"), "http://h:1/v1/models");
    assert_eq!(chat_url("http://h:1"), "http://h:1/v1/chat/completions");
    assert_eq!(first_choice(vec!["first".into(), "second".into()]).unwrap().text, "first");
    assert_eq!(first_choice(vec![]), Err(InferenceError::EmptyResponse));
    assert_eq!(health_from_probe(true), Health::Ready);
    assert_eq!(health_from_probe(false), Health::Unavailable);
    assert_eq!(normalize_base_url("http://h/v1/v1//"), "http://h/v1");
}

#[test]
fn inference_error_texts() {
    assert_eq!(InferenceError::Unavailable.message(), "endpoint unavailable");
    assert_eq!(InferenceError::Transport("reset".into()).message(), "inference transport error: reset");
    assert_eq!(InferenceError::EmptyResponse.message(), "model response contained no choices");
}
