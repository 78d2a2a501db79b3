use gemma4_serving::schema::{
    ChatCompletionRequest, ChatMessage, ChunkDelta, CompletionRequest, ErrorResponse, Json, OneOrMany,
    StreamOptions,
};

fn chat() -> ChatCompletionRequest {
    ChatCompletionRequest {
        model: "gemma-4-12b-it".to_owned(),
        messages: Vec::<ChatMessage>::new(),
        stream: false,
        max_tokens: None,
        max_completion_tokens: None,
        temperature: None,
        top_p: None,
        top_k: None,
        stop: None,
        n: None,
        modalities: None,
        audio: None,
        chat_template_kwargs: None,
        reasoning_effort: None,
        stream_options: None,
        response_format: None,
        seed: None,
        tools: None,
        tool_choice: None,
        logprobs: None,
        top_logprobs: None,
        logit_bias: None,
        frequency_penalty: None,
        presence_penalty: None,
    }
}

fn text(value: &str) -> Json {
    Json::Text(value.to_owned())
}

#[test]
fn one_or_many_is_a_list() {
    assert_eq!(OneOrMany::One(3).into_vec(), vec![3]);
    assert_eq!(OneOrMany::Many(vec![1, 2]).into_vec(), vec![1, 2]);
    assert_eq!(OneOrMany::<u8>::Many(vec![]).into_vec(), Vec::<u8>::new());
}

#[test]
fn values_that_ask_for_nothing_are_let_pass() {
    let nothing: Vec<fn() -> Json> = vec![
        || Json::Null,
        || Json::Bool(false),
        || Json::Number(0.0f64.to_bits()),
        || Json::Number((-0.0f64).to_bits()),
        || text("none"),
        || text("auto"),
        || Json::Array(vec![]),
        || Json::Object(vec![]),
        || Json::Object(vec![("type".to_owned(), text("text"))]),
    ];
    for value in nothing {
        let mut body = chat();
        body.tools = Some(value());
        assert_eq!(body.unsupported(), None);
    }
}

#[test]
fn values_that_ask_for_something_are_found() {
    let something: Vec<fn() -> Json> = vec![
        || Json::Bool(true),
        || Json::Number(1.0f64.to_bits()),
        || Json::Number(5e-324f64.to_bits()),
        || text("required"),
        || text(""),
        || Json::Array(vec![Json::Null]),
        || Json::Object(vec![("type".to_owned(), text("json_object"))]),
        || Json::Object(vec![("kind".to_owned(), text("text"))]),
        || Json::Object(vec![("type".to_owned(), Json::Bool(false))]),
    ];
    for value in something {
        let mut body = chat();
        body.tools = Some(value());
        assert_eq!(body.unsupported(), Some("tools"));
    }
}

#[test]
fn first_unsupported_field_is_named() {
    let mut body = chat();
    body.presence_penalty = Some(Json::Bool(true));
    assert_eq!(body.unsupported(), Some("presence_penalty"));
    body.logprobs = Some(Json::Bool(true));
    assert_eq!(body.unsupported(), Some("logprobs"));
    body.response_format = Some(Json::Bool(true));
    assert_eq!(body.unsupported(), Some("response_format"));
}

#[test]
fn completions_have_fewer_fields() {
    let mut body = CompletionRequest {
        model: String::new(),
        prompt: OneOrMany::One(String::new()),
        stream: false,
        max_tokens: None,
        temperature: None,
        top_p: None,
        stop: None,
        n: None,
        stream_options: None,
        seed: None,
        logprobs: None,
        logit_bias: None,
        frequency_penalty: None,
        presence_penalty: None,
    };
    assert_eq!(body.unsupported(), None);
    body.logit_bias = Some(Json::Bool(true));
    assert_eq!(body.unsupported(), Some("logit_bias"));
    body.seed = Some(Json::Number(7.0f64.to_bits()));
    assert_eq!(body.unsupported(), Some("seed"));
}

#[test]
fn defaults_are_empty() {
    assert!(!StreamOptions::default().include_usage);
    let delta = ChunkDelta::default();
    assert!(delta.role.is_none() && delta.content.is_none() && delta.reasoning_content.is_none());
}

#[test]
fn error_responses_hold_what_they_are_given() {
    let plain = ErrorResponse::new("internal_error", "gone".to_owned()).error;
    assert_eq!((plain.error_type, plain.message.as_str(), plain.param, plain.code), ("internal_error", "gone", None, None));
    let blamed = ErrorResponse::with_param("invalid_request_error", "bad".to_owned(), "stop").error;
    assert_eq!(blamed.param, Some("stop"));
    assert_eq!(blamed.message, "bad");
}
