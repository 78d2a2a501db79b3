use gemma4_serving::generate::{SoftToken, DEFAULT_MAX_NEW_TOKENS, IMAGE_TOKEN};
use gemma4_serving::handlers::{
    audio_not_implemented, chat_call, chat_completions, check_chat, check_completion, completion_call,
    completions, list_models, not_found, validate_budget, validate_model, validate_n, validate_stop,
    validate_top_k, validate_unsupported, wants_thinking,
};
use gemma4_serving::image::ImagePatches;
use gemma4_serving::messages::{assemble_messages, build_chat_messages};
use gemma4_serving::refusal::Refusal;
use gemma4_serving::schema::{
    ChatCompletionRequest, ChatMessage, CompletionRequest, ContentPart, ImageUrl, InputAudio, Json,
    MessageContent, OneOrMany, StreamOptions,
};
use gemma4_serving::tokenizer::{TemplateContent, TemplatePart, Tokenizer};
use llm_tokenizer::{HuggingFaceTokenizer, TokenizerTrait};
use std::str::FromStr;
use std::sync::Arc;

const POSITIONS: usize = 1000;

fn user(text: &str) -> ChatMessage {
    ChatMessage { role: "user".to_owned(), content: Some(MessageContent::Text(text.to_owned())) }
}

fn chat(messages: Vec<ChatMessage>) -> ChatCompletionRequest {
    ChatCompletionRequest {
        model: "gemma-4-12b-it".to_owned(),
        messages,
        stream: false,
        max_tokens: None,
        max_completion_tokens: None,
        temperature: None,
        top_p: None,
        top_k: None,
        stop: None,
        n: None,
        modalities: None,
        audio: None,
        chat_template_kwargs: None,
        reasoning_effort: None,
        stream_options: None,
        response_format: None,
        seed: None,
        tools: None,
        tool_choice: None,
        logprobs: None,
        top_logprobs: None,
        logit_bias: None,
        frequency_penalty: None,
        presence_penalty: None,
    }
}

fn completion(prompt: OneOrMany<String>) -> CompletionRequest {
    CompletionRequest {
        model: "gemma-4-12b-it".to_owned(),
        prompt,
        stream: false,
        max_tokens: None,
        temperature: None,
        top_p: None,
        stop: None,
        n: None,
        stream_options: None,
        seed: None,
        logprobs: None,
        logit_bias: None,
        frequency_penalty: None,
        presence_penalty: None,
    }
}

fn said<T>(r: Result<T, Refusal>) -> (u16, String, Option<&'static str>) {
    let refusal = r.err().unwrap();
    (refusal.status, refusal.body.error.message, refusal.body.error.param)
}

fn tokenizer() -> Tokenizer {
    let vocabulary = r#"{"version": "1.0", "added_tokens": [], "normalizer": null,
        "pre_tokenizer": {"type": "WhitespaceSplit"}, "post_processor": null, "decoder": null,
        "model": {"type": "WordLevel", "vocab": {"<bos>hello": 1, "world": 2, "hello": 3, "[UNK]": 4, "think": 5, "reply": 6},
        "unk_token": "[UNK]"}}"#;
    let mut inner = HuggingFaceTokenizer::from_tokenizer(tokenizers::Tokenizer::from_str(vocabulary).unwrap());
    inner
        .set_chat_template(
            "{% for m in messages %}{{ m.content }} {% endfor %}{% if enable_thinking %}think {% endif %}{% if add_generation_prompt %}reply{% endif %}"
                .to_owned(),
        )
        .unwrap();
    Tokenizer::new(Arc::new(inner))
}

#[test]
fn small_checks() {
    assert!(validate_n(None).is_ok());
    assert!(validate_n(Some(1)).is_ok());
    assert_eq!(said(validate_n(Some(0))), (400, "only n=1 is supported".to_owned(), Some("n")));
    assert!(validate_top_k(Some(262144)).is_ok());
    assert_eq!(
        said(validate_top_k(Some(262145))),
        (400, "top_k must be at most the vocabulary size (262144)".to_owned(), Some("top_k"))
    );
    assert!(validate_unsupported(None).is_ok());
    assert_eq!(
        said(validate_unsupported(Some("tools"))),
        (400, "tools is not supported by this server".to_owned(), Some("tools"))
    );
    assert!(validate_model("gemma-4-12b-it").is_ok());
    assert_eq!(
        said(validate_model("gpt\n")),
        (
            404,
            "model \"gpt\\n\" not found; this server only serves \"gemma-4-12b-it\"".to_owned(),
            Some("model")
        )
    );
}

#[test]
fn stop_strings_are_few_and_short() {
    assert!(validate_stop(&vec!["x".repeat(256); 8]).is_ok());
    assert_eq!(
        said(validate_stop(&vec!["x".to_owned(); 9])),
        (400, "at most 8 stop strings are supported".to_owned(), Some("stop"))
    );
    assert_eq!(
        said(validate_stop(&vec!["é".repeat(128), "é".repeat(129)])),
        (400, "a stop string may be at most 256 bytes; got one of 258".to_owned(), Some("stop"))
    );
}

#[test]
fn budgets_are_checked() {
    assert!(validate_budget(400, 600, 1000, "max_tokens").is_ok());
    assert_eq!(
        said(validate_budget(401, 600, 1000, "max_tokens")),
        (
            400,
            "prompt (401 tokens) plus 600 generated tokens exceeds the 1000 position context".to_owned(),
            Some("max_tokens")
        )
    );
    assert!(validate_budget(usize::MAX, usize::MAX, 1000, "max_tokens").is_err());
}

#[test]
fn fixed_answers() {
    assert_eq!(not_found().status, 404);
    assert_eq!(not_found().body.error.message, "unknown endpoint");
    let audio = audio_not_implemented();
    assert_eq!((audio.status, audio.body.error.error_type), (501, "not_implemented"));
    let models = list_models(true, 77).ok().unwrap();
    assert_eq!(models.object, "list");
    assert_eq!(models.data.len(), 1);
    assert_eq!(models.data[0].id, "gemma-4-12b-it");
    assert_eq!(models.data[0].created, 77);
    assert_eq!(models.data[0].owned_by, "furiosa");
    assert_eq!(said(list_models(false, 77)).0, 503);
}

#[test]
fn thinking_is_switched() {
    let with = |kwargs: Option<Json>, effort: Option<&str>| {
        let mut body = chat(vec![]);
        body.chat_template_kwargs = kwargs;
        body.reasoning_effort = effort.map(|e| e.to_owned());
        wants_thinking(&body)
    };
    let switch = |value: Json| Some(Json::Object(vec![("enable_thinking".to_owned(), value)]));
    assert!(!with(None, None).ok().unwrap());
    assert!(!with(None, Some("none")).ok().unwrap());
    assert!(!with(None, Some("minimal")).ok().unwrap());
    assert!(with(None, Some("low")).ok().unwrap());
    assert!(with(switch(Json::Bool(true)), Some("none")).ok().unwrap());
    assert!(!with(switch(Json::Bool(false)), Some("high")).ok().unwrap());
    assert!(with(Some(Json::Object(vec![])), Some("high")).ok().unwrap());
    assert_eq!(
        said(with(switch(Json::Null), None)),
        (
            400,
            "chat_template_kwargs.enable_thinking must be a boolean".to_owned(),
            Some("chat_template_kwargs.enable_thinking")
        )
    );
    assert_eq!(
        said(with(Some(Json::Array(vec![])), None)),
        (400, "chat_template_kwargs must be an object".to_owned(), Some("chat_template_kwargs"))
    );
}

#[test]
fn chat_checks_come_in_order() {
    let mut body = chat(vec![]);
    assert_eq!(said(check_chat(&body)).1, "messages must not be empty");
    body.modalities = Some(vec!["text".to_owned(), "audio".to_owned()]);
    assert_eq!(said(check_chat(&body)).0, 501);
    body.modalities = None;
    body.audio = Some(Json::Null);
    assert_eq!(said(check_chat(&body)).0, 501);
    body.tools = Some(Json::Bool(true));
    assert_eq!(said(check_chat(&body)).2, Some("tools"));
    body.top_k = Some(300000);
    assert_eq!(said(check_chat(&body)).2, Some("top_k"));
    body.n = Some(2);
    assert_eq!(said(check_chat(&body)).2, Some("n"));
    body.model = "other".to_owned();
    assert_eq!(said(check_chat(&body)).2, Some("model"));
    assert!(!check_chat(&chat(vec![user("hi")])).ok().unwrap());
}

#[test]
fn chat_leads_to_a_call() {
    let mut body = chat(vec![user("hi")]);
    body.stream = true;
    body.stream_options = Some(StreamOptions { include_usage: true });
    body.stop = Some(OneOrMany::One("END".to_owned()));
    body.max_tokens = Some(5);
    body.top_k = Some(7);
    body.temperature = Some(0.5f32.to_bits());
    let call = chat_call(body, Ok(vec![3, 4]), None, None, POSITIONS).ok().unwrap();
    assert_eq!(call.request.prompt_ids, vec![3, 4]);
    assert_eq!(call.request.soft_at, vec![None, None]);
    assert_eq!(call.request.max_new_tokens, 5);
    assert_eq!(call.request.sampling.top_k, 7);
    assert_eq!(call.request.sampling.temperature, 0.5f32.to_bits());
    assert_eq!(f32::from_bits(call.request.sampling.top_p), 0.95);
    assert_eq!(call.request.stop_strings, vec!["END"]);
    assert!(call.request.separate_reasoning);
    assert!(call.stream);
    assert!(call.include_usage);
    assert!(call.request.check(POSITIONS).is_ok());
}

#[test]
fn newer_limit_counts_before_the_older() {
    let mut body = chat(vec![user("hi")]);
    body.max_tokens = Some(5);
    body.max_completion_tokens = Some(9);
    assert_eq!(chat_call(body, Ok(vec![1]), None, None, POSITIONS).ok().unwrap().request.max_new_tokens, 9);
    let call = chat_call(chat(vec![user("hi")]), Ok(vec![1]), None, None, POSITIONS).ok().unwrap();
    assert_eq!(call.request.max_new_tokens, DEFAULT_MAX_NEW_TOKENS);
    assert!(!call.stream && !call.include_usage);
}

#[test]
fn chat_faults_after_encoding() {
    assert_eq!(
        said(chat_call(chat(vec![]), Err("no template".to_owned()), None, None, POSITIONS)).1,
        "could not render chat template: no template"
    );
    let image = ImagePatches { pixels: vec![vec![0; 6912]; 3], positions: vec![(0, 0); 3] };
    assert_eq!(
        said(chat_call(chat(vec![]), Ok(vec![1]), Some(image), None, POSITIONS)).1,
        "expected one image placeholder, found 0"
    );
    assert_eq!(
        said(chat_call(chat(vec![]), Ok(vec![1; 701]), None, None, POSITIONS)).1,
        "prompt (701 tokens) plus 300 generated tokens exceeds the 1000 position context"
    );
    let mut body = chat(vec![]);
    body.stop = Some(OneOrMany::Many(vec!["x".to_owned(); 9]));
    assert_eq!(said(chat_call(body, Ok(vec![1]), None, None, POSITIONS)).2, Some("stop"));
    let image = ImagePatches { pixels: vec![vec![0; 6912]; 2], positions: vec![(0, 0); 2] };
    let call = chat_call(chat(vec![]), Ok(vec![IMAGE_TOKEN]), Some(image), None, POSITIONS).ok().unwrap();
    assert_eq!(call.request.prompt_ids.len(), 4);
    assert_eq!(call.request.soft_at[2], Some(SoftToken::Image(1)));
    assert_eq!(call.request.image.unwrap().pixels.len(), 2);
}

#[test]
fn chat_goes_from_body_to_call() {
    let mut body = chat(vec![user("hello"), user("world")]);
    body.reasoning_effort = Some("high".to_owned());
    let call = chat_completions(body, &tokenizer(), POSITIONS).ok().unwrap();
    assert_eq!(call.request.prompt_ids, vec![3, 2, 5, 6]);
    assert!(chat_completions(chat(vec![]), &tokenizer(), POSITIONS).is_err());
}

#[test]
fn completion_goes_from_body_to_call() {
    let call = completions(completion(OneOrMany::One("hello world".to_owned())), &tokenizer(), POSITIONS).ok().unwrap();
    assert_eq!(call.request.prompt_ids, vec![1, 2]);
    assert_eq!(call.request.soft_at, vec![None, None]);
    assert!(!call.request.separate_reasoning);
    assert!(call.request.check(POSITIONS).is_ok());
}

#[test]
fn completion_faults() {
    let two = OneOrMany::Many(vec!["a".to_owned(), "b".to_owned()]);
    assert_eq!(said(check_completion(completion(two))).1, "only a single prompt string is supported");
    let mut body = completion(OneOrMany::One("a".to_owned()));
    body.seed = Some(Json::Bool(true));
    assert_eq!(said(check_completion(body)).2, Some("seed"));
    let terms = || check_completion(completion(OneOrMany::One("a".to_owned()))).ok().unwrap().1;
    assert_eq!(
        said(completion_call(terms(), Err("odd".to_owned()), POSITIONS)).1,
        "could not tokenize prompt: odd"
    );
    assert_eq!(said(completion_call(terms(), Ok(vec![]), POSITIONS)).1, "prompt produced no tokens");
    assert_eq!(
        said(completion_call(terms(), Ok(vec![0; 900]), POSITIONS)).1,
        "prompt (900 tokens) plus 300 generated tokens exceeds the 1000 position context"
    );
    let mut body = completion(OneOrMany::Many(vec!["a".to_owned()]));
    body.stop = Some(OneOrMany::One("x".repeat(300)));
    let terms = check_completion(body).ok().unwrap().1;
    assert_eq!(
        said(completion_call(terms, Ok(vec![1]), POSITIONS)).1,
        "a stop string may be at most 256 bytes; got one of 300"
    );
}

fn part(text: &str) -> ContentPart {
    ContentPart::Text { text: text.to_owned() }
}

fn picture(url: &str) -> ContentPart {
    ContentPart::ImageUrl { image_url: ImageUrl { url: url.to_owned(), detail: None } }
}

fn sound(data: &str, format: &str) -> ContentPart {
    ContentPart::InputAudio { input_audio: InputAudio { data: data.to_owned(), format: format.to_owned() } }
}

fn parts(parts: Vec<ContentPart>) -> ChatMessage {
    ChatMessage { role: "user".to_owned(), content: Some(MessageContent::Parts(parts)) }
}

const WAV: &str = "UklGRgAAAABXQVZFZm10IBAAAAABAAEAgD4AAAAAAAABAAgAZGF0YQIAAACAgA==";

fn png_url() -> String {
    let image = image::RgbImage::from_pixel(48, 48, image::Rgb([1, 2, 3]));
    let mut out = std::io::Cursor::new(Vec::new());
    image.write_to(&mut out, image::ImageFormat::Png).unwrap();
    let alphabet = b"ABCDEFGHIJKLMNOPQRSTUVWXYZabcdefghijklmnopqrstuvwxyz0123456789+/";
    let mut text = String::from("data:image/png;base64,");
    for group in out.into_inner().chunks(3) {
        let n = (group[0] as u32) << 16 | (*group.get(1).unwrap_or(&0) as u32) << 8 | *group.get(2).unwrap_or(&0) as u32;
        for i in 0..=group.len() {
            text.push(alphabet[(n >> (18 - 6 * i) & 63) as usize] as char);
        }
    }
    text
}

#[test]
fn messages_are_made_ready() {
    let messages = vec![
        ChatMessage { role: "system".to_owned(), content: None },
        user("hi"),
        parts(vec![part("a"), sound(WAV, "wav"), picture(&png_url()), part("b")]),
    ];
    let prepared = build_chat_messages(&messages).ok().unwrap();
    assert_eq!(prepared.messages.len(), 3);
    assert_eq!(prepared.messages[0].role, "system");
    assert!(matches!(&prepared.messages[0].content, TemplateContent::Text(text) if text.is_empty()));
    assert!(matches!(&prepared.messages[1].content, TemplateContent::Text(text) if text == "hi"));
    let TemplateContent::Parts(made) = &prepared.messages[2].content else { panic!() };
    assert_eq!(made.len(), 4);
    assert!(matches!(made[0], TemplatePart::Image));
    assert!(matches!(&made[1], TemplatePart::Text(text) if text == "a"));
    assert!(matches!(&made[2], TemplatePart::Text(text) if text == "b"));
    assert!(matches!(made[3], TemplatePart::Audio));
    assert_eq!(prepared.image.unwrap().pixels.len(), 256);
    assert_eq!(prepared.audio.unwrap().len(), 1);
}

#[test]
fn message_faults() {
    let fault = |message: ChatMessage| said(build_chat_messages(&vec![message])).1;
    assert_eq!(
        fault(parts(vec![picture(&png_url()), picture("anything")])),
        "only one image per request is supported"
    );
    assert_eq!(
        fault(parts(vec![sound(WAV, "wav"), sound("!", "wav")])),
        "only one audio input per request is supported"
    );
    assert_eq!(
        fault(parts(vec![picture("data:;base64,!")])),
        "invalid base64 image data: invalid base64 character"
    );
    assert!(fault(parts(vec![picture("data:;base64,Zm9v")])).starts_with("could not decode image: "));
    assert_eq!(
        fault(parts(vec![sound("A", "wav")])),
        "invalid base64 audio data: truncated base64 data"
    );
    assert_eq!(
        fault(parts(vec![sound("Zm9v", "wav")])),
        "could not decode audio: audio is not a RIFF/WAVE file"
    );
    assert_eq!(
        fault(parts(vec![sound("!", "wav"), picture("data:;base64,!")])),
        "invalid base64 audio data: invalid base64 character"
    );
}

#[test]
fn loaded_image_is_used_once() {
    let image = || ImagePatches { pixels: vec![vec![7; 6912]], positions: vec![(0, 0)] };
    let messages = vec![parts(vec![picture("data:;base64,Zm9v")]), user("hi")];
    let prepared = assemble_messages(&messages, Ok(image())).ok().unwrap();
    assert_eq!(prepared.image.unwrap().pixels, vec![vec![7; 6912]]);
    assert!(assemble_messages(&vec![user("hi")], Ok(image())).ok().unwrap().image.is_none());
    assert_eq!(
        said(assemble_messages(&messages, Err("odd".to_owned()))).1,
        "could not decode image: odd"
    );
}
