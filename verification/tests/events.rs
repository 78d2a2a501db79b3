use gemma4_serving::cli::{build_messages, parse_args};
use gemma4_serving::events::{
    chat_response, completion_response, finish_reason_str, gen_id, settle, spell_id, sse_data, sse_done,
    sse_error, ChatStream, CompletionStream, Sent,
};
use gemma4_serving::generate::{Delta, FinishReason, GenerationOutput};
use gemma4_serving::text::{
    eq_ignore_ascii_case, find, find_char, from_chars, parse_number, push_decimal, str_eq, to_chars, trim,
};
use gemma4_serving::tokenizer::{TemplateContent, TemplatePart};
use gemma4_serving::worker::{
    after_job, offline_event, report, started, StreamEvent,
};

fn output(reasoning: &str) -> GenerationOutput {
    GenerationOutput {
        text: "Hi".to_owned(),
        reasoning: reasoning.to_owned(),
        prompt_tokens: 3,
        completion_tokens: 2,
        finish_reason: FinishReason::Stop,
    }
}

#[test]
fn identifiers_have_their_form() {
    let id = gen_id("chatcmpl");
    assert_eq!(id.len(), "chatcmpl-".len() + 24);
    let suffix = id.strip_prefix("chatcmpl-").unwrap();
    assert!(suffix.chars().all(|c| c.is_ascii_alphanumeric()));
    assert_ne!(id, gen_id("chatcmpl"));
}

#[test]
fn identifiers_are_spelled_from_picks() {
    let picks: Vec<usize> = (0..24).map(|i| i * 61 / 23).collect();
    let alphabet: Vec<char> = "abcdefghijklmnopqrstuvwxyzABCDEFGHIJKLMNOPQRSTUVWXYZ0123456789".chars().collect();
    let expected: String = picks.iter().map(|&i| alphabet[i]).collect();
    assert_eq!(spell_id("cmpl", &picks), format!("cmpl-{expected}"));
    assert!(spell_id("cmpl", &picks).ends_with('9'));
    let mut other = picks.clone();
    other[7] += 1;
    assert_ne!(spell_id("cmpl", &picks), spell_id("cmpl", &other));
}

#[test]
fn events_are_framed() {
    assert_eq!(sse_data(&b"{}".to_vec()), b"data: {}\n\n");
    assert_eq!(sse_error(&b"{}".to_vec()), b"event: error\ndata: {}\n\n");
    assert_eq!(sse_done(), b"data: [DONE]\n\n");
}

#[test]
fn finish_reasons_have_names() {
    assert_eq!(finish_reason_str(FinishReason::Stop), "stop");
    assert_eq!(finish_reason_str(FinishReason::Length), "length");
}

#[test]
fn jobs_are_settled() {
    assert_eq!(settle(Some(StreamEvent::Done(output("")))).ok().unwrap().text, "Hi");
    let failed = settle(Some(StreamEvent::Error("boom".to_owned()))).err().unwrap();
    assert_eq!((failed.status, failed.body.error.message.as_str()), (500, "boom"));
    for event in [None, Some(StreamEvent::Delta("x".to_owned())), Some(StreamEvent::ReasoningDelta("x".to_owned()))] {
        let closed = settle(event).err().unwrap();
        assert_eq!((closed.status, closed.body.error.message.as_str()), (500, "generation worker closed unexpectedly"));
    }
}

#[test]
fn responses_hold_the_output() {
    let response = chat_response("id".to_owned(), 9, output("why"));
    assert_eq!(response.object, "chat.completion");
    assert_eq!(response.model, "gemma-4-12b-it");
    assert_eq!((response.id.as_str(), response.created), ("id", 9));
    let choice = &response.choices[0];
    assert_eq!((choice.index, choice.finish_reason), (0, "stop"));
    assert_eq!((choice.message.role, choice.message.content.as_str()), ("assistant", "Hi"));
    assert_eq!(choice.message.reasoning_content.as_deref(), Some("why"));
    assert_eq!(response.usage.total_tokens, 5);
    assert_eq!(chat_response("id".to_owned(), 9, output("")).choices[0].message.reasoning_content, None);
    let response = completion_response("id".to_owned(), 9, output(""));
    assert_eq!(response.object, "text_completion");
    assert_eq!(response.choices[0].text, "Hi");
    assert_eq!(response.choices[0].finish_reason, Some("stop"));
    assert_eq!(response.usage.prompt_tokens, 3);
    assert_eq!(response.usage.completion_tokens, 2);
}

#[test]
fn chat_streams_send_the_role_once() {
    let mut stream = ChatStream::new("id".to_owned(), 1, true);
    let mut roles = Vec::new();
    for event in [
        StreamEvent::ReasoningDelta("r".to_owned()),
        StreamEvent::Delta("a".to_owned()),
        StreamEvent::Delta("b".to_owned()),
    ] {
        let (sent, ended) = stream.on_event(event);
        assert!(!ended);
        assert_eq!(sent.len(), 1);
        let Sent::Chunk(chunk) = &sent[0] else { panic!() };
        assert_eq!((chunk.object, chunk.id.as_str()), ("chat.completion.chunk", "id"));
        let delta = &chunk.choices[0].delta;
        roles.push((delta.role, delta.content.clone(), delta.reasoning_content.clone()));
    }
    assert_eq!(
        roles,
        vec![
            (Some("assistant"), None, Some("r".to_owned())),
            (None, Some("a".to_owned()), None),
            (None, Some("b".to_owned()), None),
        ]
    );
    let (sent, ended) = stream.on_event(StreamEvent::Done(output("")));
    assert!(ended);
    assert_eq!(sent.len(), 3);
    let Sent::Chunk(finish) = &sent[0] else { panic!() };
    assert_eq!(finish.choices[0].finish_reason, Some("stop"));
    assert!(finish.usage.is_none());
    let Sent::Chunk(usage) = &sent[1] else { panic!() };
    assert!(usage.choices.is_empty());
    assert_eq!(usage.usage.unwrap().total_tokens, 5);
    assert!(matches!(sent[2], Sent::Done));
}

#[test]
fn streams_end_with_an_error() {
    let mut stream = ChatStream::new("id".to_owned(), 1, false);
    let (sent, ended) = stream.on_event(StreamEvent::Error("boom".to_owned()));
    assert!(ended);
    let Sent::Error(body) = &sent[0] else { panic!() };
    assert_eq!((body.error.error_type, body.error.message.as_str()), ("internal_error", "boom"));
    assert!(matches!(sent[1], Sent::Done));
    let (sent, ended) = CompletionStream::new("id".to_owned(), 1, true).on_event(StreamEvent::Error("boom".to_owned()));
    assert!(ended && sent.len() == 2);
}

#[test]
fn completion_streams_send_text() {
    let stream = CompletionStream::new("id".to_owned(), 1, false);
    for event in [StreamEvent::Delta("a".to_owned()), StreamEvent::ReasoningDelta("a".to_owned())] {
        let (sent, ended) = stream.on_event(event);
        assert!(!ended);
        let Sent::Chunk(chunk) = &sent[0] else { panic!() };
        assert_eq!(chunk.choices[0].text, "a");
        assert_eq!(chunk.choices[0].finish_reason, None);
    }
    let (sent, ended) = stream.on_event(StreamEvent::Done(output("")));
    assert!(ended && sent.len() == 2);
    let Sent::Chunk(chunk) = &sent[0] else { panic!() };
    assert_eq!(chunk.choices[0].text, "");
    assert_eq!(chunk.choices[0].finish_reason, Some("stop"));
    assert_eq!(chunk.object, "text_completion");
}

#[test]
fn worker_reports() {
    assert!(matches!(report(true, Delta::Content("a".to_owned())), Some(StreamEvent::Delta(text)) if text == "a"));
    assert!(matches!(report(true, Delta::Reasoning("a".to_owned())), Some(StreamEvent::ReasoningDelta(text)) if text == "a"));
    assert!(report(false, Delta::Content("a".to_owned())).is_none());
    assert!(report(false, Delta::Reasoning("a".to_owned())).is_none());
    assert!(matches!(after_job(Ok(Ok(output("")))), (StreamEvent::Done(done), true) if done.text == "Hi"));
    assert!(matches!(after_job(Ok(Err("e".to_owned()))), (StreamEvent::Error(text), true) if text == "e"));
    let (event, goes_on) = after_job(Err("oh".to_owned()));
    assert!(matches!(event, StreamEvent::Error(text) if text == "internal error: generation panicked (oh)"));
    assert!(!goes_on);
    assert!(matches!(offline_event(), StreamEvent::Error(text) if text == "generation worker is not running"));
    assert!(started(Some(Ok(()))).is_ok());
    assert_eq!(started(Some(Err("bad".to_owned()))).unwrap_err(), "bad");
    assert_eq!(started(None).unwrap_err(), "generation worker thread exited before finishing startup");
}

fn words(text: &[&str]) -> Vec<String> {
    text.iter().map(|word| word.to_string()).collect()
}

#[test]
fn arguments_are_read() {
    let args = parse_args(&words(&["draw", "--image", "a.png", "a", "cat"])).ok().unwrap();
    assert_eq!(args.prompt, "draw a cat");
    assert_eq!(args.image_path.as_deref(), Some("a.png"));
    let args = parse_args(&words(&[])).ok().unwrap();
    assert_eq!(args.prompt, "Write a hello world program in Rust.");
    assert!(args.image_path.is_none());
    let args = parse_args(&words(&["--image", "a", "--image", "--image"])).ok().unwrap();
    assert_eq!(args.image_path.as_deref(), Some("--image"));
    assert_eq!(parse_args(&words(&["x", "--image"])).err().unwrap(), "--image requires a path");
}

#[test]
fn prompts_become_messages() {
    let messages = build_messages("hi", false);
    assert_eq!(messages[0].role, "user");
    assert!(matches!(&messages[0].content, TemplateContent::Text(text) if text == "hi"));
    let messages = build_messages("hi", true);
    let TemplateContent::Parts(parts) = &messages[0].content else { panic!() };
    assert!(matches!(parts[0], TemplatePart::Image));
    assert!(matches!(&parts[1], TemplatePart::Text(text) if text == "hi"));
}

#[test]
fn text_helpers_agree_with_strings() {
    for text in ["", " a ", "\u{a0}x\u{3000}", "\u{85}\u{2028}é\u{1680}\t", "\u{200b}z\u{feff}", "🙂 \u{205f}"] {
        let chars = to_chars(text);
        assert_eq!(from_chars(trim(&chars)), text.trim());
        assert_eq!(from_chars(&chars), text);
    }
    for u in 0..=0x10ffffu32 {
        if let Some(c) = char::from_u32(u) {
            assert_eq!(trim(&[c]).is_empty(), c.is_whitespace());
        }
    }
    assert!(eq_ignore_ascii_case(&to_chars("Wav"), &to_chars("wAV")));
    assert!(!eq_ignore_ascii_case(&to_chars("É"), &to_chars("é")));
    assert!(!eq_ignore_ascii_case(&to_chars("[a"), &to_chars("{a")));
    assert!(str_eq("a", "a") && !str_eq("a", "b") && !str_eq("a", "ab"));
    assert_eq!(find(&to_chars("banana"), &to_chars("nan")), Some(2));
    assert_eq!(find(&to_chars("banana"), &to_chars("nab")), None);
    assert_eq!(find(&to_chars(""), &to_chars("")), Some(0));
    assert_eq!(find_char(&to_chars("abc"), 'c'), 2);
    assert_eq!(find_char(&to_chars("abc"), 'x'), 3);
}

#[test]
fn numbers_are_written_and_read() {
    for n in [0u64, 7, 10, 99, 100, 12345, u64::MAX] {
        let mut text = String::new();
        push_decimal(&mut text, n);
        assert_eq!(text, n.to_string());
        assert_eq!(parse_number(&to_chars(&text)), Some(n));
    }
    for text in ["", "+", "-1", "1a", " 1", "18446744073709551616", "+5", "007", "99999999999999999999999"] {
        assert_eq!(parse_number(&to_chars(text)), text.parse::<u64>().ok());
    }
}
