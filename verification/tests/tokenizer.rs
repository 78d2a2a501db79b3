use gemma4_serving::cli::build_messages;
use gemma4_serving::generate::{next_piece, strip_marker, step_over_marker};
use gemma4_serving::tokenizer::{TemplateContent, TemplateMessage, TemplatePart, Tokenizer};
use llm_tokenizer::{DecodeStream, HuggingFaceTokenizer, MockTokenizer, TokenizerTrait};
use std::str::FromStr;
use std::sync::Arc;

const VOCABULARY: &str = r#"{
  "version": "1.0",
  "added_tokens": [
    {"id": 0, "content": "<bos>", "single_word": false, "lstrip": false, "rstrip": false, "normalized": false, "special": true},
    {"id": 100, "content": "<|channel>", "single_word": false, "lstrip": false, "rstrip": false, "normalized": false, "special": true}
  ],
  "normalizer": null,
  "pre_tokenizer": {"type": "Whitespace"},
  "post_processor": null,
  "decoder": null,
  "model": {"type": "WordLevel", "vocab": {"<bos>": 0, "hello": 5, "world": 6, "user": 7, "image": 8, "on": 9, "off": 10, "[UNK]": 11, "reply": 12, "text": 13, "audio": 14, "|": 15, "<|channel>": 100}, "unk_token": "[UNK]"}
}"#;

fn tokenizer(template: &str) -> Tokenizer {
    let inner = tokenizers::Tokenizer::from_str(VOCABULARY).unwrap();
    let mut outer = HuggingFaceTokenizer::from_tokenizer(inner);
    outer.set_chat_template(template.to_owned()).unwrap();
    Tokenizer::new(Arc::new(outer))
}

const TEMPLATE: &str = "{% for m in messages %}{{ m.role }} {% if m.content is string %}{{ m.content }}{% else %}{% for p in m.content %}{{ p.type }} {% if p.text %}{{ p.text }} {% endif %}{% endfor %}{% endif %} | {% endfor %}{% if enable_thinking %}on{% else %}off{% endif %}{% if add_generation_prompt %} reply{% endif %}";

#[test]
fn raw_text_is_encoded_behind_the_bos_mark() {
    let ids = tokenizer(TEMPLATE).encode_raw("hello world").unwrap();
    assert_eq!(ids, vec![0, 5, 6]);
}

#[test]
fn chat_goes_through_the_template() {
    let messages = build_messages("hello world", false);
    let tokenizer = tokenizer(TEMPLATE);
    assert_eq!(tokenizer.encode_chat(&messages, false).unwrap(), vec![7, 13, 5, 6, 15, 10, 12]);
    assert_eq!(tokenizer.encode_chat(&messages, true).unwrap(), vec![7, 13, 5, 6, 15, 9, 12]);
}

#[test]
fn parts_reach_the_template_in_order() {
    let parts = vec![
        TemplatePart::Image,
        TemplatePart::Text("hello".to_owned()),
        TemplatePart::Audio,
    ];
    let messages = vec![TemplateMessage { role: "user".to_owned(), content: TemplateContent::Parts(parts) }];
    let ids = tokenizer(TEMPLATE).encode_chat(&messages, true).unwrap();
    assert_eq!(ids, vec![7, 8, 13, 5, 14, 15, 9, 12]);
}

#[test]
fn template_fault_is_reported() {
    let tokenizer = tokenizer("{{ raise_exception('no such role') }}");
    let messages = build_messages("hello", false);
    let message = tokenizer.encode_chat(&messages, false).unwrap_err();
    assert!(!message.is_empty());
}

#[test]
fn decoder_goes_on_from_the_prompt() {
    let mut stream = tokenizer(TEMPLATE).decode_stream(&[0, 5]);
    assert_eq!(stream.tokens(), &[0, 5]);
    let piece = next_piece(&mut stream, 6, false).unwrap().unwrap();
    assert_eq!(piece.trim(), "world");
    assert_eq!(stream.tokens(), &[0, 5, 6]);
}

#[test]
fn decoder_has_told_the_prompt() {
    let tokenizer = tokenizer(TEMPLATE);
    for prompt in [vec![], vec![0], vec![7, 8, 9, 10, 12, 13, 14, 15], vec![0, 5, 5, 5, 5, 5]] {
        let mut stream = tokenizer.decode_stream(&prompt);
        assert_eq!(stream.flush().unwrap(), None);
        let first = next_piece(&mut stream, 5, false).unwrap().unwrap();
        assert_eq!(first.trim(), "hello");
        let second = next_piece(&mut stream, 6, false).unwrap().unwrap();
        assert_eq!(second.trim(), "world");
        assert_eq!(stream.flush().unwrap(), None);
    }
}

#[test]
fn two_tokenizers_render_by_their_own_templates() {
    let messages = build_messages("hello", false);
    let one = tokenizer("hello").encode_chat(&messages, false).unwrap();
    let other = tokenizer("world").encode_chat(&messages, false).unwrap();
    assert_eq!((one, other), (vec![5], vec![6]));
}

#[test]
fn special_tokens_are_kept() {
    let mut stream = tokenizer(TEMPLATE).decode_stream(&[5]);
    let shown = next_piece(&mut stream, 0, false).unwrap().unwrap();
    assert!(shown.ends_with("<bos>"));
}

#[test]
fn channel_mark_is_taken_off() {
    let tokenizer = tokenizer(TEMPLATE);
    let mut stream = tokenizer.decode_stream(&[5]);
    assert_eq!(next_piece(&mut stream, 100, true).unwrap().map(|text| text.trim().to_owned()).unwrap_or_default(), "");
    let mut stream = tokenizer.decode_stream(&[5]);
    let shown = next_piece(&mut stream, 100, false).unwrap().unwrap();
    assert!(shown.ends_with("<|channel>"));
}

#[test]
fn marker_is_stripped_only_at_the_end() {
    assert_eq!(strip_marker(Some("ab<|channel>".to_owned()), "<|channel>"), Some("ab".to_owned()));
    assert_eq!(strip_marker(Some("<|channel>".to_owned()), "<|channel>"), None);
    assert_eq!(strip_marker(Some("<|channel>ab".to_owned()), "<|channel>"), Some("<|channel>ab".to_owned()));
    assert_eq!(strip_marker(Some(String::new()), "<|channel>"), None);
    assert_eq!(strip_marker(None, "<|channel>"), None);
}

#[test]
fn other_tokenizers_can_feed_a_stream() {
    let mut stream = DecodeStream::new(Arc::new(MockTokenizer::new()), &[1], false);
    let piece = step_over_marker(&mut stream, 2, "world").unwrap();
    assert_eq!(piece.map(|text| text.trim().to_owned()).unwrap_or_default(), "");
    assert_eq!(stream.tokens(), &[1, 2]);
}
