//! The tokenizer: prompts to tokens, and tokens back to text.

use crate::text::text_of;
use llm_tokenizer::chat_template::ChatTemplateParams;
use llm_tokenizer::{DecodeStream, Encoder, HuggingFaceTokenizer, TokenizerTrait};
use serde_json::Value;
use std::sync::Arc;
use vstd::prelude::*;
use vstd::utf8::*;
use vstd::string::*;

verus! {

/// A tokenizer with its vocabulary and its chat template.
#[verifier::external_type_specification]
#[verifier::external_body]
pub struct ExHuggingFaceTokenizer(HuggingFaceTokenizer);

/// A decoder that has been fed some tokens.
#[verifier::external_type_specification]
#[verifier::external_body]
pub struct ExDecodeStream(DecodeStream);

/// A JSON value, as the chat template takes it.
#[verifier::external_type_specification]
#[verifier::external_body]
pub struct ExValue(Value);

/// What a JSON value holds, of the kinds that messages are made of.
pub enum JsonTree {
    Text(Seq<char>),
    List(Seq<JsonTree>),
    Fields(Map<Seq<char>, JsonTree>),
}

/// What a JSON value holds.
pub uninterp spec fn tree_of(value: Value) -> JsonTree;

/// The tokenizer that a decoder was opened with.
pub uninterp spec fn decoder_of(stream: DecodeStream) -> HuggingFaceTokenizer;

/// Whether a decoder leaves special tokens out.
pub uninterp spec fn skips_special(stream: DecodeStream) -> bool;

/// The tokens that a decoder has been fed.
pub uninterp spec fn fed_tokens(stream: DecodeStream) -> Seq<u32>;

/// How many of its tokens a decoder has told the text of, those that it was
/// opened on among them.
pub uninterp spec fn told(stream: DecodeStream) -> nat;

/// The token from which on a decoder decodes, to tell the text of the next one.
pub uninterp spec fn window(stream: DecodeStream) -> nat;

/// This tokenizer may encode a text, with special tokens added or not, to these
/// tokens, or fail with this message.
pub uninterp spec fn may_encode(
    tokenizer: HuggingFaceTokenizer,
    text: Seq<char>,
    add_special_tokens: bool,
    outcome: Result<Seq<u32>, Seq<char>>,
) -> bool;

/// The chat template of this tokenizer may render messages, with or without a
/// prompt for the reply at the end and with thinking on or off, to this text, or
/// fail with this message.
pub uninterp spec fn may_render(
    tokenizer: HuggingFaceTokenizer,
    messages: Seq<JsonTree>,
    add_generation_prompt: bool,
    thinking: bool,
    outcome: Result<Seq<char>, Seq<char>>,
) -> bool;

/// The tokenizer of a decoder may decode tokens, with special tokens left out or
/// not as the decoder is set, to this text, or fail with this message.
pub uninterp spec fn may_decode_ids(
    stream: DecodeStream,
    ids: Seq<u32>,
    outcome: Result<Seq<char>, Seq<char>>,
) -> bool;

/// The variant `serde_json::Value::String` holds a text.
#[verifier::external_body]
fn json_text(text: &str) -> (r: Value)
    ensures
        tree_of(r) == JsonTree::Text(text@),
{
    Value::String(text.to_owned())
}

/// What the values of a list hold.
pub open spec fn trees_of(values: Seq<Value>) -> Seq<JsonTree> {
    Seq::new(values.len(), |i: int| tree_of(values[i]))
}

/// The variant `serde_json::Value::Array` holds values in order.
#[verifier::external_body]
fn json_list(items: Vec<Value>) -> (r: Value)
    ensures
        tree_of(r) == JsonTree::List(trees_of(items@)),
{
    Value::Array(items)
}

/// What named values hold; of two under one name, the later counts.
pub open spec fn fields_of(fields: Seq<(String, Value)>) -> Map<Seq<char>, JsonTree>
    decreases fields.len(),
{
    if fields.len() == 0 {
        map![]
    } else {
        fields_of(fields.drop_last()).insert(fields.last().0@, tree_of(fields.last().1))
    }
}

/// `serde_json::Map`, collected from pairs, holds each value under its name.
#[verifier::external_body]
fn json_object(fields: Vec<(String, Value)>) -> (r: Value)
    ensures
        tree_of(r) == JsonTree::Fields(fields_of(fields@)),
{
    Value::Object(fields.into_iter().collect())
}

/// `HuggingFaceTokenizer::encode`, then `Encoding::token_ids`. That what comes
/// out is a possible encoding of the text by this tokenizer is stated; which one
/// it is, where the tokenizer leaves a choice, is not.
#[verifier::external_body]
fn encode_text(inner: &HuggingFaceTokenizer, text: &str, add_special_tokens: bool) -> (r: Result<
    Vec<u32>,
    String,
>)
    ensures
        match r {
            Ok(ids) => may_encode(*inner, text@, add_special_tokens, Ok(ids@)),
            Err(message) => may_encode(*inner, text@, add_special_tokens, Err(message@)),
        },
{
    let encoding = inner.encode(text, add_special_tokens).map_err(|fault| fault.to_string())?;
    Ok(encoding.token_ids().to_vec())
}

/// `HuggingFaceTokenizer::apply_chat_template`, with a prompt for the reply or
/// without, and the given thinking preference. That what comes out is a possible
/// rendering by this tokenizer's template is stated; which one it is, where the
/// template asks for the clock, is not.
#[verifier::external_body]
fn render_chat(
    inner: &HuggingFaceTokenizer,
    messages: &Vec<Value>,
    add_generation_prompt: bool,
    thinking: bool,
) -> (r: Result<String, String>)
    ensures
        may_render(
            *inner,
            trees_of(messages@),
            add_generation_prompt,
            thinking,
            match r {
                Ok(text) => Ok(text@),
                Err(message) => Err(message@),
            },
        ),
{
    let params = ChatTemplateParams {
        add_generation_prompt,
        thinking: Some(thinking),
        ..Default::default()
    };
    inner.apply_chat_template(messages, params).map_err(|fault| fault.to_string())
}

/// The token from which on a decoder decodes when it is opened on `n` tokens: the
/// fifth from the end, or the first.
pub open spec fn first_window(n: nat) -> nat {
    if n < 5 {
        0
    } else {
        (n - 5) as nat
    }
}

/// `DecodeStream::new` gives a decoder that has been fed the given tokens and
/// counts the text of all of them as told. It begins to decode at the fifth token
/// from their end, or at the first.
#[verifier::external_body]
fn open_stream(
    inner: &Arc<HuggingFaceTokenizer>,
    tokens: &[u32],
    skip_special_tokens: bool,
) -> (r: DecodeStream)
    ensures
        decoder_of(r) == **inner,
        skips_special(r) == skip_special_tokens,
        fed_tokens(r) == tokens@,
        told(r) == tokens@.len(),
        window(r) == first_window(tokens@.len()),
{
    DecodeStream::new(inner.clone(), tokens, skip_special_tokens)
}

/// What a step that was fed `token` and gave text, or not, makes of a decoder.
pub open spec fn stepped(
    before: DecodeStream,
    after: DecodeStream,
    token: u32,
    gave_text: bool,
) -> bool {
    &&& fed_tokens(after) == fed_tokens(before).push(token)
    &&& decoder_of(after) == decoder_of(before)
    &&& skips_special(after) == skips_special(before)
    &&& forall|ids: Seq<u32>, outcome: Result<Seq<char>, Seq<char>>| #[trigger]
        may_decode_ids(after, ids, outcome) == may_decode_ids(before, ids, outcome)
    &&& told(after) == if gave_text {
        fed_tokens(after).len()
    } else {
        told(before)
    }
    &&& window(after) == if gave_text {
        told(before)
    } else {
        window(before)
    }
}

/// The bytes of a text in UTF-8.
pub open spec fn byte_length(text: Seq<char>) -> nat {
    encode_utf8(text).len()
}

/// `rest` is `text` without the characters that stand in its first `n` bytes: it
/// begins with the one that holds the byte behind them.
pub open spec fn is_rest(text: Seq<char>, n: nat, rest: Seq<char>) -> bool {
    exists|k: int|
        {
            &&& 0 <= k < text.len()
            &&& byte_length(text.take(k)) <= n < byte_length(text.take(k + 1))
            &&& rest == #[trigger] text.skip(k)
        }
}

/// What a decoder gives once the tokens that it looks at decode to `text`, those
/// of them that it had told to `known`: nothing where the text is no longer or
/// ends in the replacement character, and else the rest of it.
pub open spec fn is_told(known: Seq<char>, text: Seq<char>, delta: Option<Seq<char>>) -> bool {
    if byte_length(text) > byte_length(known) && text.last() != '\u{fffd}' {
        delta matches Some(rest) && is_rest(text, byte_length(known), rest)
    } else {
        delta is None
    }
}

/// Of the tokens that a decoder looks at, those that it has told.
pub open spec fn known_ids(stream: DecodeStream) -> Seq<u32> {
    fed_tokens(stream).subrange(window(stream) as int, told(stream) as int)
}

/// The tokens that a decoder looks at once it is fed one more.
pub open spec fn ids_with(stream: DecodeStream, token: u32) -> Seq<u32> {
    fed_tokens(stream).push(token).skip(window(stream) as int)
}

/// This decoder, as it is before it is fed a token, may give this text for the
/// token, or none yet, or fail with this message.
pub open spec fn may_decode_to(
    before: DecodeStream,
    token: u32,
    outcome: Result<Option<Seq<char>>, Seq<char>>,
) -> bool {
    match outcome {
        Ok(delta) => exists|known: Seq<char>, text: Seq<char>|
            {
                &&& #[trigger] may_decode_ids(before, known_ids(before), Ok(known))
                &&& #[trigger] may_decode_ids(before, ids_with(before, token), Ok(text))
                &&& is_told(known, text, delta)
            },
        Err(message) => {
            ||| may_decode_ids(before, known_ids(before), Err(message))
            ||| may_decode_ids(before, ids_with(before, token), Err(message))
        },
    }
}

/// `DecodeStream::step` feeds one more token to the decoder and decodes twice:
/// the tokens that it looks at, and those of them that it had told. It gives what
/// the first text has beyond the length of the second; which texts these are, the
/// name `may_decode_ids` says. Where it gives text, all tokens count as told, and
/// it looks from then on at the tokens from the first that had not been told;
/// where it gives none, both stay.
#[verifier::external_body]
pub(crate) fn step_stream(stream: &mut DecodeStream, token: u32) -> (r: Result<
    Option<String>,
    String,
>)
    ensures
        stepped(*old(stream), *final(stream), token, r matches Ok(Some(_))),
        match r {
            Ok(delta) => exists|known: Seq<char>, text: Seq<char>|
                {
                    &&& #[trigger] may_decode_ids(
                        *old(stream),
                        known_ids(*old(stream)),
                        Ok(known),
                    )
                    &&& #[trigger] may_decode_ids(
                        *old(stream),
                        ids_with(*old(stream), token),
                        Ok(text),
                    )
                    &&& is_told(known, text, text_of(delta))
                },
            Err(message) => {
                ||| may_decode_ids(*old(stream), known_ids(*old(stream)), Err(message@))
                ||| may_decode_ids(*old(stream), ids_with(*old(stream), token), Err(message@))
            },
        },
{
    stream.step(token).map_err(|fault| fault.to_string())
}

/// One part of a message, as the chat template takes it.
#[derive(Debug)]
pub enum TemplatePart {
    Image,
    Text(String),
    Audio,
}

/// The content of a message, as the chat template takes it.
#[derive(Debug)]
pub enum TemplateContent {
    Text(String),
    Parts(Vec<TemplatePart>),
}

/// A message, as the chat template takes it.
#[derive(Debug)]
pub struct TemplateMessage {
    pub role: String,
    pub content: TemplateContent,
}

/// What a part is in JSON.
pub open spec fn part_tree(part: TemplatePart) -> JsonTree {
    match part {
        TemplatePart::Image => JsonTree::Fields(map!["type"@ => JsonTree::Text("image"@)]),
        TemplatePart::Text(text) => JsonTree::Fields(
            map!["type"@ => JsonTree::Text("text"@), "text"@ => JsonTree::Text(text@)],
        ),
        TemplatePart::Audio => JsonTree::Fields(map!["type"@ => JsonTree::Text("audio"@)]),
    }
}

/// What a content is in JSON.
pub open spec fn content_tree(content: TemplateContent) -> JsonTree {
    match content {
        TemplateContent::Text(text) => JsonTree::Text(text@),
        TemplateContent::Parts(parts) => JsonTree::List(
            Seq::new(parts@.len(), |i: int| part_tree(parts@[i])),
        ),
    }
}

/// What a message is in JSON.
pub open spec fn message_tree(message: TemplateMessage) -> JsonTree {
    JsonTree::Fields(
        map![
            "role"@ => JsonTree::Text(message.role@),
            "content"@ => content_tree(message.content),
        ],
    )
}

/// What messages are in JSON.
pub open spec fn message_trees(messages: Seq<TemplateMessage>) -> Seq<JsonTree> {
    Seq::new(messages.len(), |i: int| message_tree(messages[i]))
}

fn one_field(name: &str, value: Value) -> (r: Value)
    ensures
        tree_of(r) == JsonTree::Fields(map![name@ => tree_of(value)]),
{
    let mut fields: Vec<(String, Value)> = Vec::new();
    fields.push((name.to_owned(), value));
    proof {
        reveal_with_fuel(fields_of, 2);
        assert(fields@.drop_last() =~= seq![]);
        assert(fields_of(fields@) =~= map![name@ => tree_of(value)]);
    }
    json_object(fields)
}

fn two_fields(first: &str, a: Value, second: &str, b: Value) -> (r: Value)
    ensures
        tree_of(r) == JsonTree::Fields(map![first@ => tree_of(a), second@ => tree_of(b)]),
{
    let mut fields: Vec<(String, Value)> = Vec::new();
    fields.push((first.to_owned(), a));
    let ghost one = fields@;
    fields.push((second.to_owned(), b));
    proof {
        reveal_with_fuel(fields_of, 3);
        assert(fields@.drop_last() =~= one);
        assert(one.drop_last() =~= seq![]);
        assert(fields_of(fields@) =~= map![first@ => tree_of(a), second@ => tree_of(b)]);
    }
    json_object(fields)
}

fn part_json(part: &TemplatePart) -> (r: Value)
    ensures
        tree_of(r) == part_tree(*part),
{
    match part {
        TemplatePart::Image => one_field("type", json_text("image")),
        TemplatePart::Text(text) => two_fields(
            "type",
            json_text("text"),
            "text",
            json_text(text.as_str()),
        ),
        TemplatePart::Audio => one_field("type", json_text("audio")),
    }
}

/// A message in JSON.
fn message_json(message: &TemplateMessage) -> (r: Value)
    ensures
        tree_of(r) == message_tree(*message),
{
    let content = match &message.content {
        TemplateContent::Text(text) => json_text(text.as_str()),
        TemplateContent::Parts(parts) => {
            let mut items: Vec<Value> = Vec::new();
            let mut i: usize = 0;
            while i < parts.len()
                invariant
                    i <= parts@.len(),
                    items@.len() == i,
                    forall|j: int| 0 <= j < i ==> tree_of(#[trigger] items@[j]) == part_tree(parts@[j]),
                decreases parts@.len() - i,
            {
                items.push(part_json(&parts[i]));
                i += 1;
            }
            assert(trees_of(items@) =~= Seq::new(parts@.len(), |i: int| part_tree(parts@[i])));
            json_list(items)
        },
    };
    two_fields("role", json_text(message.role.as_str()), "content", content)
}

/// Tokens as positions in the vocabulary.
pub open spec fn widened(ids: Seq<u32>) -> Seq<usize> {
    Seq::new(ids.len(), |i: int| ids[i] as usize)
}

fn widen(ids: &Vec<u32>) -> (r: Vec<usize>)
    ensures
        r@ == widened(ids@),
{
    let mut out: Vec<usize> = Vec::new();
    let mut i: usize = 0;
    while i < ids.len()
        invariant
            i <= ids@.len(),
            out@ == widened(ids@.take(i as int)),
        decreases ids@.len() - i,
    {
        out.push(ids[i] as usize);
        i += 1;
        assert(out@ =~= widened(ids@.take(i as int)));
    }
    assert(ids@.take(i as int) == ids@);
    out
}

/// `r` is an outcome of encoding `text` with a tokenizer, no special tokens added.
pub open spec fn encoding_of(
    tokenizer: HuggingFaceTokenizer,
    text: Seq<char>,
    r: Result<Vec<usize>, String>,
) -> bool {
    match r {
        Ok(ids) => exists|raw: Seq<u32>| #[trigger]
            may_encode(tokenizer, text, false, Ok(raw)) && ids@ == widened(raw),
        Err(message) => may_encode(tokenizer, text, false, Err(message@)),
    }
}

/// `r` is an outcome of encoding messages with a tokenizer and its chat template,
/// with a prompt for the reply at the end.
pub open spec fn chat_encoding_of(
    tokenizer: HuggingFaceTokenizer,
    trees: Seq<JsonTree>,
    thinking: bool,
    r: Result<Vec<usize>, String>,
) -> bool {
    ||| r matches Err(message) && may_render(tokenizer, trees, true, thinking, Err(message@))
    ||| exists|text: Seq<char>| #[trigger]
        may_render(tokenizer, trees, true, thinking, Ok(text)) && encoding_of(tokenizer, text, r)
}

#[derive(Clone)]
pub struct Tokenizer {
    pub inner: Arc<HuggingFaceTokenizer>,
}

impl Tokenizer {
    pub fn new(inner: Arc<HuggingFaceTokenizer>) -> (r: Self)
        ensures
            r.inner == inner,
    {
        Tokenizer { inner }
    }

    /// The tokens of a chat: its messages go through the chat template, and what
    /// that renders is encoded.
    pub fn encode_chat(&self, messages: &Vec<TemplateMessage>, thinking: bool) -> (r: Result<
        Vec<usize>,
        String,
    >)
        ensures
            chat_encoding_of(*self.inner, message_trees(messages@), thinking, r),
    {
        let mut values: Vec<Value> = Vec::new();
        let mut i: usize = 0;
        while i < messages.len()
            invariant
                i <= messages@.len(),
                values@.len() == i,
                forall|j: int|
                    0 <= j < i ==> tree_of(#[trigger] values@[j]) == message_tree(messages@[j]),
            decreases messages@.len() - i,
        {
            values.push(message_json(&messages[i]));
            i += 1;
        }
        assert(trees_of(values@) =~= message_trees(messages@));
        match render_chat(&self.inner, &values, true, thinking) {
            Err(message) => Err(message),
            Ok(text) => match encode_text(&self.inner, text.as_str(), false) {
                Err(message) => Err(message),
                Ok(ids) => Ok(widen(&ids)),
            },
        }
    }

    /// The tokens of a text, behind the mark that begins every text.
    pub fn encode_raw(&self, text: &str) -> (r: Result<Vec<usize>, String>)
        ensures
            encoding_of(*self.inner, "<bos>"@ + text@, r),
    {
        let mut with_bos = "<bos>".to_owned();
        with_bos.append(text);
        match encode_text(&self.inner, with_bos.as_str(), false) {
            Err(message) => Err(message),
            Ok(ids) => Ok(widen(&ids)),
        }
    }

    /// A decoder that has been fed the tokens of a prompt and has nothing left to
    /// tell of them: its steps give the text of what follows. It keeps special
    /// tokens.
    pub fn decode_stream(&self, prompt_token_ids: &[u32]) -> (r: DecodeStream)
        ensures
            decoder_of(r) == *self.inner,
            !skips_special(r),
            fed_tokens(r) == prompt_token_ids@,
            told(r) == prompt_token_ids@.len(),
            window(r) == first_window(prompt_token_ids@.len()),
    {
        open_stream(&self.inner, prompt_token_ids, false)
    }
}

/// Texts one behind the other have the bytes of both.
proof fn byte_lengths_add_up(a: Seq<char>, b: Seq<char>)
    ensures
        byte_length(a + b) == byte_length(a) + byte_length(b),
        b.len() > 0 ==> byte_length(b) > 0,
    decreases a.len(),
{
    if a.len() == 0 {
        assert(a + b =~= b);
    } else {
        byte_lengths_add_up(a.drop_first(), b);
        assert((a + b).drop_first() =~= a.drop_first() + b);
    }
}

/// Where a token only adds to the text of those before it, a decoder that gives
/// text for it gives what it adds.
pub proof fn decoders_give_what_is_added(known: Seq<char>, more: Seq<char>, rest: Seq<char>)
    requires
        is_told(known, known + more, Some(rest)),
    ensures
        rest == more,
{
    let text = known + more;
    let n = byte_length(known);
    let k = choose|k: int|
        {
            &&& 0 <= k < text.len()
            &&& byte_length(text.take(k)) <= n < byte_length(text.take(k + 1))
            &&& rest == #[trigger] text.skip(k)
        };
    let at = known.len() as int;
    if k < at {
        byte_lengths_add_up(text.take(k + 1), known.skip(k + 1));
        assert(text.take(k + 1) + known.skip(k + 1) =~= known);
    } else if k > at {
        byte_lengths_add_up(known, more.take(k - at));
        assert(known + more.take(k - at) =~= text.take(k));
    }
    assert(text.skip(at) =~= more);
}

/// Where a token adds nothing, or leaves a character unfinished, a decoder gives
/// no text yet; else it gives some.
pub proof fn decoders_hold_back(known: Seq<char>, more: Seq<char>, delta: Option<Seq<char>>)
    requires
        is_told(known, known + more, delta),
    ensures
        delta is Some == (more.len() > 0 && more.last() != '\u{fffd}'),
{
    byte_lengths_add_up(known, more);
    if more.len() == 0 {
        assert(known + more =~= known);
    }
}

/// Tokens are those that the tokenizer gives for the text as it stands, one for
/// one, with no special tokens added; a fault is the tokenizer's.
pub proof fn encodings_add_no_special_tokens(
    tokenizer: HuggingFaceTokenizer,
    text: Seq<char>,
    r: Result<Vec<usize>, String>,
)
    requires
        encoding_of(tokenizer, text, r),
    ensures
        r matches Ok(ids) ==> exists|raw: Seq<u32>|
            {
                &&& #[trigger] may_encode(tokenizer, text, false, Ok(raw))
                &&& raw.len() == ids@.len()
                &&& forall|i: int| 0 <= i < raw.len() ==> #[trigger] raw[i] == ids@[i]
            },
        r matches Err(message) ==> may_encode(tokenizer, text, false, Err(message@)),
{
    if let Ok(ids) = r {
        let raw = choose|raw: Seq<u32>| #[trigger]
            may_encode(tokenizer, text, false, Ok(raw)) && ids@ == widened(raw);
        assert(raw.len() == ids@.len());
        assert forall|i: int| 0 <= i < raw.len() implies #[trigger] raw[i] == ids@[i] by {
            assert(widened(raw)[i] == raw[i]);
        }
    }
}

/// A chat is rendered with a prompt for the reply at its end, and what that gives
/// is encoded; a fault is that of the template or of the tokenizer.
pub proof fn chats_are_rendered_for_a_reply(
    tokenizer: HuggingFaceTokenizer,
    trees: Seq<JsonTree>,
    thinking: bool,
    r: Result<Vec<usize>, String>,
)
    requires
        chat_encoding_of(tokenizer, trees, thinking, r),
    ensures
        r is Ok ==> exists|text: Seq<char>| #[trigger]
            may_render(tokenizer, trees, true, thinking, Ok(text)) && encoding_of(
                tokenizer,
                text,
                r,
            ),
        r matches Err(message) ==> may_render(tokenizer, trees, true, thinking, Err(message@))
            || exists|text: Seq<char>| #[trigger]
            may_render(tokenizer, trees, true, thinking, Ok(text)) && may_encode(
                tokenizer,
                text,
                false,
                Err(message@),
            ),
{
}

} // verus!
