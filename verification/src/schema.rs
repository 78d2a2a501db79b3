//! What requests ask for and what responses say, as plain values.

use crate::generate::GenerationOutput;
use crate::text::{static_text, str_eq};
use vstd::prelude::*;

verus! {

pub const MODEL_ID: &'static str = "gemma-4-12b-it";

/// A JSON value.
#[derive(Debug)]
pub enum Json {
    Null,
    Bool(bool),
    /// A number, as the bits of its value in double precision.
    Number(u64),
    Text(String),
    Array(Vec<Json>),
    /// The fields of an object, no two of one name.
    Object(Vec<(String, Json)>),
}

/// One value, or a list of them.
#[derive(Debug)]
pub enum OneOrMany<T> {
    One(T),
    Many(Vec<T>),
}

impl<T> OneOrMany<T> {
    /// The values, in order.
    pub open spec fn items(self) -> Seq<T> {
        match self {
            OneOrMany::One(v) => seq![v],
            OneOrMany::Many(v) => v@,
        }
    }

    pub fn into_vec(self) -> (r: Vec<T>)
        ensures
            r@ == self.items(),
    {
        match self {
            OneOrMany::One(v) => {
                let mut items: Vec<T> = Vec::new();
                items.push(v);
                items
            },
            OneOrMany::Many(v) => v,
        }
    }
}

#[derive(Debug)]
pub struct ImageUrl {
    pub url: String,
    pub detail: Option<String>,
}

#[derive(Debug)]
pub struct InputAudio {
    pub data: String,
    pub format: String,
}

#[derive(Debug)]
pub enum ContentPart {
    Text { text: String },
    ImageUrl { image_url: ImageUrl },
    InputAudio { input_audio: InputAudio },
}

#[derive(Debug)]
pub enum MessageContent {
    Text(String),
    Parts(Vec<ContentPart>),
}

#[derive(Debug)]
pub struct ChatMessage {
    pub role: String,
    pub content: Option<MessageContent>,
}

/// A request for a chat completion. The two fractions are held as the bits of
/// their values in single precision.
#[derive(Debug)]
pub struct ChatCompletionRequest {
    pub model: String,
    pub messages: Vec<ChatMessage>,
    pub stream: bool,
    pub max_tokens: Option<usize>,
    pub max_completion_tokens: Option<usize>,
    pub temperature: Option<u32>,
    pub top_p: Option<u32>,
    pub top_k: Option<usize>,
    pub stop: Option<OneOrMany<String>>,
    pub n: Option<u32>,
    pub modalities: Option<Vec<String>>,
    pub audio: Option<Json>,
    pub chat_template_kwargs: Option<Json>,
    pub reasoning_effort: Option<String>,
    pub stream_options: Option<StreamOptions>,
    pub response_format: Option<Json>,
    pub seed: Option<Json>,
    pub tools: Option<Json>,
    pub tool_choice: Option<Json>,
    pub logprobs: Option<Json>,
    pub top_logprobs: Option<Json>,
    pub logit_bias: Option<Json>,
    pub frequency_penalty: Option<Json>,
    pub presence_penalty: Option<Json>,
}

#[derive(Clone, Copy, Debug)]
pub struct StreamOptions {
    pub include_usage: bool,
}

impl Default for StreamOptions {
    fn default() -> (r: Self)
        ensures
            !r.include_usage,
    {
        StreamOptions { include_usage: false }
    }
}

/// A request for a plain completion. The two fractions are held as the bits of
/// their values in single precision.
#[derive(Debug)]
pub struct CompletionRequest {
    pub model: String,
    pub prompt: OneOrMany<String>,
    pub stream: bool,
    pub max_tokens: Option<usize>,
    pub temperature: Option<u32>,
    pub top_p: Option<u32>,
    pub stop: Option<OneOrMany<String>>,
    pub n: Option<u32>,
    pub stream_options: Option<StreamOptions>,
    pub seed: Option<Json>,
    pub logprobs: Option<Json>,
    pub logit_bias: Option<Json>,
    pub frequency_penalty: Option<Json>,
    pub presence_penalty: Option<Json>,
}

#[derive(Debug)]
pub struct AudioSpeechRequest {
    pub model: String,
    pub input: String,
    pub voice: String,
    pub response_format: Option<String>,
}

/// The field of an object that has the given name.
pub open spec fn field_of(fields: Seq<(String, Json)>, name: Seq<char>) -> Option<Json>
    decreases fields.len(),
{
    if fields.len() == 0 {
        None
    } else if fields[0].0@ == name {
        Some(fields[0].1)
    } else {
        field_of(fields.drop_first(), name)
    }
}

/// The field of an object that has the given name.
pub fn find_field<'a>(fields: &'a Vec<(String, Json)>, name: &str) -> (r: Option<&'a Json>)
    ensures
        match r {
            Some(value) => field_of(fields@, name@) == Some(*value),
            None => field_of(fields@, name@) is None,
        },
{
    let mut i: usize = 0;
    assert(fields@.skip(0) == fields@);
    while i < fields.len()
        invariant
            i <= fields@.len(),
            field_of(fields@, name@) == field_of(fields@.skip(i as int), name@),
        decreases fields@.len() - i,
    {
        assert(fields@.skip(i as int).drop_first() == fields@.skip(i + 1));
        if str_eq(fields[i].0.as_str(), name) {
            return Some(&fields[i].1);
        }
        i += 1;
    }
    None
}

/// The values that leave a feature unasked for: null, false, zero, "none" or
/// "auto", an empty list or object, and an object whose type is "text".
pub open spec fn asks_for_nothing(value: Json) -> bool {
    match value {
        Json::Null => true,
        Json::Bool(b) => !b,
        Json::Number(bits) => bits == 0 || bits == 0x8000_0000_0000_0000,
        Json::Text(text) => text@ == "none"@ || text@ == "auto"@,
        Json::Array(items) => items@.len() == 0,
        Json::Object(fields) => {
            ||| fields@.len() == 0
            ||| field_of(fields@, "type"@) matches Some(Json::Text(text)) && text@ == "text"@
        },
    }
}

fn is_unasked(value: &Json) -> (r: bool)
    ensures
        r == asks_for_nothing(*value),
{
    match value {
        Json::Null => true,
        Json::Bool(b) => !*b,
        Json::Number(bits) => *bits == 0 || *bits == 0x8000_0000_0000_0000,
        Json::Text(text) => str_eq(text.as_str(), "none") || str_eq(text.as_str(), "auto"),
        Json::Array(items) => items.len() == 0,
        Json::Object(fields) => {
            fields.len() == 0 || match find_field(fields, "type") {
                Some(Json::Text(text)) => str_eq(text.as_str(), "text"),
                _ => false,
            }
        },
    }
}

/// Whether a field asks for something.
pub open spec fn asked(value: Option<Json>) -> bool {
    match value {
        Some(value) => !asks_for_nothing(value),
        None => false,
    }
}

fn is_asked(value: &Option<Json>) -> (r: bool)
    ensures
        r == asked(*value),
{
    match value {
        Some(value) => !is_unasked(value),
        None => false,
    }
}

/// The first of some named fields that asks for something.
pub open spec fn first_asked(fields: Seq<(&'static str, Option<Json>)>) -> Option<Seq<char>>
    decreases fields.len(),
{
    if fields.len() == 0 {
        None
    } else if asked(fields[0].1) {
        Some(fields[0].0@)
    } else {
        first_asked(fields.drop_first())
    }
}

fn first_unsupported(fields: &[(&'static str, &Option<Json>)]) -> (r: Option<&'static str>)
    ensures
        ({
            let named = Seq::new(fields@.len(), |i: int| (fields@[i].0, *fields@[i].1));
            match r {
                Some(name) => first_asked(named) == Some(name@),
                None => first_asked(named) is None,
            }
        }),
{
    let ghost named = Seq::new(fields@.len(), |i: int| (fields@[i].0, *fields@[i].1));
    let mut i: usize = 0;
    assert(named.skip(0) == named);
    while i < fields.len()
        invariant
            i <= fields@.len(),
            named == Seq::new(fields@.len(), |i: int| (fields@[i].0, *fields@[i].1)),
            first_asked(named) == first_asked(named.skip(i as int)),
        decreases fields@.len() - i,
    {
        assert(named.skip(i as int).drop_first() == named.skip(i + 1));
        assert(named.skip(i as int)[0] == named[i as int]);
        if is_asked(fields[i].1) {
            return Some(fields[i].0);
        }
        i += 1;
    }
    None
}

impl ChatCompletionRequest {
    /// The fields that this server does not serve, in the order in which they
    /// are looked at.
    pub open spec fn unserved(&self) -> Seq<(&'static str, Option<Json>)> {
        seq![
            ("response_format", self.response_format),
            ("seed", self.seed),
            ("tools", self.tools),
            ("tool_choice", self.tool_choice),
            ("logprobs", self.logprobs),
            ("top_logprobs", self.top_logprobs),
            ("logit_bias", self.logit_bias),
            ("frequency_penalty", self.frequency_penalty),
            ("presence_penalty", self.presence_penalty),
        ]
    }

    /// The first field that asks for what this server does not serve.
    pub fn unsupported(&self) -> (r: Option<&'static str>)
        ensures
            match r {
                Some(name) => first_asked(self.unserved()) == Some(name@),
                None => first_asked(self.unserved()) is None,
            },
    {
        let fields: [(&'static str, &Option<Json>); 9] = [
            ("response_format", &self.response_format),
            ("seed", &self.seed),
            ("tools", &self.tools),
            ("tool_choice", &self.tool_choice),
            ("logprobs", &self.logprobs),
            ("top_logprobs", &self.top_logprobs),
            ("logit_bias", &self.logit_bias),
            ("frequency_penalty", &self.frequency_penalty),
            ("presence_penalty", &self.presence_penalty),
        ];
        let fields = fields.as_slice();
        assert(Seq::new(fields@.len(), |i: int| (fields@[i].0, *fields@[i].1))
            =~= self.unserved());
        first_unsupported(fields)
    }
}

impl CompletionRequest {
    /// The fields that this server does not serve, in the order in which they
    /// are looked at.
    pub open spec fn unserved(&self) -> Seq<(&'static str, Option<Json>)> {
        seq![
            ("seed", self.seed),
            ("logprobs", self.logprobs),
            ("logit_bias", self.logit_bias),
            ("frequency_penalty", self.frequency_penalty),
            ("presence_penalty", self.presence_penalty),
        ]
    }

    /// The first field that asks for what this server does not serve.
    pub fn unsupported(&self) -> (r: Option<&'static str>)
        ensures
            match r {
                Some(name) => first_asked(self.unserved()) == Some(name@),
                None => first_asked(self.unserved()) is None,
            },
    {
        let fields: [(&'static str, &Option<Json>); 5] = [
            ("seed", &self.seed),
            ("logprobs", &self.logprobs),
            ("logit_bias", &self.logit_bias),
            ("frequency_penalty", &self.frequency_penalty),
            ("presence_penalty", &self.presence_penalty),
        ];
        let fields = fields.as_slice();
        assert(Seq::new(fields@.len(), |i: int| (fields@[i].0, *fields@[i].1))
            =~= self.unserved());
        first_unsupported(fields)
    }
}

#[derive(Clone, Copy, Debug, PartialEq, Eq, Structural)]
pub struct Usage {
    pub prompt_tokens: usize,
    pub completion_tokens: usize,
    pub total_tokens: usize,
}

/// The tokens of a prompt and its completion can be counted together.
pub open spec fn countable(output: GenerationOutput) -> bool {
    output.prompt_tokens + output.completion_tokens <= usize::MAX
}

/// What a generation used.
pub open spec fn usage_of(output: GenerationOutput) -> Usage {
    Usage {
        prompt_tokens: output.prompt_tokens,
        completion_tokens: output.completion_tokens,
        total_tokens: (output.prompt_tokens + output.completion_tokens) as usize,
    }
}

impl Usage {
    /// What a generation used.
    pub fn of(output: &GenerationOutput) -> (r: Self)
        requires
            countable(*output),
        ensures
            r == usage_of(*output),
            r.prompt_tokens == output.prompt_tokens,
            r.completion_tokens == output.completion_tokens,
            r.total_tokens == output.prompt_tokens + output.completion_tokens,
    {
        Usage {
            prompt_tokens: output.prompt_tokens,
            completion_tokens: output.completion_tokens,
            total_tokens: output.prompt_tokens + output.completion_tokens,
        }
    }
}

#[derive(Debug)]
pub struct ChatCompletionMessage {
    pub role: &'static str,
    pub content: String,
    pub reasoning_content: Option<String>,
}

#[derive(Debug)]
pub struct ChatChoice {
    pub index: u32,
    pub message: ChatCompletionMessage,
    pub finish_reason: &'static str,
}

#[derive(Debug)]
pub struct ChatCompletionResponse {
    pub id: String,
    pub object: &'static str,
    pub created: u64,
    pub model: &'static str,
    pub choices: Vec<ChatChoice>,
    pub usage: Usage,
}

#[derive(Debug)]
pub struct ChunkDelta {
    pub role: Option<&'static str>,
    pub content: Option<String>,
    pub reasoning_content: Option<String>,
}

impl Default for ChunkDelta {
    fn default() -> (r: Self)
        ensures
            r.role is None,
            r.content is None,
            r.reasoning_content is None,
    {
        ChunkDelta { role: None, content: None, reasoning_content: None }
    }
}

#[derive(Debug)]
pub struct ChunkChoice {
    pub index: u32,
    pub delta: ChunkDelta,
    pub finish_reason: Option<&'static str>,
}

#[derive(Debug)]
pub struct ChatCompletionChunk {
    pub id: String,
    pub object: &'static str,
    pub created: u64,
    pub model: &'static str,
    pub choices: Vec<ChunkChoice>,
    pub usage: Option<Usage>,
}

#[derive(Debug)]
pub struct CompletionChoice {
    pub index: u32,
    pub text: String,
    pub finish_reason: Option<&'static str>,
}

#[derive(Debug)]
pub struct CompletionChunk {
    pub id: String,
    pub object: &'static str,
    pub created: u64,
    pub model: &'static str,
    pub choices: Vec<CompletionChoice>,
    pub usage: Option<Usage>,
}

#[derive(Debug)]
pub struct CompletionResponse {
    pub id: String,
    pub object: &'static str,
    pub created: u64,
    pub model: &'static str,
    pub choices: Vec<CompletionChoice>,
    pub usage: Usage,
}

#[derive(Debug)]
pub struct ModelObject {
    pub id: &'static str,
    pub object: &'static str,
    pub created: u64,
    pub owned_by: &'static str,
}

#[derive(Debug)]
pub struct ModelsList {
    pub object: &'static str,
    pub data: Vec<ModelObject>,
}

#[derive(Debug)]
pub struct ErrorBody {
    pub message: String,
    pub error_type: &'static str,
    pub param: Option<&'static str>,
    pub code: Option<&'static str>,
}

#[derive(Debug)]
pub struct ErrorResponse {
    pub error: ErrorBody,
}

/// What an `ErrorResponse` says.
pub struct Complaint {
    pub error_type: Seq<char>,
    pub message: Seq<char>,
    pub param: Option<Seq<char>>,
    pub code: Option<Seq<char>>,
}

impl View for ErrorResponse {
    type V = Complaint;

    open spec fn view(&self) -> Complaint {
        Complaint {
            error_type: self.error.error_type@,
            message: self.error.message@,
            param: static_text(self.error.param),
            code: static_text(self.error.code),
        }
    }
}

/// A complaint, on a parameter where one is at fault.
pub open spec fn complaint(
    error_type: Seq<char>,
    message: Seq<char>,
    param: Option<Seq<char>>,
) -> Complaint {
    Complaint { error_type, message, param, code: None }
}

impl ErrorResponse {
    pub fn new(error_type: &'static str, message: String) -> (r: Self)
        ensures
            r@ == complaint(error_type@, message@, None),
    {
        ErrorResponse { error: ErrorBody { message, error_type, param: None, code: None } }
    }

    pub fn with_param(error_type: &'static str, message: String, param: &'static str) -> (r: Self)
        ensures
            r@ == complaint(error_type@, message@, Some(param@)),
    {
        ErrorResponse { error: ErrorBody { message, error_type, param: Some(param), code: None } }
    }
}

/// The field of a name is the first one that has it.
pub proof fn first_field_counts(fields: Seq<(String, Json)>, name: Seq<char>)
    ensures
        match field_of(fields, name) {
            Some(value) => exists|i: int|
                {
                    &&& 0 <= i < fields.len()
                    &&& (#[trigger] fields[i]).0@ == name
                    &&& fields[i].1 == value
                    &&& forall|j: int| 0 <= j < i ==> (#[trigger] fields[j]).0@ != name
                },
            None => forall|j: int| 0 <= j < fields.len() ==> (#[trigger] fields[j]).0@ != name,
        },
    decreases fields.len(),
{
    if fields.len() > 0 {
        if fields[0].0@ == name {
            assert(fields[0].1 == field_of(fields, name)->0);
        } else {
            let rest = fields.drop_first();
            first_field_counts(rest, name);
            assert forall|j: int| 0 < j < fields.len() implies #[trigger] fields[j] == rest[j
                - 1] by {
            }
            if let Some(value) = field_of(fields, name) {
                let i = choose|i: int|
                    {
                        &&& 0 <= i < rest.len()
                        &&& (#[trigger] rest[i]).0@ == name
                        &&& rest[i].1 == value
                        &&& forall|j: int| 0 <= j < i ==> (#[trigger] rest[j]).0@ != name
                    };
                assert(fields[i + 1] == rest[i]);
            }
        }
    }
}

/// What asks for something: true, a number other than zero, a text other than
/// "none" and "auto", a list that is not empty, and an object that is not empty
/// and whose type is not "text".
pub proof fn values_that_ask(value: Option<Json>)
    ensures
        asked(value) <==> match value {
            None => false,
            Some(Json::Null) => false,
            Some(Json::Bool(b)) => b,
            Some(Json::Number(bits)) => bits % 0x8000_0000_0000_0000 != 0,
            Some(Json::Text(text)) => text@ != "none"@ && text@ != "auto"@,
            Some(Json::Array(items)) => items@.len() > 0,
            Some(Json::Object(fields)) => fields@.len() > 0 && !(field_of(
                fields@,
                "type"@,
            ) matches Some(Json::Text(text)) && text@ == "text"@),
        },
{
}

/// The first field that asks for something is found, where one does.
pub proof fn first_asked_is_first(fields: Seq<(&'static str, Option<Json>)>)
    ensures
        match first_asked(fields) {
            Some(name) => exists|i: int|
                {
                    &&& 0 <= i < fields.len()
                    &&& (#[trigger] fields[i]).0@ == name
                    &&& asked(fields[i].1)
                    &&& forall|j: int| 0 <= j < i ==> !asked((#[trigger] fields[j]).1)
                },
            None => forall|j: int| 0 <= j < fields.len() ==> !asked((#[trigger] fields[j]).1),
        },
    decreases fields.len(),
{
    if fields.len() > 0 {
        if asked(fields[0].1) {
            assert(fields[0].0@ == first_asked(fields)->0);
        } else {
            let rest = fields.drop_first();
            first_asked_is_first(rest);
            assert forall|j: int| 0 < j < fields.len() implies #[trigger] fields[j] == rest[j
                - 1] by {
            }
            if let Some(name) = first_asked(fields) {
                let i = choose|i: int|
                    {
                        &&& 0 <= i < rest.len()
                        &&& (#[trigger] rest[i]).0@ == name
                        &&& asked(rest[i].1)
                        &&& forall|j: int| 0 <= j < i ==> !asked((#[trigger] rest[j]).1)
                    };
                assert(fields[i + 1] == rest[i]);
            }
        }
    }
}

/// A chat request asks for nothing that is not served where none of these fields
/// asks for anything.
pub proof fn unserved_chat_fields(body: ChatCompletionRequest)
    ensures
        first_asked(body.unserved()) is None <==> !(asked(body.response_format) || asked(body.seed)
            || asked(body.tools) || asked(body.tool_choice) || asked(body.logprobs) || asked(
            body.top_logprobs,
        ) || asked(body.logit_bias) || asked(body.frequency_penalty) || asked(
            body.presence_penalty,
        )),
        asked(body.response_format) ==> first_asked(body.unserved()) == Some("response_format"@),
        first_asked(body.unserved()) == Some("tools"@) ==> asked(body.tools),
{
    let fields = body.unserved();
    first_asked_is_first(fields);
    assert(fields[0].1 == body.response_format && fields[1].1 == body.seed && fields[2].1
        == body.tools && fields[3].1 == body.tool_choice && fields[4].1 == body.logprobs
        && fields[5].1 == body.top_logprobs && fields[6].1 == body.logit_bias && fields[7].1
        == body.frequency_penalty && fields[8].1 == body.presence_penalty);
    reveal_strlit("response_format");
    reveal_strlit("seed");
    reveal_strlit("tools");
    reveal_strlit("tool_choice");
    reveal_strlit("logprobs");
    reveal_strlit("top_logprobs");
    reveal_strlit("logit_bias");
    reveal_strlit("frequency_penalty");
    reveal_strlit("presence_penalty");
    if first_asked(fields) == Some("tools"@) {
        let i = choose|i: int|
            {
                &&& 0 <= i < fields.len()
                &&& (#[trigger] fields[i]).0@ == "tools"@
                &&& asked(fields[i].1)
                &&& forall|j: int| 0 <= j < i ==> !asked((#[trigger] fields[j]).1)
            };
        assert(fields[i].0@.len() == 5);
        assert(i == 2);
    }
}

/// A completion request asks for nothing that is not served where none of these
/// fields asks for anything.
pub proof fn unserved_completion_fields(body: CompletionRequest)
    ensures
        first_asked(body.unserved()) is None <==> !(asked(body.seed) || asked(body.logprobs)
            || asked(body.logit_bias) || asked(body.frequency_penalty) || asked(
            body.presence_penalty,
        )),
        asked(body.seed) ==> first_asked(body.unserved()) == Some("seed"@),
{
    let fields = body.unserved();
    first_asked_is_first(fields);
    assert(fields[0].1 == body.seed && fields[1].1 == body.logprobs && fields[2].1
        == body.logit_bias && fields[3].1 == body.frequency_penalty && fields[4].1
        == body.presence_penalty);
}

} // verus!
