//! What goes back to the client: identifiers, responses, and streams of events.

use crate::generate::{FinishReason, GenerationOutput};
use crate::refusal::{error, refused, Refusal};
use crate::schema::{
    complaint, countable, usage_of, ChatChoice, ChatCompletionChunk, ChatCompletionMessage,
    ChatCompletionResponse, ChunkChoice, ChunkDelta, CompletionChoice, CompletionChunk,
    CompletionResponse, ErrorResponse, Usage, MODEL_ID,
};
use crate::text::{static_text, text_of, to_chars};
use crate::worker::StreamEvent;
use rand::Rng;
use vstd::prelude::*;
use vstd::string::*;
use vstd::utf8::*;

verus! {

/// How many symbols an identifier ends with.
pub const ID_SYMBOLS: usize = 24;

/// The symbol of an identifier with the number `i`: small letters, capitals,
/// digits.
pub open spec fn id_symbol(i: usize) -> char {
    if i < 26 {
        (97 + i) as char
    } else if i < 52 {
        (39 + i) as char
    } else {
        (i - 4) as char
    }
}

/// The identifier that numbers of symbols spell.
pub open spec fn id_text(prefix: Seq<char>, picks: Seq<usize>) -> Seq<char> {
    prefix + "-"@ + Seq::new(picks.len(), |i: int| id_symbol(picks[i]))
}

/// The numbers are those of symbols, and as many as an identifier has.
pub open spec fn are_picks(picks: Seq<usize>) -> bool {
    &&& picks.len() == ID_SYMBOLS
    &&& forall|i: int| 0 <= i < picks.len() ==> #[trigger] picks[i] < 62
}

/// `rand::Rng::random_range` on the thread's generator gives a number below the
/// end of a range from zero. Which one is left to chance.
#[verifier::external_body]
fn random_below(n: usize) -> (r: usize)
    requires
        n > 0,
    ensures
        r < n,
{
    rand::rng().random_range(0..n)
}

/// The identifier that numbers of symbols spell.
pub fn spell_id(prefix: &str, picks: &Vec<usize>) -> (r: String)
    requires
        are_picks(picks@),
    ensures
        r@ == id_text(prefix@, picks@),
{
    let mut id = prefix.to_owned();
    id.append("-");
    let ghost head = id@;
    let ghost symbols = Seq::new(picks@.len(), |i: int| id_symbol(picks@[i]));
    let mut i: usize = 0;
    assert(symbols.take(0) =~= seq![]);
    while i < picks.len()
        invariant
            i <= picks@.len(),
            are_picks(picks@),
            symbols == Seq::new(picks@.len(), |i: int| id_symbol(picks@[i])),
            id@ == head + symbols.take(i as int),
        decreases picks@.len() - i,
    {
        let pick: u8 = picks[i] as u8;
        let symbol: char = if pick < 26 {
            (97 + pick) as char
        } else if pick < 52 {
            (39 + pick) as char
        } else {
            (pick - 4) as char
        };
        assert(symbol == id_symbol(picks@[i as int]));
        id.push(symbol);
        i += 1;
        assert(id@ =~= head + symbols.take(i as int));
    }
    assert(symbols.take(i as int) =~= symbols);
    id
}

/// `id` is an identifier with this prefix.
pub open spec fn is_id(prefix: Seq<char>, id: Seq<char>) -> bool {
    exists|picks: Seq<usize>| #[trigger] are_picks(picks) && id == id_text(prefix, picks)
}

/// A new identifier, its symbols drawn by chance.
pub fn gen_id(prefix: &str) -> (r: String)
    ensures
        is_id(prefix@, r@),
{
    let mut picks: Vec<usize> = Vec::new();
    while picks.len() < ID_SYMBOLS
        invariant
            picks@.len() <= ID_SYMBOLS,
            forall|i: int| 0 <= i < picks@.len() ==> #[trigger] picks@[i] < 62,
        decreases ID_SYMBOLS - picks@.len(),
    {
        picks.push(random_below(62));
    }
    assert(are_picks(picks@));
    spell_id(prefix, &picks)
}

/// Different picks spell different identifiers.
pub proof fn ids_tell_picks_apart(prefix: Seq<char>, a: Seq<usize>, b: Seq<usize>)
    requires
        are_picks(a),
        are_picks(b),
        id_text(prefix, a) == id_text(prefix, b),
    ensures
        a == b,
{
    let head = prefix + "-"@;
    assert forall|i: int| 0 <= i < a.len() implies a[i] == b[i] by {
        assert(id_text(prefix, a)[head.len() + i] == id_symbol(a[i]));
        assert(id_text(prefix, b)[head.len() + i] == id_symbol(b[i]));
    }
    assert(a =~= b);
}

pub open spec fn reason_text(reason: FinishReason) -> Seq<char> {
    match reason {
        FinishReason::Stop => "stop"@,
        FinishReason::Length => "length"@,
    }
}

pub fn finish_reason_str(reason: FinishReason) -> (r: &'static str)
    ensures
        r@ == reason_text(reason),
        r@ == if reason == FinishReason::Stop {
            "stop"@
        } else {
            "length"@
        },
{
    match reason {
        FinishReason::Stop => "stop",
        FinishReason::Length => "length",
    }
}

fn push_bytes(out: &mut Vec<u8>, bytes: &[u8])
    ensures
        final(out)@ == old(out)@ + bytes@,
{
    let ghost before = out@;
    let mut i: usize = 0;
    assert(before + bytes@.take(0) =~= before);
    while i < bytes.len()
        invariant
            i <= bytes@.len(),
            out@ == before + bytes@.take(i as int),
        decreases bytes@.len() - i,
    {
        out.push(bytes[i]);
        i += 1;
        assert(out@ =~= before + bytes@.take(i as int));
    }
    assert(bytes@.take(i as int) == bytes@);
}

/// The event that carries a payload.
pub fn sse_data(payload: &Vec<u8>) -> (r: Vec<u8>)
    ensures
        r@ == encode_utf8("data: "@) + payload@ + encode_utf8("\n\n"@),
{
    let mut out: Vec<u8> = Vec::new();
    push_bytes(&mut out, "data: ".as_bytes());
    push_bytes(&mut out, payload.as_slice());
    push_bytes(&mut out, "\n\n".as_bytes());
    assert(out@ =~= encode_utf8("data: "@) + payload@ + encode_utf8("\n\n"@));
    out
}

/// The event that carries the payload of an error.
pub fn sse_error(payload: &Vec<u8>) -> (r: Vec<u8>)
    ensures
        r@ == encode_utf8("event: error\ndata: "@) + payload@ + encode_utf8("\n\n"@),
{
    let mut out: Vec<u8> = Vec::new();
    push_bytes(&mut out, "event: error\ndata: ".as_bytes());
    push_bytes(&mut out, payload.as_slice());
    push_bytes(&mut out, "\n\n".as_bytes());
    assert(out@ =~= encode_utf8("event: error\ndata: "@) + payload@ + encode_utf8("\n\n"@));
    out
}

/// The event that ends a stream.
pub fn sse_done() -> (r: Vec<u8>)
    ensures
        r@ == encode_utf8("data: [DONE]\n\n"@),
{
    let mut out: Vec<u8> = Vec::new();
    push_bytes(&mut out, "data: [DONE]\n\n".as_bytes());
    assert(out@ =~= encode_utf8("data: [DONE]\n\n"@));
    out
}

/// What a job without a stream came to: its output, or a refusal.
pub fn settle(event: Option<StreamEvent>) -> (r: Result<GenerationOutput, Refusal>)
    ensures
        match event {
            Some(StreamEvent::Done(output)) => r == Ok::<_, Refusal>(output),
            Some(StreamEvent::Error(message)) => r matches Err(refusal) && refusal@ == refused(
                500,
                "internal_error"@,
                message@,
            ),
            _ => r matches Err(refusal) && refusal@ == refused(
                500,
                "internal_error"@,
                "generation worker closed unexpectedly"@,
            ),
        },
{
    match event {
        Some(StreamEvent::Done(output)) => Ok(output),
        Some(StreamEvent::Error(message)) => Err(error(500, "internal_error", message)),
        _ => Err(
            error(500, "internal_error", "generation worker closed unexpectedly".to_owned()),
        ),
    }
}

/// The response to a chat request.
pub fn chat_response(id: String, created: u64, output: GenerationOutput) -> (r:
    ChatCompletionResponse)
    requires
        countable(output),
    ensures
        r.id == id,
        r.object@ == "chat.completion"@,
        r.created == created,
        r.model@ == MODEL_ID@,
        r.choices@.len() == 1,
        r.choices@[0].index == 0,
        r.choices@[0].message.role@ == "assistant"@,
        r.choices@[0].message.content@ == output.text@,
        text_of(r.choices@[0].message.reasoning_content) == (if output.reasoning@.len() == 0 {
            None
        } else {
            Some(output.reasoning@)
        }),
        r.choices@[0].finish_reason@ == reason_text(output.finish_reason),
        r.usage == usage_of(output),
{
    let usage = Usage::of(&output);
    let reasoning_content = if to_chars(output.reasoning.as_str()).len() == 0 {
        None
    } else {
        Some(output.reasoning)
    };
    let mut choices: Vec<ChatChoice> = Vec::new();
    choices.push(
        ChatChoice {
            index: 0,
            message: ChatCompletionMessage {
                role: "assistant",
                content: output.text,
                reasoning_content,
            },
            finish_reason: finish_reason_str(output.finish_reason),
        },
    );
    ChatCompletionResponse {
        id,
        object: "chat.completion",
        created,
        model: MODEL_ID,
        choices,
        usage,
    }
}

/// The response to a completion request.
pub fn completion_response(id: String, created: u64, output: GenerationOutput) -> (r:
    CompletionResponse)
    requires
        countable(output),
    ensures
        r.id == id,
        r.object@ == "text_completion"@,
        r.created == created,
        r.model@ == MODEL_ID@,
        r.choices@.len() == 1,
        r.choices@[0].index == 0,
        r.choices@[0].text@ == output.text@,
        static_text(r.choices@[0].finish_reason) == Some(reason_text(output.finish_reason)),
        r.usage == usage_of(output),
{
    let usage = Usage::of(&output);
    let mut choices: Vec<CompletionChoice> = Vec::new();
    choices.push(
        CompletionChoice {
            index: 0,
            text: output.text,
            finish_reason: Some(finish_reason_str(output.finish_reason)),
        },
    );
    CompletionResponse {
        id,
        object: "text_completion",
        created,
        model: MODEL_ID,
        choices,
        usage,
    }
}

/// One event of a stream, before it is written out.
#[derive(Debug)]
pub enum Sent<T> {
    /// A chunk of the reply.
    Chunk(T),
    /// An error.
    Error(ErrorResponse),
    /// The end of the stream.
    Done,
}

/// What a chunk of a stream says.
pub struct ChunkText {
    pub id: Seq<char>,
    pub created: u64,
    /// Its choice: role, content, reasoning and reason to finish.
    pub choice: Option<
        (Option<Seq<char>>, Option<Seq<char>>, Option<Seq<char>>, Option<Seq<char>>),
    >,
    pub usage: Option<Usage>,
}

/// A chunk of a chat says this.
pub open spec fn chat_chunk_says(chunk: ChatCompletionChunk, text: ChunkText) -> bool {
    &&& chunk.id@ == text.id
    &&& chunk.object@ == "chat.completion.chunk"@
    &&& chunk.created == text.created
    &&& chunk.model@ == MODEL_ID@
    &&& chunk.usage == text.usage
    &&& match text.choice {
        None => chunk.choices@.len() == 0,
        Some((role, content, reasoning, reason)) => {
            &&& chunk.choices@.len() == 1
            &&& chunk.choices@[0].index == 0
            &&& static_text(chunk.choices@[0].delta.role) == role
            &&& text_of(chunk.choices@[0].delta.content) == content
            &&& text_of(chunk.choices@[0].delta.reasoning_content) == reasoning
            &&& static_text(chunk.choices@[0].finish_reason) == reason
        },
    }
}

/// A chunk of a completion says this.
pub open spec fn completion_chunk_says(chunk: CompletionChunk, text: ChunkText) -> bool {
    &&& chunk.id@ == text.id
    &&& chunk.object@ == "text_completion"@
    &&& chunk.created == text.created
    &&& chunk.model@ == MODEL_ID@
    &&& chunk.usage == text.usage
    &&& match text.choice {
        None => chunk.choices@.len() == 0,
        Some((_, content, _, reason)) => {
            &&& chunk.choices@.len() == 1
            &&& chunk.choices@[0].index == 0
            &&& Some(chunk.choices@[0].text@) == content
            &&& static_text(chunk.choices@[0].finish_reason) == reason
        },
    }
}

/// What a stream sends for an event, in plain terms.
pub enum Signal {
    Chunk(ChunkText),
    Error(Seq<char>),
    Done,
}

/// The end of a stream whose job is done: why it finished, the usage where it
/// is wanted, and the mark of the end.
pub open spec fn closing(
    id: Seq<char>,
    created: u64,
    include_usage: bool,
    empty: (Option<Seq<char>>, Option<Seq<char>>, Option<Seq<char>>),
    output: GenerationOutput,
) -> Seq<Signal> {
    let finish = Signal::Chunk(
        ChunkText {
            id,
            created,
            choice: Some((empty.0, empty.1, empty.2, Some(reason_text(output.finish_reason)))),
            usage: None,
        },
    );
    let usage = Signal::Chunk(
        ChunkText { id, created, choice: None, usage: Some(usage_of(output)) },
    );
    if include_usage {
        seq![finish, usage, Signal::Done]
    } else {
        seq![finish, Signal::Done]
    }
}

/// What a chat stream sends for an event. The first piece of the reply comes
/// with the role.
pub open spec fn chat_signals(
    id: Seq<char>,
    created: u64,
    include_usage: bool,
    sent_role: bool,
    event: StreamEvent,
) -> Seq<Signal> {
    let role = if sent_role {
        None
    } else {
        Some("assistant"@)
    };
    match event {
        StreamEvent::Delta(text) => seq![
            Signal::Chunk(
                ChunkText {
                    id,
                    created,
                    choice: Some((role, Some(text@), None, None)),
                    usage: None,
                },
            ),
        ],
        StreamEvent::ReasoningDelta(text) => seq![
            Signal::Chunk(
                ChunkText {
                    id,
                    created,
                    choice: Some((role, None, Some(text@), None)),
                    usage: None,
                },
            ),
        ],
        StreamEvent::Done(output) => closing(
            id,
            created,
            include_usage,
            (None, None, None),
            output,
        ),
        StreamEvent::Error(message) => seq![Signal::Error(message@), Signal::Done],
    }
}

/// What a completion stream sends for an event.
pub open spec fn completion_signals(
    id: Seq<char>,
    created: u64,
    include_usage: bool,
    event: StreamEvent,
) -> Seq<Signal> {
    match event {
        StreamEvent::Delta(text) | StreamEvent::ReasoningDelta(text) => seq![
            Signal::Chunk(
                ChunkText {
                    id,
                    created,
                    choice: Some((None, Some(text@), None, None)),
                    usage: None,
                },
            ),
        ],
        StreamEvent::Done(output) => closing(
            id,
            created,
            include_usage,
            (None, Some(seq![]), None),
            output,
        ),
        StreamEvent::Error(message) => seq![Signal::Error(message@), Signal::Done],
    }
}

/// Whether a stream ends with an event.
pub open spec fn ends_stream(event: StreamEvent) -> bool {
    event is Done || event is Error
}

/// What is sent of a chat is what the signal says.
pub open spec fn chat_sent(sent: Sent<ChatCompletionChunk>, signal: Signal) -> bool {
    match signal {
        Signal::Chunk(text) => sent matches Sent::Chunk(chunk) && chat_chunk_says(chunk, text),
        Signal::Error(message) => sent matches Sent::Error(body) && body@ == complaint(
            "internal_error"@,
            message,
            None,
        ),
        Signal::Done => sent is Done,
    }
}

/// What is sent of a completion is what the signal says.
pub open spec fn completion_sent(sent: Sent<CompletionChunk>, signal: Signal) -> bool {
    match signal {
        Signal::Chunk(text) => sent matches Sent::Chunk(chunk) && completion_chunk_says(
            chunk,
            text,
        ),
        Signal::Error(message) => sent matches Sent::Error(body) && body@ == complaint(
            "internal_error"@,
            message,
            None,
        ),
        Signal::Done => sent is Done,
    }
}

/// What is sent of a chat is what the signals say.
pub open spec fn chat_all_sent(sent: Seq<Sent<ChatCompletionChunk>>, signals: Seq<Signal>) -> bool {
    &&& sent.len() == signals.len()
    &&& forall|i: int| 0 <= i < sent.len() ==> chat_sent(#[trigger] sent[i], signals[i])
}

/// What is sent of a completion is what the signals say.
pub open spec fn completion_all_sent(
    sent: Seq<Sent<CompletionChunk>>,
    signals: Seq<Signal>,
) -> bool {
    &&& sent.len() == signals.len()
    &&& forall|i: int| 0 <= i < sent.len() ==> completion_sent(#[trigger] sent[i], signals[i])
}

/// The stream of a chat.
pub struct ChatStream {
    pub id: String,
    pub created: u64,
    pub include_usage: bool,
    pub sent_role: bool,
}

impl ChatStream {
    pub fn new(id: String, created: u64, include_usage: bool) -> (r: Self)
        ensures
            r.id == id,
            r.created == created,
            r.include_usage == include_usage,
            !r.sent_role,
    {
        ChatStream { id, created, include_usage, sent_role: false }
    }

    fn chunk(&self, choices: Vec<ChunkChoice>, usage: Option<Usage>) -> (r: ChatCompletionChunk)
        ensures
            r.id@ == self.id@,
            r.object@ == "chat.completion.chunk"@,
            r.created == self.created,
            r.model@ == MODEL_ID@,
            r.choices == choices,
            r.usage == usage,
    {
        ChatCompletionChunk {
            id: self.id.as_str().to_owned(),
            object: "chat.completion.chunk",
            created: self.created,
            model: MODEL_ID,
            choices,
            usage,
        }
    }

    /// What is to be sent for an event, in order, and whether the stream ends
    /// there.
    pub fn on_event(&mut self, event: StreamEvent) -> (r: (Vec<Sent<ChatCompletionChunk>>, bool))
        requires
            event matches StreamEvent::Done(output) ==> countable(output),
        ensures
            chat_all_sent(
                r.0@,
                chat_signals(
                    old(self).id@,
                    old(self).created,
                    old(self).include_usage,
                    old(self).sent_role,
                    event,
                ),
            ),
            r.1 == ends_stream(event),
            final(self).id == old(self).id,
            final(self).created == old(self).created,
            final(self).include_usage == old(self).include_usage,
            final(self).sent_role == (old(self).sent_role || !ends_stream(event)),
            r.1 <==> event is Done || event is Error,
            forall|i: int|
                0 <= i < r.0@.len() ==> (#[trigger] r.0@[i] matches Sent::Chunk(chunk) ==> {
                    &&& chunk.id@ == old(self).id@
                    &&& chunk.object@ == "chat.completion.chunk"@
                    &&& chunk.created == old(self).created
                    &&& chunk.model@ == "gemma-4-12b-it"@
                }),
            event matches StreamEvent::Delta(text) ==> {
                &&& r.0@.len() == 1
                &&& r.0@[0] matches Sent::Chunk(chunk)
                &&& chunk.choices@.len() == 1
                &&& chunk.choices@[0].index == 0
                &&& text_of(chunk.choices@[0].delta.content) == Some(text@)
                &&& chunk.choices@[0].delta.reasoning_content is None
                &&& chunk.choices@[0].finish_reason is None
            },
            event matches StreamEvent::ReasoningDelta(text) ==> {
                &&& r.0@.len() == 1
                &&& r.0@[0] matches Sent::Chunk(chunk)
                &&& chunk.choices@.len() == 1
                &&& chunk.choices@[0].index == 0
                &&& text_of(chunk.choices@[0].delta.reasoning_content) == Some(text@)
                &&& chunk.choices@[0].delta.content is None
                &&& chunk.choices@[0].finish_reason is None
            },
            event matches StreamEvent::Error(message) ==> {
                &&& r.0@.len() == 2
                &&& r.0@[0] matches Sent::Error(body)
                &&& body.error.message@ == message@
            },
    {
        let mut sent: Vec<Sent<ChatCompletionChunk>> = Vec::new();
        let role = if self.sent_role {
            None
        } else {
            Some("assistant")
        };
        match event {
            StreamEvent::Done(output) => {
                let usage = Usage::of(&output);
                let mut choices: Vec<ChunkChoice> = Vec::new();
                choices.push(
                    ChunkChoice {
                        index: 0,
                        delta: ChunkDelta { role: None, content: None, reasoning_content: None },
                        finish_reason: Some(finish_reason_str(output.finish_reason)),
                    },
                );
                sent.push(Sent::Chunk(self.chunk(choices, None)));
                if self.include_usage {
                    sent.push(Sent::Chunk(self.chunk(Vec::new(), Some(usage))));
                }
                sent.push(Sent::Done);
                (sent, true)
            },
            StreamEvent::Error(message) => {
                sent.push(Sent::Error(ErrorResponse::new("internal_error", message)));
                sent.push(Sent::Done);
                (sent, true)
            },
            StreamEvent::Delta(text) => {
                let mut choices: Vec<ChunkChoice> = Vec::new();
                choices.push(
                    ChunkChoice {
                        index: 0,
                        delta: ChunkDelta { role, content: Some(text), reasoning_content: None },
                        finish_reason: None,
                    },
                );
                sent.push(Sent::Chunk(self.chunk(choices, None)));
                self.sent_role = true;
                (sent, false)
            },
            StreamEvent::ReasoningDelta(text) => {
                let mut choices: Vec<ChunkChoice> = Vec::new();
                choices.push(
                    ChunkChoice {
                        index: 0,
                        delta: ChunkDelta { role, content: None, reasoning_content: Some(text) },
                        finish_reason: None,
                    },
                );
                sent.push(Sent::Chunk(self.chunk(choices, None)));
                self.sent_role = true;
                (sent, false)
            },
        }
    }
}

/// The stream of a completion.
pub struct CompletionStream {
    pub id: String,
    pub created: u64,
    pub include_usage: bool,
}

impl CompletionStream {
    pub fn new(id: String, created: u64, include_usage: bool) -> (r: Self)
        ensures
            r.id == id,
            r.created == created,
            r.include_usage == include_usage,
    {
        CompletionStream { id, created, include_usage }
    }

    fn chunk(&self, choices: Vec<CompletionChoice>, usage: Option<Usage>) -> (r: CompletionChunk)
        ensures
            r.id@ == self.id@,
            r.object@ == "text_completion"@,
            r.created == self.created,
            r.model@ == MODEL_ID@,
            r.choices == choices,
            r.usage == usage,
    {
        CompletionChunk {
            id: self.id.as_str().to_owned(),
            object: "text_completion",
            created: self.created,
            model: MODEL_ID,
            choices,
            usage,
        }
    }

    /// What is to be sent for an event, in order, and whether the stream ends
    /// there.
    pub fn on_event(&self, event: StreamEvent) -> (r: (Vec<Sent<CompletionChunk>>, bool))
        requires
            event matches StreamEvent::Done(output) ==> countable(output),
        ensures
            completion_all_sent(
                r.0@,
                completion_signals(self.id@, self.created, self.include_usage, event),
            ),
            r.1 == ends_stream(event),
            r.1 <==> event is Done || event is Error,
            forall|i: int|
                0 <= i < r.0@.len() ==> (#[trigger] r.0@[i] matches Sent::Chunk(chunk) ==> {
                    &&& chunk.id@ == self.id@
                    &&& chunk.object@ == "text_completion"@
                    &&& chunk.created == self.created
                    &&& chunk.model@ == "gemma-4-12b-it"@
                }),
            event matches StreamEvent::Delta(text) ==> {
                &&& r.0@.len() == 1
                &&& r.0@[0] matches Sent::Chunk(chunk)
                &&& chunk.choices@.len() == 1
                &&& chunk.choices@[0].index == 0
                &&& chunk.choices@[0].text@ == text@
                &&& chunk.choices@[0].finish_reason is None
            },
            event matches StreamEvent::ReasoningDelta(text) ==> {
                &&& r.0@.len() == 1
                &&& r.0@[0] matches Sent::Chunk(chunk)
                &&& chunk.choices@.len() == 1
                &&& chunk.choices@[0].text@ == text@
                &&& chunk.choices@[0].finish_reason is None
            },
            event matches StreamEvent::Error(message) ==> {
                &&& r.0@.len() == 2
                &&& r.0@[0] matches Sent::Error(body)
                &&& body.error.message@ == message@
            },
    {
        let mut sent: Vec<Sent<CompletionChunk>> = Vec::new();
        match event {
            StreamEvent::Done(output) => {
                let usage = Usage::of(&output);
                let text = String::new();
                assert(text@ =~= seq![]);
                let mut choices: Vec<CompletionChoice> = Vec::new();
                choices.push(
                    CompletionChoice {
                        index: 0,
                        text,
                        finish_reason: Some(finish_reason_str(output.finish_reason)),
                    },
                );
                sent.push(Sent::Chunk(self.chunk(choices, None)));
                if self.include_usage {
                    sent.push(Sent::Chunk(self.chunk(Vec::new(), Some(usage))));
                }
                sent.push(Sent::Done);
                (sent, true)
            },
            StreamEvent::Error(message) => {
                sent.push(Sent::Error(ErrorResponse::new("internal_error", message)));
                sent.push(Sent::Done);
                (sent, true)
            },
            StreamEvent::Delta(text) | StreamEvent::ReasoningDelta(text) => {
                let mut choices: Vec<CompletionChoice> = Vec::new();
                choices.push(CompletionChoice { index: 0, text, finish_reason: None });
                sent.push(Sent::Chunk(self.chunk(choices, None)));
                (sent, false)
            },
        }
    }
}

/// The end of a stream is marked once, at the end of what the last event sends,
/// and no other event sends it.
pub proof fn streams_end_once(
    id: Seq<char>,
    created: u64,
    include_usage: bool,
    sent_role: bool,
    event: StreamEvent,
)
    ensures
        ({
            let chat = chat_signals(id, created, include_usage, sent_role, event);
            let completion = completion_signals(id, created, include_usage, event);
            &&& chat.len() > 0
            &&& completion.len() > 0
            &&& forall|i: int|
                0 <= i < chat.len() ==> ((#[trigger] chat[i]) is Done <==> ends_stream(event) && i
                    == chat.len() - 1)
            &&& forall|i: int|
                0 <= i < completion.len() ==> ((#[trigger] completion[i]) is Done <==> ends_stream(
                    event,
                ) && i == completion.len() - 1)
        }),
{
}

/// What a chat stream sends for events, from the first to the one that ends it.
pub open spec fn stream_signals(
    id: Seq<char>,
    created: u64,
    include_usage: bool,
    sent_role: bool,
    events: Seq<StreamEvent>,
) -> Seq<Signal>
    decreases events.len(),
{
    if events.len() == 0 {
        seq![]
    } else {
        let here = chat_signals(id, created, include_usage, sent_role, events[0]);
        if ends_stream(events[0]) {
            here
        } else {
            here + stream_signals(id, created, include_usage, true, events.drop_first())
        }
    }
}

/// The role that a signal carries.
pub open spec fn role_in(signal: Signal) -> Option<Seq<char>> {
    match signal {
        Signal::Chunk(text) => match text.choice {
            Some((role, _, _, _)) => role,
            None => None,
        },
        _ => None,
    }
}

/// In a chat stream only the first chunk carries the role, and only where the
/// stream begins with a piece of the reply.
pub proof fn role_comes_once(
    id: Seq<char>,
    created: u64,
    include_usage: bool,
    sent_role: bool,
    events: Seq<StreamEvent>,
)
    ensures
        forall|i: int|
            0 <= i < stream_signals(id, created, include_usage, sent_role, events).len()
                ==> role_in(
                #[trigger] stream_signals(id, created, include_usage, sent_role, events)[i],
            ) == (if i == 0 && !sent_role && !ends_stream(events[0]) {
                Some("assistant"@)
            } else {
                None
            }),
    decreases events.len(),
{
    if events.len() > 0 && !ends_stream(events[0]) {
        let rest = events.drop_first();
        role_comes_once(id, created, include_usage, true, rest);
        let here = chat_signals(id, created, include_usage, sent_role, events[0]);
        let later = stream_signals(id, created, include_usage, true, rest);
        let all = stream_signals(id, created, include_usage, sent_role, events);
        assert forall|i: int| 0 <= i < all.len() implies role_in(#[trigger] all[i]) == (if i == 0
            && !sent_role {
            Some("assistant"@)
        } else {
            None
        }) by {
            if i > 0 {
                assert(all[i] == later[i - 1]);
            }
        }
    }
}

/// The texts of the pieces of the answer among events, in one piece, up to the
/// event that ends the stream.
pub open spec fn answer_in(events: Seq<StreamEvent>) -> Seq<char>
    decreases events.len(),
{
    if events.len() == 0 || events[0] is Done || events[0] is Error {
        seq![]
    } else {
        (match events[0] {
            StreamEvent::Delta(text) => text@,
            _ => seq![],
        }) + answer_in(events.drop_first())
    }
}

/// The texts of the pieces of the reasoning among events, in one piece, up to the
/// event that ends the stream.
pub open spec fn thoughts_in(events: Seq<StreamEvent>) -> Seq<char>
    decreases events.len(),
{
    if events.len() == 0 || events[0] is Done || events[0] is Error {
        seq![]
    } else {
        (match events[0] {
            StreamEvent::ReasoningDelta(text) => text@,
            _ => seq![],
        }) + thoughts_in(events.drop_first())
    }
}

/// The content that signals carry, in one piece.
pub open spec fn content_in(signals: Seq<Signal>) -> Seq<char>
    decreases signals.len(),
{
    if signals.len() == 0 {
        seq![]
    } else {
        (match signals[0] {
            Signal::Chunk(chunk) => match chunk.choice {
                Some((_, Some(text), _, _)) => text,
                _ => seq![],
            },
            _ => seq![],
        }) + content_in(signals.drop_first())
    }
}

/// The reasoning that signals carry, in one piece.
pub open spec fn reasoning_in(signals: Seq<Signal>) -> Seq<char>
    decreases signals.len(),
{
    if signals.len() == 0 {
        seq![]
    } else {
        (match signals[0] {
            Signal::Chunk(chunk) => match chunk.choice {
                Some((_, _, Some(text), _)) => text,
                _ => seq![],
            },
            _ => seq![],
        }) + reasoning_in(signals.drop_first())
    }
}

/// A client that puts the chunks of a chat stream together has the answer and
/// the reasoning that the worker reported.
pub proof fn streams_carry_the_reply(
    id: Seq<char>,
    created: u64,
    include_usage: bool,
    sent_role: bool,
    events: Seq<StreamEvent>,
)
    ensures
        content_in(stream_signals(id, created, include_usage, sent_role, events)) == answer_in(
            events,
        ),
        reasoning_in(stream_signals(id, created, include_usage, sent_role, events)) == thoughts_in(
            events,
        ),
    decreases events.len(),
{
    reveal_with_fuel(content_in, 4);
    reveal_with_fuel(reasoning_in, 4);
    let all = stream_signals(id, created, include_usage, sent_role, events);
    if events.len() > 0 {
        let here = chat_signals(id, created, include_usage, sent_role, events[0]);
        if ends_stream(events[0]) {
            assert(content_in(here) =~= seq![]);
            assert(reasoning_in(here) =~= seq![]);
        } else {
            let rest = events.drop_first();
            streams_carry_the_reply(id, created, include_usage, true, rest);
            let later = stream_signals(id, created, include_usage, true, rest);
            assert(here.len() == 1);
            assert(all =~= here + later);
            assert(all.drop_first() =~= later);
            assert(all[0] == here[0]);
            assert(content_in(all) =~= answer_in(events));
            assert(reasoning_in(all) =~= thoughts_in(events));
        }
    }
}

/// A stream whose job is done ends with the reason, then with the usage where it
/// is wanted: the tokens of the prompt, those of the reply, and both together. A
/// stream whose job failed ends with the fault.
pub proof fn streams_end_with_the_reason(
    id: Seq<char>,
    created: u64,
    include_usage: bool,
    sent_role: bool,
    event: StreamEvent,
)
    requires
        event matches StreamEvent::Done(output) ==> countable(output),
    ensures
        ({
            let chat = chat_signals(id, created, include_usage, sent_role, event);
            let plain = completion_signals(id, created, include_usage, event);
            match event {
                StreamEvent::Done(output) => {
                    let reason = if output.finish_reason == FinishReason::Stop {
                        "stop"@
                    } else {
                        "length"@
                    };
                    &&& chat.len() == plain.len()
                    &&& chat.len() == if include_usage {
                        3nat
                    } else {
                        2nat
                    }
                    &&& chat[0] == Signal::Chunk(
                        ChunkText {
                            id,
                            created,
                            choice: Some((None, None, None, Some(reason))),
                            usage: None,
                        },
                    )
                    &&& plain[0] == Signal::Chunk(
                        ChunkText {
                            id,
                            created,
                            choice: Some((None, Some(seq![]), None, Some(reason))),
                            usage: None,
                        },
                    )
                    &&& include_usage ==> chat[1] == plain[1] && chat[1] == Signal::Chunk(
                        ChunkText {
                            id,
                            created,
                            choice: None,
                            usage: Some(
                                Usage {
                                    prompt_tokens: output.prompt_tokens,
                                    completion_tokens: output.completion_tokens,
                                    total_tokens: (output.prompt_tokens
                                        + output.completion_tokens) as usize,
                                },
                            ),
                        },
                    )
                    &&& chat.last() is Done && plain.last() is Done
                },
                StreamEvent::Error(message) => {
                    &&& chat == seq![Signal::Error(message@), Signal::Done]
                    &&& plain == chat
                },
                StreamEvent::Delta(text) => {
                    &&& chat.len() == 1 && plain.len() == 1
                    &&& plain[0] == Signal::Chunk(
                        ChunkText {
                            id,
                            created,
                            choice: Some((None, Some(text@), None, None)),
                            usage: None,
                        },
                    )
                    &&& chat[0] matches Signal::Chunk(chunk) && chunk.id == id && chunk.created
                        == created && chunk.usage is None
                },
                StreamEvent::ReasoningDelta(text) => {
                    &&& chat.len() == 1 && plain.len() == 1
                    &&& plain[0] == Signal::Chunk(
                        ChunkText {
                            id,
                            created,
                            choice: Some((None, Some(text@), None, None)),
                            usage: None,
                        },
                    )
                    &&& chat[0] matches Signal::Chunk(chunk) && chunk.id == id && chunk.created
                        == created && chunk.usage is None
                },
            }
        }),
{
}

/// An identifier is a prefix, a hyphen and letters and digits.
pub proof fn ids_are_letters_and_digits(prefix: Seq<char>, picks: Seq<usize>, i: int)
    requires
        are_picks(picks),
        0 <= i < 24,
    ensures
        id_text(prefix, picks).len() == prefix.len() + 25,
        id_text(prefix, picks).take(prefix.len() as int) == prefix,
        id_text(prefix, picks)[prefix.len() as int] == '-',
        ({
            let c = id_text(prefix, picks)[prefix.len() + 1 + i];
            'a' <= c <= 'z' || 'A' <= c <= 'Z' || '0' <= c <= '9'
        }),
{
    reveal_strlit("-");
    let id = id_text(prefix, picks);
    assert(id.take(prefix.len() as int) =~= prefix);
    assert(picks[i] < 62);
    assert(id[prefix.len() + 1 + i] == id_symbol(picks[i]));
}

} // verus!
