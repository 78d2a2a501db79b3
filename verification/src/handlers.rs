//! What the endpoints do with a request: what they turn down, and what they hand
//! to the generation worker.

use crate::audio::AudioFrames;
use crate::generate::{
    occurrences, request_fault, splice_is_parallel, splice_multimodal_tokens, spliced_ids,
    spliced_length, spliced_softs, GenerationRequest, SoftToken, AUDIO_TOKEN,
    DEFAULT_MAX_NEW_TOKENS, IMAGE_TOKEN,
};
use crate::image::ImagePatches;
use crate::messages::{build_chat_messages, may_prepare, Prepared};
use crate::refusal::{bad_param, bad_request, error, error_param, refused, Refusal};
use crate::runtime::VOCABULARY;
use crate::sampling::{
    SamplingConfig, RECOMMENDED_TEMPERATURE, RECOMMENDED_TOP_K, RECOMMENDED_TOP_P,
};
use crate::schema::{
    complaint, field_of, find_field, first_asked, ChatCompletionRequest, Complaint,
    CompletionRequest, Json, ModelObject, ModelsList, OneOrMany, StreamOptions, MODEL_ID,
};
use crate::text::{decimal, push_decimal, quote, quoted, static_text, str_eq};
use crate::tokenizer::{chat_encoding_of, encoding_of, message_trees, Tokenizer};
use vstd::prelude::*;
use vstd::string::*;
use vstd::utf8::*;

verus! {

pub const MAX_STOP_STRINGS: usize = 8;

pub const MAX_STOP_STRING_BYTES: usize = 256;

/// What a check finds: nothing, or a refusal.
pub open spec fn found(r: Result<(), Refusal>) -> Option<(u16, Complaint)> {
    match r {
        Ok(()) => None,
        Err(refusal) => Some(refusal@),
    }
}

pub open spec fn n_fault(n: Option<u32>) -> Option<(u16, Complaint)> {
    match n {
        Some(n) if n != 1 => Some(bad_param("only n=1 is supported"@, "n"@)),
        _ => None,
    }
}

/// Only one completion is given.
pub fn validate_n(n: Option<u32>) -> (r: Result<(), Refusal>)
    ensures
        found(r) == n_fault(n),
        r is Ok <==> n is None || n == Some(1u32),
{
    match n {
        Some(n) if n != 1 => Err(
            error_param(400, "invalid_request_error", "only n=1 is supported".to_owned(), "n"),
        ),
        _ => Ok(()),
    }
}

/// The length of the first stop string that is too long.
pub open spec fn too_long(stop: Seq<String>) -> Option<nat>
    decreases stop.len(),
{
    if stop.len() == 0 {
        None
    } else if encode_utf8(stop[0]@).len() > MAX_STOP_STRING_BYTES {
        Some(encode_utf8(stop[0]@).len())
    } else {
        too_long(stop.drop_first())
    }
}

pub open spec fn stop_fault(stop: Seq<String>) -> Option<(u16, Complaint)> {
    if stop.len() > MAX_STOP_STRINGS {
        Some(bad_param("at most 8 stop strings are supported"@, "stop"@))
    } else {
        match too_long(stop) {
            Some(length) => Some(
                bad_param(
                    "a stop string may be at most 256 bytes; got one of "@ + decimal(length),
                    "stop"@,
                ),
            ),
            None => None,
        }
    }
}

/// Stop strings are few and short.
pub fn validate_stop(stop: &Vec<String>) -> (r: Result<(), Refusal>)
    ensures
        found(r) == stop_fault(stop@),
        r is Ok <==> stop@.len() <= 8 && forall|i: int|
            0 <= i < stop@.len() ==> encode_utf8((#[trigger] stop@[i])@).len() <= 256,
{
    proof {
        too_long_is_found(stop@);
    }
    if stop.len() > MAX_STOP_STRINGS {
        return Err(
            error_param(
                400,
                "invalid_request_error",
                "at most 8 stop strings are supported".to_owned(),
                "stop",
            ),
        );
    }
    let mut i: usize = 0;
    assert(stop@.skip(0) == stop@);
    while i < stop.len()
        invariant
            i <= stop@.len() <= MAX_STOP_STRINGS,
            too_long(stop@) == too_long(stop@.skip(i as int)),
        decreases stop@.len() - i,
    {
        assert(stop@.skip(i as int).drop_first() == stop@.skip(i + 1));
        let length: usize = stop[i].as_str().as_bytes().len();
        if length > MAX_STOP_STRING_BYTES {
            let mut message = "a stop string may be at most 256 bytes; got one of ".to_owned();
            push_decimal(&mut message, length as u64);
            return Err(error_param(400, "invalid_request_error", message, "stop"));
        }
        i += 1;
    }
    Ok(())
}

pub open spec fn unsupported_fault(requested: Option<Seq<char>>) -> Option<(u16, Complaint)> {
    match requested {
        Some(field) => Some(bad_param(field + " is not supported by this server"@, field)),
        None => None,
    }
}

/// No field asks for what this server does not serve.
pub fn validate_unsupported(requested: Option<&'static str>) -> (r: Result<(), Refusal>)
    ensures
        found(r) == unsupported_fault(static_text(requested)),
        r is Ok <==> requested is None,
{
    match requested {
        Some(field) => {
            let mut message = field.to_owned();
            message.append(" is not supported by this server");
            Err(error_param(400, "invalid_request_error", message, field))
        },
        None => Ok(()),
    }
}

pub open spec fn top_k_fault(top_k: Option<usize>) -> Option<(u16, Complaint)> {
    match top_k {
        Some(k) if k > VOCABULARY => Some(
            bad_param("top_k must be at most the vocabulary size (262144)"@, "top_k"@),
        ),
        _ => None,
    }
}

/// No more candidates are asked for than there are tokens.
pub fn validate_top_k(top_k: Option<usize>) -> (r: Result<(), Refusal>)
    ensures
        found(r) == top_k_fault(top_k),
        r is Ok <==> (top_k matches Some(k) ==> k <= 262144),
{
    match top_k {
        Some(k) if k > VOCABULARY => Err(
            error_param(
                400,
                "invalid_request_error",
                "top_k must be at most the vocabulary size (262144)".to_owned(),
                "top_k",
            ),
        ),
        _ => Ok(()),
    }
}

pub open spec fn budget_fault(
    prompt_len: nat,
    max_new_tokens: nat,
    positions: nat,
    param: Seq<char>,
) -> Option<(u16, Complaint)> {
    if prompt_len + max_new_tokens > positions {
        Some(
            bad_param(
                "prompt ("@ + decimal(prompt_len) + " tokens) plus "@ + decimal(max_new_tokens)
                    + " generated tokens exceeds the "@ + decimal(positions)
                    + " position context"@,
                param,
            ),
        )
    } else {
        None
    }
}

/// The prompt and the reply fit into the context.
pub fn validate_budget(
    prompt_len: usize,
    max_new_tokens: usize,
    positions: usize,
    param: &'static str,
) -> (r: Result<(), Refusal>)
    requires
        positions < usize::MAX,
    ensures
        found(r) == budget_fault(
            prompt_len as nat,
            max_new_tokens as nat,
            positions as nat,
            param@,
        ),
        r is Ok <==> prompt_len + max_new_tokens <= positions,
{
    if prompt_len.saturating_add(max_new_tokens) > positions {
        let mut message = "prompt (".to_owned();
        push_decimal(&mut message, prompt_len as u64);
        message.append(" tokens) plus ");
        push_decimal(&mut message, max_new_tokens as u64);
        message.append(" generated tokens exceeds the ");
        push_decimal(&mut message, positions as u64);
        message.append(" position context");
        return Err(error_param(400, "invalid_request_error", message, param));
    }
    Ok(())
}

pub open spec fn model_fault(model: Seq<char>) -> Option<(u16, Complaint)> {
    if model != MODEL_ID@ {
        Some(
            (
                404,
                complaint(
                    "invalid_request_error"@,
                    "model "@ + quoted(model) + " not found; this server only serves "@ + quoted(
                        MODEL_ID@,
                    ),
                    Some("model"@),
                ),
            ),
        )
    } else {
        None
    }
}

/// The model is the one that is served.
pub fn validate_model(model: &str) -> (r: Result<(), Refusal>)
    ensures
        found(r) == model_fault(model@),
        r is Ok <==> model@ == "gemma-4-12b-it"@,
{
    if !str_eq(model, MODEL_ID) {
        let mut message = "model ".to_owned();
        message.append(quote(model).as_str());
        message.append(" not found; this server only serves ");
        message.append(quote(MODEL_ID).as_str());
        return Err(error_param(404, "invalid_request_error", message, "model"));
    }
    Ok(())
}

/// The refusal of a request to an endpoint that is not there.
pub fn not_found() -> (r: Refusal)
    ensures
        r@ == refused(404, "invalid_request_error"@, "unknown endpoint"@),
{
    error(404, "invalid_request_error", "unknown endpoint".to_owned())
}

pub open spec fn no_audio() -> (u16, Complaint) {
    refused(
        501,
        "not_implemented"@,
        "audio output is not implemented; audio input is supported only in chat completions"@,
    )
}

/// The refusal of a request for audio. Both audio endpoints give it.
pub fn audio_not_implemented() -> (r: Refusal)
    ensures
        r@ == no_audio(),
{
    error(
        501,
        "not_implemented",
        "audio output is not implemented; audio input is supported only in chat completions".to_owned(),
    )
}

/// The models that are served, as of `created`, or a refusal where the worker is
/// gone.
pub fn list_models(alive: bool, created: u64) -> (r: Result<ModelsList, Refusal>)
    ensures
        match r {
            Ok(list) => {
                &&& alive
                &&& list.object@ == "list"@
                &&& list.data@.len() == 1
                &&& list.data@[0].id@ == MODEL_ID@
                &&& list.data@[0].object@ == "model"@
                &&& list.data@[0].created == created
                &&& list.data@[0].owned_by@ == "furiosa"@
            },
            Err(refusal) => {
                &&& !alive
                &&& refusal@ == refused(
                    503,
                    "internal_error"@,
                    "the generation worker is not running; this process needs to be restarted"@,
                )
            },
        },
{
    if !alive {
        return Err(
            error(
                503,
                "internal_error",
                "the generation worker is not running; this process needs to be restarted".to_owned(),
            ),
        );
    }
    let mut data: Vec<ModelObject> = Vec::new();
    data.push(ModelObject { id: MODEL_ID, object: "model", created, owned_by: "furiosa" });
    Ok(ModelsList { object: "list", data })
}

/// Audio is among the modalities of a reply.
pub open spec fn names_audio(modalities: Seq<String>) -> bool {
    exists|i: int| 0 <= i < modalities.len() && (#[trigger] modalities[i])@ == "audio"@
}

/// Whether a request asks for audio in the reply.
pub open spec fn asks_for_audio(body: ChatCompletionRequest) -> bool {
    body.audio is Some || match body.modalities {
        Some(modalities) => names_audio(modalities@),
        None => false,
    }
}

fn wants_audio_output(body: &ChatCompletionRequest) -> (r: bool)
    ensures
        r == asks_for_audio(*body),
{
    if body.audio.is_some() {
        return true;
    }
    match &body.modalities {
        None => false,
        Some(modalities) => {
            let mut i: usize = 0;
            while i < modalities.len()
                invariant
                    i <= modalities@.len(),
                    body.audio is None,
                    body.modalities == Some(*modalities),
                    forall|j: int| 0 <= j < i ==> (#[trigger] modalities@[j])@ != "audio"@,
                decreases modalities@.len() - i,
            {
                if str_eq(modalities[i].as_str(), "audio") {
                    assert(names_audio(modalities@));
                    return true;
                }
                i += 1;
            }
            false
        },
    }
}

/// Whether a request asks the model to think: by the template's own switch, or
/// else by the effort.
pub open spec fn thinking_of(body: ChatCompletionRequest) -> Result<bool, (u16, Complaint)> {
    let by_effort = match body.reasoning_effort {
        Some(effort) => effort@ != "none"@ && effort@ != "minimal"@,
        None => false,
    };
    match body.chat_template_kwargs {
        None => Ok(by_effort),
        Some(Json::Object(fields)) => match field_of(fields@, "enable_thinking"@) {
            None => Ok(by_effort),
            Some(Json::Bool(value)) => Ok(value),
            Some(_) => Err(
                bad_param(
                    "chat_template_kwargs.enable_thinking must be a boolean"@,
                    "chat_template_kwargs.enable_thinking"@,
                ),
            ),
        },
        Some(_) => Err(
            bad_param("chat_template_kwargs must be an object"@, "chat_template_kwargs"@),
        ),
    }
}

pub fn wants_thinking(body: &ChatCompletionRequest) -> (r: Result<bool, Refusal>)
    ensures
        match r {
            Ok(value) => thinking_of(*body) == Ok::<_, (u16, Complaint)>(value),
            Err(refusal) => thinking_of(*body) == Err::<bool, _>(refusal@),
        },
{
    if let Some(kwargs) = &body.chat_template_kwargs {
        match kwargs {
            Json::Object(fields) => {
                match find_field(fields, "enable_thinking") {
                    None => {},
                    Some(Json::Bool(value)) => return Ok(*value),
                    Some(_) => return Err(
                        error_param(
                            400,
                            "invalid_request_error",
                            "chat_template_kwargs.enable_thinking must be a boolean".to_owned(),
                            "chat_template_kwargs.enable_thinking",
                        ),
                    ),
                }
            },
            _ => return Err(
                error_param(
                    400,
                    "invalid_request_error",
                    "chat_template_kwargs must be an object".to_owned(),
                    "chat_template_kwargs",
                ),
            ),
        }
    }
    match &body.reasoning_effort {
        Some(effort) => Ok(
            !str_eq(effort.as_str(), "none") && !str_eq(effort.as_str(), "minimal"),
        ),
        None => Ok(false),
    }
}

/// What is wrong with a chat request before its messages are looked at; else
/// whether it asks the model to think.
pub open spec fn chat_checks(body: ChatCompletionRequest) -> Result<bool, (u16, Complaint)> {
    if model_fault(body.model@) is Some {
        Err(model_fault(body.model@)->0)
    } else if n_fault(body.n) is Some {
        Err(n_fault(body.n)->0)
    } else if top_k_fault(body.top_k) is Some {
        Err(top_k_fault(body.top_k)->0)
    } else if unsupported_fault(first_asked(body.unserved())) is Some {
        Err(unsupported_fault(first_asked(body.unserved()))->0)
    } else if asks_for_audio(body) {
        Err(no_audio())
    } else if body.messages@.len() == 0 {
        Err(bad_request("messages must not be empty"@))
    } else {
        thinking_of(body)
    }
}

/// Checks a chat request before its messages are looked at, and says whether it
/// asks the model to think.
pub fn check_chat(body: &ChatCompletionRequest) -> (r: Result<bool, Refusal>)
    ensures
        match r {
            Ok(thinking) => chat_checks(*body) == Ok::<_, (u16, Complaint)>(thinking),
            Err(refusal) => chat_checks(*body) == Err::<bool, _>(refusal@),
        },
{
    if let Err(refusal) = validate_model(body.model.as_str()) {
        return Err(refusal);
    }
    if let Err(refusal) = validate_n(body.n) {
        return Err(refusal);
    }
    if let Err(refusal) = validate_top_k(body.top_k) {
        return Err(refusal);
    }
    if let Err(refusal) = validate_unsupported(body.unsupported()) {
        return Err(refusal);
    }
    if wants_audio_output(body) {
        return Err(audio_not_implemented());
    }
    if body.messages.len() == 0 {
        return Err(
            error(400, "invalid_request_error", "messages must not be empty".to_owned()),
        );
    }
    wants_thinking(body)
}

/// A generation that a request leads to, and how its events are to be sent.
pub struct Call {
    pub request: GenerationRequest,
    pub stream: bool,
    pub include_usage: bool,
}

/// Whether a stream is to end with the usage.
pub open spec fn usage_wanted(options: Option<StreamOptions>) -> bool {
    options matches Some(options) && options.include_usage
}

/// The stop strings of a request.
pub open spec fn stops_of(stop: Option<OneOrMany<String>>) -> Seq<String> {
    match stop {
        Some(stop) => stop.items(),
        None => seq![],
    }
}

fn take_stops(stop: Option<OneOrMany<String>>) -> (r: Vec<String>)
    ensures
        r@ == stops_of(stop),
{
    match stop {
        Some(stop) => stop.into_vec(),
        None => {
            let none: Vec<String> = Vec::new();
            assert(none@ =~= seq![]);
            none
        },
    }
}

/// The value of an option, or another one.
pub open spec fn value_or<T>(value: Option<T>, other: T) -> T {
    match value {
        Some(value) => value,
        None => other,
    }
}

/// How many tokens a chat request allows.
pub open spec fn chat_limit(body: ChatCompletionRequest) -> usize {
    match body.max_completion_tokens {
        Some(limit) => limit,
        None => value_or(body.max_tokens, DEFAULT_MAX_NEW_TOKENS),
    }
}

/// How a chat request wants tokens drawn.
pub open spec fn chat_sampling(body: ChatCompletionRequest) -> SamplingConfig {
    SamplingConfig {
        temperature: value_or(body.temperature, RECOMMENDED_TEMPERATURE),
        top_k: value_or(body.top_k, RECOMMENDED_TOP_K),
        top_p: value_or(body.top_p, RECOMMENDED_TOP_P),
    }
}

/// What placeholders are missing from a prompt, or too many in it.
pub open spec fn placeholder_fault(
    ids: Seq<usize>,
    image: Option<ImagePatches>,
    audio: Option<AudioFrames>,
) -> Option<(u16, Complaint)> {
    if image is Some && occurrences(ids, IMAGE_TOKEN) != 1 {
        Some(
            bad_request(
                "expected one "@ + "image"@ + " placeholder, found "@ + decimal(
                    occurrences(ids, IMAGE_TOKEN),
                ),
            ),
        )
    } else if audio is Some && occurrences(ids, AUDIO_TOKEN) != 1 {
        Some(
            bad_request(
                "expected one "@ + "audio"@ + " placeholder, found "@ + decimal(
                    occurrences(ids, AUDIO_TOKEN),
                ),
            ),
        )
    } else {
        None
    }
}

pub open spec fn patches_in(image: Option<ImagePatches>) -> Option<nat> {
    match image {
        Some(image) => Some(image.pixels@.len()),
        None => None,
    }
}

pub open spec fn frames_in(audio: Option<AudioFrames>) -> Option<nat> {
    match audio {
        Some(audio) => Some(audio.count()),
        None => None,
    }
}

/// The call that a chat request leads to, once its messages are encoded as
/// `ids`, or why it is turned down.
pub open spec fn is_chat_call(
    body: ChatCompletionRequest,
    ids: Result<Vec<usize>, String>,
    image: Option<ImagePatches>,
    audio: Option<AudioFrames>,
    positions: nat,
    r: Result<Call, Refusal>,
) -> bool {
    match ids {
        Err(message) => r matches Err(refusal) && refusal@ == bad_request(
            "could not render chat template: "@ + message@,
        ),
        Ok(ids) => {
            let prompt = spliced_ids(ids@, patches_in(image), frames_in(audio));
            let budget = budget_fault(
                prompt.len(),
                chat_limit(body) as nat,
                positions,
                "max_tokens"@,
            );
            if placeholder_fault(ids@, image, audio) is Some {
                r matches Err(refusal) && Some(refusal@) == placeholder_fault(ids@, image, audio)
            } else if budget is Some {
                r matches Err(refusal) && Some(refusal@) == budget
            } else if stop_fault(stops_of(body.stop)) is Some {
                r matches Err(refusal) && Some(refusal@) == stop_fault(stops_of(body.stop))
            } else {
                &&& r matches Ok(call)
                &&& call.request.prompt_ids@ == prompt
                &&& call.request.soft_at@ == spliced_softs(
                    ids@,
                    patches_in(image),
                    frames_in(audio),
                )
                &&& call.request.image == image
                &&& call.request.audio == audio
                &&& call.request.max_new_tokens == chat_limit(body)
                &&& call.request.sampling == chat_sampling(body)
                &&& call.request.stop_strings@ == stops_of(body.stop)
                &&& call.request.separate_reasoning
                &&& call.stream == body.stream
                &&& call.include_usage == usage_wanted(body.stream_options)
            }
        },
    }
}

fn wants_usage(options: Option<StreamOptions>) -> (r: bool)
    ensures
        r == usage_wanted(options),
{
    match options {
        Some(options) => options.include_usage,
        None => false,
    }
}

/// The call that a chat request leads to, where `ids` is what encoding its
/// messages gave.
pub fn chat_call(
    body: ChatCompletionRequest,
    ids: Result<Vec<usize>, String>,
    image: Option<ImagePatches>,
    audio: Option<AudioFrames>,
    positions: usize,
) -> (r: Result<Call, Refusal>)
    requires
        positions < usize::MAX,
    ensures
        is_chat_call(body, ids, image, audio, positions as nat, r),
{
    let ids = match ids {
        Ok(ids) => ids,
        Err(fault) => {
            let mut message = "could not render chat template: ".to_owned();
            message.append(fault.as_str());
            return Err(error(400, "invalid_request_error", message));
        },
    };
    let (prompt_ids, soft_at) = match splice_multimodal_tokens(
        ids,
        image.as_ref(),
        audio.as_ref(),
    ) {
        Ok(spliced) => spliced,
        Err(message) => return Err(error(400, "invalid_request_error", message)),
    };
    let sampling = SamplingConfig {
        temperature: body.temperature.unwrap_or(RECOMMENDED_TEMPERATURE),
        top_k: body.top_k.unwrap_or(RECOMMENDED_TOP_K),
        top_p: body.top_p.unwrap_or(RECOMMENDED_TOP_P),
    };
    let max_new_tokens: usize = match body.max_completion_tokens {
        Some(limit) => limit,
        None => body.max_tokens.unwrap_or(DEFAULT_MAX_NEW_TOKENS),
    };
    if let Err(refusal) = validate_budget(
        prompt_ids.len(),
        max_new_tokens,
        positions,
        "max_tokens",
    ) {
        return Err(refusal);
    }
    let stop_strings = take_stops(body.stop);
    if let Err(refusal) = validate_stop(&stop_strings) {
        return Err(refusal);
    }
    Ok(
        Call {
            request: GenerationRequest {
                prompt_ids,
                soft_at,
                image,
                audio,
                max_new_tokens,
                sampling,
                stop_strings,
                separate_reasoning: true,
            },
            stream: body.stream,
            include_usage: wants_usage(body.stream_options),
        },
    )
}

/// `ids` may come of encoding the messages that `prepared` holds.
pub open spec fn may_encode_chat(
    tokenizer: Tokenizer,
    prepared: Prepared,
    thinking: bool,
    ids: Result<Vec<usize>, String>,
) -> bool {
    chat_encoding_of(*tokenizer.inner, message_trees(prepared.messages@), thinking, ids)
}

/// What a chat request that passes its checks may lead to.
pub open spec fn may_call_chat(
    tokenizer: Tokenizer,
    body: ChatCompletionRequest,
    thinking: bool,
    positions: nat,
    r: Result<Call, Refusal>,
) -> bool {
    ||| r matches Err(refusal) && may_prepare(body.messages@, Err(refusal))
    ||| exists|prepared: Prepared, ids: Result<Vec<usize>, String>|
        {
            &&& #[trigger] may_encode_chat(tokenizer, prepared, thinking, ids)
            &&& may_prepare(body.messages@, Ok(prepared))
            &&& is_chat_call(body, ids, prepared.image, prepared.audio, positions, r)
        }
}

/// Takes a chat request as far as the generation that it asks for.
pub fn chat_completions(
    body: ChatCompletionRequest,
    tokenizer: &Tokenizer,
    positions: usize,
) -> (r: Result<Call, Refusal>)
    requires
        positions < usize::MAX,
    ensures
        match chat_checks(body) {
            Err(refused) => r matches Err(refusal) && refusal@ == refused,
            Ok(thinking) => may_call_chat(*tokenizer, body, thinking, positions as nat, r),
        },
{
    let thinking = match check_chat(&body) {
        Ok(thinking) => thinking,
        Err(refusal) => return Err(refusal),
    };
    let prepared = match build_chat_messages(&body.messages) {
        Ok(prepared) => prepared,
        Err(refusal) => return Err(refusal),
    };
    let ids = tokenizer.encode_chat(&prepared.messages, thinking);
    assert(may_encode_chat(*tokenizer, prepared, thinking, ids));
    chat_call(body, ids, prepared.image, prepared.audio, positions)
}

/// What is wrong with a completion request before its prompt is encoded; else
/// its prompt.
pub open spec fn completion_checks(body: CompletionRequest) -> Result<Seq<char>, (u16, Complaint)> {
    if model_fault(body.model@) is Some {
        Err(model_fault(body.model@)->0)
    } else if n_fault(body.n) is Some {
        Err(n_fault(body.n)->0)
    } else if unsupported_fault(first_asked(body.unserved())) is Some {
        Err(unsupported_fault(first_asked(body.unserved()))->0)
    } else if body.prompt.items().len() != 1 {
        Err(bad_request("only a single prompt string is supported"@))
    } else {
        Ok(body.prompt.items()[0]@)
    }
}

/// What a completion request asks for besides its prompt.
pub struct CompletionTerms {
    pub stream: bool,
    pub max_tokens: Option<usize>,
    pub temperature: Option<u32>,
    pub top_p: Option<u32>,
    pub stop: Option<OneOrMany<String>>,
    pub stream_options: Option<StreamOptions>,
}

pub open spec fn terms_of(body: CompletionRequest) -> CompletionTerms {
    CompletionTerms {
        stream: body.stream,
        max_tokens: body.max_tokens,
        temperature: body.temperature,
        top_p: body.top_p,
        stop: body.stop,
        stream_options: body.stream_options,
    }
}

/// Checks a completion request before its prompt is encoded, and takes it apart.
pub fn check_completion(body: CompletionRequest) -> (r: Result<(String, CompletionTerms), Refusal>)
    ensures
        match r {
            Ok((prompt, terms)) => completion_checks(body) == Ok::<_, (u16, Complaint)>(prompt@)
                && terms == terms_of(body),
            Err(refusal) => completion_checks(body) == Err::<Seq<char>, _>(refusal@),
        },
{
    if let Err(refusal) = validate_model(body.model.as_str()) {
        return Err(refusal);
    }
    if let Err(refusal) = validate_n(body.n) {
        return Err(refusal);
    }
    if let Err(refusal) = validate_unsupported(body.unsupported()) {
        return Err(refusal);
    }
    let terms = CompletionTerms {
        stream: body.stream,
        max_tokens: body.max_tokens,
        temperature: body.temperature,
        top_p: body.top_p,
        stop: body.stop,
        stream_options: body.stream_options,
    };
    let mut prompts = body.prompt.into_vec();
    if prompts.len() != 1 {
        return Err(
            error(
                400,
                "invalid_request_error",
                "only a single prompt string is supported".to_owned(),
            ),
        );
    }
    let prompt = prompts.pop().unwrap();
    Ok((prompt, terms))
}

/// The call that a completion request leads to, once its prompt is encoded as
/// `ids`, or why it is turned down.
pub open spec fn is_completion_call(
    terms: CompletionTerms,
    ids: Result<Vec<usize>, String>,
    positions: nat,
    r: Result<Call, Refusal>,
) -> bool {
    match ids {
        Err(message) => r matches Err(refusal) && refusal@ == bad_request(
            "could not tokenize prompt: "@ + message@,
        ),
        Ok(ids) => {
            let limit = value_or(terms.max_tokens, DEFAULT_MAX_NEW_TOKENS);
            let budget = budget_fault(ids@.len(), limit as nat, positions, "max_tokens"@);
            if ids@.len() == 0 {
                r matches Err(refusal) && refusal@ == bad_request("prompt produced no tokens"@)
            } else if budget is Some {
                r matches Err(refusal) && Some(refusal@) == budget
            } else if stop_fault(stops_of(terms.stop)) is Some {
                r matches Err(refusal) && Some(refusal@) == stop_fault(stops_of(terms.stop))
            } else {
                &&& r matches Ok(call)
                &&& call.request.prompt_ids@ == ids@
                &&& call.request.soft_at@ == Seq::new(ids@.len(), |i: int| None::<SoftToken>)
                &&& call.request.image is None
                &&& call.request.audio is None
                &&& call.request.max_new_tokens == limit
                &&& call.request.sampling == (SamplingConfig {
                    temperature: value_or(terms.temperature, RECOMMENDED_TEMPERATURE),
                    top_k: RECOMMENDED_TOP_K,
                    top_p: value_or(terms.top_p, RECOMMENDED_TOP_P),
                })
                &&& call.request.stop_strings@ == stops_of(terms.stop)
                &&& !call.request.separate_reasoning
                &&& call.stream == terms.stream
                &&& call.include_usage == usage_wanted(terms.stream_options)
            }
        },
    }
}

fn no_softs(n: usize) -> (r: Vec<Option<SoftToken>>)
    ensures
        r@ == Seq::new(n as nat, |i: int| None::<SoftToken>),
{
    let mut softs: Vec<Option<SoftToken>> = Vec::new();
    while softs.len() < n
        invariant
            softs@.len() <= n,
            forall|i: int| 0 <= i < softs@.len() ==> softs@[i] is None,
        decreases n - softs@.len(),
    {
        softs.push(None);
    }
    assert(softs@ =~= Seq::new(n as nat, |i: int| None::<SoftToken>));
    softs
}

/// The call that a completion request leads to, where `ids` is what encoding its
/// prompt gave.
pub fn completion_call(
    terms: CompletionTerms,
    ids: Result<Vec<usize>, String>,
    positions: usize,
) -> (r: Result<Call, Refusal>)
    requires
        positions < usize::MAX,
    ensures
        is_completion_call(terms, ids, positions as nat, r),
{
    let prompt_ids = match ids {
        Ok(ids) => ids,
        Err(fault) => {
            let mut message = "could not tokenize prompt: ".to_owned();
            message.append(fault.as_str());
            return Err(error(400, "invalid_request_error", message));
        },
    };
    if prompt_ids.len() == 0 {
        return Err(error(400, "invalid_request_error", "prompt produced no tokens".to_owned()));
    }
    let sampling = SamplingConfig {
        temperature: terms.temperature.unwrap_or(RECOMMENDED_TEMPERATURE),
        top_k: RECOMMENDED_TOP_K,
        top_p: terms.top_p.unwrap_or(RECOMMENDED_TOP_P),
    };
    let max_new_tokens: usize = terms.max_tokens.unwrap_or(DEFAULT_MAX_NEW_TOKENS);
    if let Err(refusal) = validate_budget(
        prompt_ids.len(),
        max_new_tokens,
        positions,
        "max_tokens",
    ) {
        return Err(refusal);
    }
    let stop_strings = take_stops(terms.stop);
    if let Err(refusal) = validate_stop(&stop_strings) {
        return Err(refusal);
    }
    let soft_at = no_softs(prompt_ids.len());
    Ok(
        Call {
            request: GenerationRequest {
                prompt_ids,
                soft_at,
                image: None,
                audio: None,
                max_new_tokens,
                sampling,
                stop_strings,
                separate_reasoning: false,
            },
            stream: terms.stream,
            include_usage: wants_usage(terms.stream_options),
        },
    )
}

/// What a completion request that passes its checks may lead to.
pub open spec fn may_call_completion(
    tokenizer: Tokenizer,
    prompt: Seq<char>,
    terms: CompletionTerms,
    positions: nat,
    r: Result<Call, Refusal>,
) -> bool {
    exists|ids: Result<Vec<usize>, String>| #[trigger]
        encoding_of(*tokenizer.inner, "<bos>"@ + prompt, ids) && is_completion_call(terms, ids, positions, r)
}

/// Takes a completion request as far as the generation that it asks for.
pub fn completions(body: CompletionRequest, tokenizer: &Tokenizer, positions: usize) -> (r: Result<
    Call,
    Refusal,
>)
    requires
        positions < usize::MAX,
    ensures
        match completion_checks(body) {
            Err(refused) => r matches Err(refusal) && refusal@ == refused,
            Ok(prompt) => may_call_completion(
                *tokenizer,
                prompt,
                terms_of(body),
                positions as nat,
                r,
            ),
        },
{
    let (prompt, terms) = match check_completion(body) {
        Ok(parts) => parts,
        Err(refusal) => return Err(refusal),
    };
    let ids = tokenizer.encode_raw(prompt.as_str());
    assert(encoding_of(*tokenizer.inner, "<bos>"@ + prompt@, ids));
    completion_call(terms, ids, positions)
}

/// Every chat that a request leads to is one that the generation accepts: it
/// fits into the context and has a feed for each position.
pub proof fn chats_are_accepted(
    body: ChatCompletionRequest,
    ids: Vec<usize>,
    image: Option<ImagePatches>,
    audio: Option<AudioFrames>,
    positions: nat,
    call: Call,
)
    requires
        ids@.len() > 0,
        is_chat_call(body, Ok(ids), image, audio, positions, Ok(call)),
        image matches Some(image) ==> image.pixels@.len() <= usize::MAX,
        audio matches Some(audio) ==> audio.count() <= usize::MAX,
    ensures
        request_fault(&call.request, positions) is None,
{
    splice_is_parallel(ids@, patches_in(image), frames_in(audio));
    spliced_length(ids@, patches_in(image), frames_in(audio));
    assert(forall|a: nat, b: nat| #[trigger] (a * b) >= 0) by (nonlinear_arith);
}

/// Every completion that a request leads to is one that the generation accepts.
pub proof fn completions_are_accepted(
    terms: CompletionTerms,
    ids: Vec<usize>,
    positions: nat,
    call: Call,
)
    requires
        is_completion_call(terms, Ok(ids), positions, Ok(call)),
    ensures
        request_fault(&call.request, positions) is None,
{
}

/// A stop string that is too long is found wherever it stands.
pub proof fn too_long_is_found(stop: Seq<String>)
    ensures
        too_long(stop) is Some <==> exists|i: int|
            0 <= i < stop.len() && encode_utf8((#[trigger] stop[i])@).len() > 256,
        too_long(stop) matches Some(length) ==> length > 256,
    decreases stop.len(),
{
    if stop.len() > 0 {
        let rest = stop.drop_first();
        too_long_is_found(rest);
        if encode_utf8(stop[0]@).len() <= 256 {
            if exists|i: int| 0 <= i < stop.len() && encode_utf8((#[trigger] stop[i])@).len()
                > 256 {
                let i = choose|i: int|
                    0 <= i < stop.len() && encode_utf8((#[trigger] stop[i])@).len() > 256;
                assert(rest[i - 1] == stop[i]);
            }
            if exists|i: int| 0 <= i < rest.len() && encode_utf8((#[trigger] rest[i])@).len()
                > 256 {
                let i = choose|i: int|
                    0 <= i < rest.len() && encode_utf8((#[trigger] rest[i])@).len() > 256;
                assert(stop[i + 1] == rest[i]);
            }
        }
    }
}

/// A chat request passes its checks where the model is the one served, one
/// completion is asked for, no more candidates than there are tokens and nothing
/// that is not served, no audio in the reply, and there is a message; whether the
/// model thinks is then as asked. Any other request is turned down.
pub proof fn chats_that_pass(body: ChatCompletionRequest)
    ensures
        ({
            let passes = {
                &&& body.model@ == "gemma-4-12b-it"@
                &&& body.n matches Some(n) ==> n == 1
                &&& body.top_k matches Some(k) ==> k <= 262144
                &&& first_asked(body.unserved()) is None
                &&& body.audio is None
                &&& body.modalities matches Some(names) ==> forall|i: int|
                    0 <= i < names@.len() ==> (#[trigger] names@[i])@ != "audio"@
                &&& body.messages@.len() > 0
            };
            &&& passes ==> chat_checks(body) == thinking_of(body)
            &&& !passes ==> chat_checks(body) is Err
            &&& body.model@ != "gemma-4-12b-it"@ ==> chat_checks(body)->Err_0.0 == 404
        }),
{
    if body.modalities is Some && names_audio(body.modalities->0@) {
        let names = body.modalities->0@;
        let i = choose|i: int| 0 <= i < names.len() && (#[trigger] names[i])@ == "audio"@;
        assert(names[i]@ == "audio"@);
    }
}

/// The template's own switch decides whether the model thinks, where it is given;
/// else any effort but none and minimal does.
pub proof fn thinking_is_as_asked(body: ChatCompletionRequest, fields: Vec<(String, Json)>)
    requires
        body.chat_template_kwargs is None || body.chat_template_kwargs == Some(
            Json::Object(fields),
        ),
    ensures
        ({
            let switch = if body.chat_template_kwargs is None {
                None
            } else {
                field_of(fields@, "enable_thinking"@)
            };
            &&& switch matches Some(Json::Bool(on)) ==> thinking_of(body) == Ok::<
                _,
                (u16, Complaint),
            >(on)
            &&& switch is Some && !(switch->0 is Bool) ==> thinking_of(body) is Err
            &&& switch is None && body.reasoning_effort is None ==> thinking_of(body) == Ok::<
                _,
                (u16, Complaint),
            >(false)
            &&& switch is None ==> (body.reasoning_effort matches Some(effort) ==> thinking_of(body)
                == Ok::<_, (u16, Complaint)>(!(effort@ == "none"@ || effort@ == "minimal"@)))
        }),
{
}

/// A chat request becomes a call with just what it asked for, or with what is
/// recommended where it did not ask: the tokens of its messages with room for the
/// media, the limit on the reply, how tokens are drawn, the stop strings, and how
/// the reply is sent. It is turned down only where the messages cannot be
/// encoded, a placeholder is missing or there are several, it does not fit, or a
/// stop string is too long or there are too many.
pub proof fn chat_calls_carry_the_request(
    body: ChatCompletionRequest,
    ids: Result<Vec<usize>, String>,
    image: Option<ImagePatches>,
    audio: Option<AudioFrames>,
    positions: nat,
    r: Result<Call, Refusal>,
)
    requires
        is_chat_call(body, ids, image, audio, positions, r),
    ensures
        r matches Ok(call) ==> {
            let request = call.request;
            &&& ids is Ok
            &&& request.prompt_ids@ == spliced_ids(
                ids->Ok_0@,
                patches_in(image),
                frames_in(audio),
            )
            &&& request.soft_at@ == spliced_softs(
                ids->Ok_0@,
                patches_in(image),
                frames_in(audio),
            )
            &&& request.image == image && request.audio == audio
            &&& body.max_completion_tokens matches Some(n) ==> request.max_new_tokens == n
            &&& body.max_completion_tokens is None ==> (body.max_tokens matches Some(n)
                ==> request.max_new_tokens == n)
            &&& body.max_completion_tokens is None && body.max_tokens is None
                ==> request.max_new_tokens == 300
            &&& body.temperature matches Some(t) ==> request.sampling.temperature == t
            &&& body.temperature is None ==> request.sampling.temperature == 0x3f80_0000
            &&& body.top_k matches Some(k) ==> request.sampling.top_k == k
            &&& body.top_k is None ==> request.sampling.top_k == 64
            &&& body.top_p matches Some(p) ==> request.sampling.top_p == p
            &&& body.top_p is None ==> request.sampling.top_p == 0x3f73_3333
            &&& body.stop is None ==> request.stop_strings@.len() == 0
            &&& body.stop matches Some(OneOrMany::One(s)) ==> request.stop_strings@ == seq![s]
            &&& body.stop matches Some(OneOrMany::Many(s)) ==> request.stop_strings@ == s@
            &&& request.separate_reasoning
            &&& call.stream == body.stream
            &&& call.include_usage <==> body.stream_options is Some
                && body.stream_options->0.include_usage
            &&& request.prompt_ids@.len() + request.max_new_tokens <= positions
        },
        r is Ok <==> {
            &&& ids is Ok
            &&& image is Some ==> occurrences(ids->Ok_0@, 258880) == 1
            &&& audio is Some ==> occurrences(ids->Ok_0@, 258881) == 1
            &&& spliced_ids(ids->Ok_0@, patches_in(image), frames_in(audio)).len() + (
            match body.max_completion_tokens {
                Some(n) => n,
                None => match body.max_tokens {
                    Some(n) => n,
                    None => 300,
                },
            }) <= positions
            &&& stops_of(body.stop).len() <= 8
            &&& forall|i: int|
                0 <= i < stops_of(body.stop).len() ==> encode_utf8(
                    (#[trigger] stops_of(body.stop)[i])@,
                ).len() <= 256
        },
{
    too_long_is_found(stops_of(body.stop));
}

/// A completion request passes its checks where the model is the one served, one
/// completion is asked for and nothing that is not served, and there is one
/// prompt: that is the prompt. Any other request is turned down.
pub proof fn completions_that_pass(body: CompletionRequest)
    ensures
        ({
            let passes = {
                &&& body.model@ == "gemma-4-12b-it"@
                &&& body.n matches Some(n) ==> n == 1
                &&& first_asked(body.unserved()) is None
                &&& body.prompt matches OneOrMany::Many(prompts) ==> prompts@.len() == 1
            };
            &&& passes ==> only_prompt(body.prompt) is Some && completion_checks(body) == Ok::<
                _,
                (u16, Complaint),
            >(only_prompt(body.prompt)->0)
            &&& !passes ==> completion_checks(body) is Err
        }),
{
}

/// The prompt of a completion request that has just one.
pub open spec fn only_prompt(prompt: OneOrMany<String>) -> Option<Seq<char>> {
    match prompt {
        OneOrMany::One(text) => Some(text@),
        OneOrMany::Many(texts) => if texts@.len() == 1 {
            Some(texts@[0]@)
        } else {
            None
        },
    }
}

/// A completion request becomes a call with just what it asked for, or with what
/// is recommended where it did not ask. It is turned down only where the prompt
/// cannot be encoded or gives no token, it does not fit, or a stop string is too
/// long or there are too many.
pub proof fn completion_calls_carry_the_request(
    body: CompletionRequest,
    ids: Result<Vec<usize>, String>,
    positions: nat,
    r: Result<Call, Refusal>,
)
    requires
        is_completion_call(terms_of(body), ids, positions, r),
    ensures
        r matches Ok(call) ==> {
            let request = call.request;
            &&& ids is Ok
            &&& request.prompt_ids@ == ids->Ok_0@
            &&& request.soft_at@.len() == ids->Ok_0@.len()
            &&& forall|i: int|
                0 <= i < request.soft_at@.len() ==> #[trigger] request.soft_at@[i] is None
            &&& request.image is None && request.audio is None
            &&& body.max_tokens matches Some(n) ==> request.max_new_tokens == n
            &&& body.max_tokens is None ==> request.max_new_tokens == 300
            &&& body.temperature matches Some(t) ==> request.sampling.temperature == t
            &&& body.temperature is None ==> request.sampling.temperature == 0x3f80_0000
            &&& request.sampling.top_k == 64
            &&& body.top_p matches Some(p) ==> request.sampling.top_p == p
            &&& body.top_p is None ==> request.sampling.top_p == 0x3f73_3333
            &&& body.stop is None ==> request.stop_strings@.len() == 0
            &&& body.stop matches Some(OneOrMany::One(s)) ==> request.stop_strings@ == seq![s]
            &&& body.stop matches Some(OneOrMany::Many(s)) ==> request.stop_strings@ == s@
            &&& !request.separate_reasoning
            &&& call.stream == body.stream
            &&& call.include_usage <==> body.stream_options is Some
                && body.stream_options->0.include_usage
            &&& request.prompt_ids@.len() + request.max_new_tokens <= positions
        },
        r is Ok <==> {
            &&& ids is Ok
            &&& ids->Ok_0@.len() > 0
            &&& ids->Ok_0@.len() + (match body.max_tokens {
                Some(n) => n,
                None => 300,
            }) <= positions
            &&& stops_of(body.stop).len() <= 8
            &&& forall|i: int|
                0 <= i < stops_of(body.stop).len() ==> encode_utf8(
                    (#[trigger] stops_of(body.stop)[i])@,
                ).len() <= 256
        },
{
    too_long_is_found(stops_of(body.stop));
}

/// What the template is told must be an object.
pub proof fn template_arguments_are_objects(body: ChatCompletionRequest, value: Json)
    requires
        body.chat_template_kwargs == Some(value),
        !(value is Object),
    ensures
        thinking_of(body) is Err,
        thinking_of(body)->Err_0.0 == 400,
{
}

/// A chat that leads to a call was made ready from its messages and encoded with
/// this tokenizer, with the model thinking as the request asked.
pub proof fn chats_are_encoded_as_asked(
    tokenizer: Tokenizer,
    body: ChatCompletionRequest,
    thinking: bool,
    positions: nat,
    call: Call,
)
    requires
        may_call_chat(tokenizer, body, thinking, positions, Ok(call)),
    ensures
        exists|prepared: Prepared, ids: Result<Vec<usize>, String>|
            {
                &&& #[trigger] chat_encoding_of(
                    *tokenizer.inner,
                    message_trees(prepared.messages@),
                    thinking,
                    ids,
                )
                &&& may_prepare(body.messages@, Ok(prepared))
                &&& is_chat_call(body, ids, prepared.image, prepared.audio, positions, Ok(call))
            },
{
    let (prepared, ids) = choose|prepared: Prepared, ids: Result<Vec<usize>, String>|
        {
            &&& #[trigger] may_encode_chat(tokenizer, prepared, thinking, ids)
            &&& may_prepare(body.messages@, Ok(prepared))
            &&& is_chat_call(body, ids, prepared.image, prepared.audio, positions, Ok(call))
        };
    assert(chat_encoding_of(
        *tokenizer.inner,
        message_trees(prepared.messages@),
        thinking,
        ids,
    ));
}

/// A prompt that leads to a call was encoded with this tokenizer, behind the mark
/// that begins a text.
pub proof fn prompts_are_encoded_behind_the_mark(
    tokenizer: Tokenizer,
    prompt: Seq<char>,
    terms: CompletionTerms,
    positions: nat,
    r: Result<Call, Refusal>,
)
    requires
        may_call_completion(tokenizer, prompt, terms, positions, r),
    ensures
        exists|ids: Result<Vec<usize>, String>| #[trigger]
            encoding_of(*tokenizer.inner, "<bos>"@ + prompt, ids) && is_completion_call(
                terms,
                ids,
                positions,
                r,
            ),
{
}

} // verus!
