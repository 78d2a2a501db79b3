//! Text generation: what is fed to the model, and what its tokens become.

use crate::audio::AudioFrames;
use crate::image::ImagePatches;
use crate::sampling::SamplingConfig;
use crate::stops::{
    cut_text_holds_no_stop, find_stop, first_stop, first_stop_from_is_first, in_force, none_empty,
    overlap, overlap_grows_slowly, overlap_is_longest, partial_match, pending_stop_overlap, stop_at,
    stop_begins_in_overlap, texts,
};
use crate::text::{
    decimal, find_char, first_index, first_index_at, first_index_finds, first_index_is_first,
    from_chars, matches_at, occurs_at, push_decimal, text_of, to_chars,
};
use vstd::string::*;
use crate::tokenizer::{fed_tokens, may_decode_to, step_stream, stepped, told, window};
use llm_tokenizer::DecodeStream;
use vstd::prelude::*;

verus! {

pub const EOS_TOKEN: usize = 1;

pub const END_OF_TURN_TOKEN: usize = 106;

pub const TOOL_RESPONSE_TOKEN: usize = 50;

pub const CHANNEL_OPEN_TOKEN: usize = 100;

pub const CHANNEL_CLOSE_TOKEN: usize = 101;

pub const DEFAULT_MAX_NEW_TOKENS: usize = 300;

pub const BOI_TOKEN: usize = 255999;

pub const IMAGE_TOKEN: usize = 258880;

pub const EOI_TOKEN: usize = 258882;

pub const BOA_TOKEN: usize = 256000;

pub const AUDIO_TOKEN: usize = 258881;

pub const EOA_TOKEN: usize = 258883;

/// A prompt position that is fed from a patch or a frame instead of a token.
#[derive(Clone, Copy, Debug, PartialEq, Eq, Structural)]
pub enum SoftToken {
    Image(usize),
    Audio(usize),
}

/// How often `id` occurs in `ids`.
pub open spec fn occurrences(ids: Seq<usize>, id: usize) -> nat
    decreases ids.len(),
{
    if ids.len() == 0 {
        0
    } else {
        occurrences(ids.drop_last(), id) + if ids.last() == id {
            1nat
        } else {
            0nat
        }
    }
}

/// The tokens that stand for `n` soft tokens: `n` placeholders in brackets.
pub open spec fn bracketed(open: usize, placeholder: usize, close: usize, n: nat) -> Seq<usize> {
    seq![open] + Seq::new(n, |i: int| placeholder) + seq![close]
}

/// The tokens that stand in place of `id`, for an image of `image` patches and
/// a clip of `audio` frames.
pub open spec fn spliced_id(id: usize, image: Option<nat>, audio: Option<nat>) -> Seq<usize> {
    if id == IMAGE_TOKEN && image is Some {
        bracketed(BOI_TOKEN, IMAGE_TOKEN, EOI_TOKEN, image->0)
    } else if id == AUDIO_TOKEN && audio is Some {
        bracketed(BOA_TOKEN, AUDIO_TOKEN, EOA_TOKEN, audio->0)
    } else {
        seq![id]
    }
}

/// What feeds each of the tokens of `spliced_id`.
pub open spec fn spliced_soft(id: usize, image: Option<nat>, audio: Option<nat>) -> Seq<
    Option<SoftToken>,
> {
    if id == IMAGE_TOKEN && image is Some {
        seq![None] + Seq::new(image->0, |i: int| Some(SoftToken::Image(i as usize))) + seq![None]
    } else if id == AUDIO_TOKEN && audio is Some {
        seq![None] + Seq::new(audio->0, |i: int| Some(SoftToken::Audio(i as usize))) + seq![None]
    } else {
        seq![None]
    }
}

/// `ids` with each placeholder replaced.
pub open spec fn spliced_ids(ids: Seq<usize>, image: Option<nat>, audio: Option<nat>) -> Seq<usize>
    decreases ids.len(),
{
    if ids.len() == 0 {
        seq![]
    } else {
        spliced_ids(ids.drop_last(), image, audio) + spliced_id(ids.last(), image, audio)
    }
}

/// What feeds each of the tokens of `spliced_ids`.
pub open spec fn spliced_softs(ids: Seq<usize>, image: Option<nat>, audio: Option<nat>) -> Seq<
    Option<SoftToken>,
>
    decreases ids.len(),
{
    if ids.len() == 0 {
        seq![]
    } else {
        spliced_softs(ids.drop_last(), image, audio) + spliced_soft(ids.last(), image, audio)
    }
}

pub open spec fn patch_count(image: Option<&ImagePatches>) -> Option<nat> {
    match image {
        Some(patches) => Some(patches.pixels@.len()),
        None => None,
    }
}

pub open spec fn frame_count(audio: Option<&AudioFrames>) -> Option<nat> {
    match audio {
        Some(clip) => Some(clip.count()),
        None => None,
    }
}

fn count_token(ids: &Vec<usize>, id: usize) -> (r: usize)
    ensures
        r == occurrences(ids@, id),
{
    let mut n: usize = 0;
    let mut i: usize = 0;
    while i < ids.len()
        invariant
            i <= ids@.len(),
            n <= i,
            n == occurrences(ids@.take(i as int), id),
        decreases ids@.len() - i,
    {
        assert(ids@.take(i + 1).drop_last() == ids@.take(i as int));
        if ids[i] == id {
            n += 1;
        }
        i += 1;
    }
    assert(ids@.take(i as int) == ids@);
    n
}

fn placeholder_error(what: &str, found: usize) -> (r: String)
    ensures
        r@ == "expected one "@ + what@ + " placeholder, found "@ + decimal(found as nat),
{
    let mut message = "expected one ".to_owned();
    message.append(what);
    message.append(" placeholder, found ");
    push_decimal(&mut message, found as u64);
    message
}

/// The feed that stands for patch or frame `i`.
spec fn soft_of(image: bool, i: int) -> Option<SoftToken> {
    if image {
        Some(SoftToken::Image(i as usize))
    } else {
        Some(SoftToken::Audio(i as usize))
    }
}

fn push_bracketed(
    ids: &mut Vec<usize>,
    softs: &mut Vec<Option<SoftToken>>,
    image: bool,
    n: usize,
)
    ensures
        final(ids)@ == old(ids)@ + if image {
            spliced_id(IMAGE_TOKEN, Some(n as nat), None)
        } else {
            spliced_id(AUDIO_TOKEN, None, Some(n as nat))
        },
        final(softs)@ == old(softs)@ + if image {
            spliced_soft(IMAGE_TOKEN, Some(n as nat), None)
        } else {
            spliced_soft(AUDIO_TOKEN, None, Some(n as nat))
        },
{
    let (open, placeholder, close): (usize, usize, usize) = if image {
        (BOI_TOKEN, IMAGE_TOKEN, EOI_TOKEN)
    } else {
        (BOA_TOKEN, AUDIO_TOKEN, EOA_TOKEN)
    };
    ids.push(open);
    softs.push(None);
    let ghost ids0 = ids@;
    let ghost softs0 = softs@;
    for index in 0..n
        invariant
            ids@ == ids0 + Seq::new(index as nat, |i: int| placeholder),
            softs@ == softs0 + Seq::new(index as nat, |i: int| soft_of(image, i)),
    {
        ids.push(placeholder);
        softs.push(
            Some(
                if image {
                    SoftToken::Image(index)
                } else {
                    SoftToken::Audio(index)
                },
            ),
        );
        assert(ids@ =~= ids0 + Seq::new((index + 1) as nat, |i: int| placeholder));
        assert(softs@ =~= softs0 + Seq::new((index + 1) as nat, |i: int| soft_of(image, i)));
    }
    ids.push(close);
    softs.push(None);
    assert(ids@ =~= old(ids)@ + bracketed(open, placeholder, close, n as nat));
    proof {
        if image {
            assert(softs@ =~= old(softs)@ + spliced_soft(IMAGE_TOKEN, Some(n as nat), None));
        } else {
            assert(softs@ =~= old(softs)@ + spliced_soft(AUDIO_TOKEN, None, Some(n as nat)));
        }
    }
}

/// Makes room for an image and an audio clip in a tokenised prompt: the
/// placeholder of each becomes one placeholder per patch or frame, in brackets.
/// Of a kind that is given, the prompt must hold exactly one placeholder.
pub fn splice_multimodal_tokens(
    ids: Vec<usize>,
    image: Option<&ImagePatches>,
    audio: Option<&AudioFrames>,
) -> (r: Result<(Vec<usize>, Vec<Option<SoftToken>>), String>)
    ensures
        match r {
            Ok((out_ids, soft_at)) => {
                &&& image is Some ==> occurrences(ids@, IMAGE_TOKEN) == 1
                &&& audio is Some ==> occurrences(ids@, AUDIO_TOKEN) == 1
                &&& out_ids@ == spliced_ids(ids@, patch_count(image), frame_count(audio))
                &&& soft_at@ == spliced_softs(ids@, patch_count(image), frame_count(audio))
                &&& soft_at@.len() == out_ids@.len()
                &&& out_ids@.len() == ids@.len() + (match image {
                    Some(image) => image.pixels@.len() + 1,
                    None => 0,
                }) + (match audio {
                    Some(audio) => audio.count() + 1,
                    None => 0,
                })
            },
            Err(message) => {
                if image is Some && occurrences(ids@, IMAGE_TOKEN) != 1 {
                    message@ == "expected one "@ + "image"@ + " placeholder, found "@ + decimal(
                        occurrences(ids@, IMAGE_TOKEN),
                    )
                } else {
                    &&& audio is Some
                    &&& occurrences(ids@, AUDIO_TOKEN) != 1
                    &&& message@ == "expected one "@ + "audio"@ + " placeholder, found "@ + decimal(
                        occurrences(ids@, AUDIO_TOKEN),
                    )
                }
            },
        },
{
    let image_markers: usize = count_token(&ids, IMAGE_TOKEN);
    let audio_markers: usize = count_token(&ids, AUDIO_TOKEN);
    if image.is_some() && image_markers != 1 {
        return Err(placeholder_error("image", image_markers));
    }
    if audio.is_some() && audio_markers != 1 {
        return Err(placeholder_error("audio", audio_markers));
    }
    let image_len: Option<usize> = match image {
        Some(patches) => Some(patches.pixels.len()),
        None => None,
    };
    let audio_len: Option<usize> = match audio {
        Some(clip) => Some(clip.len()),
        None => None,
    };
    let ghost patches = patch_count(image);
    let ghost frames = frame_count(audio);
    let mut out_ids: Vec<usize> = Vec::new();
    let mut soft_at: Vec<Option<SoftToken>> = Vec::new();
    let mut i: usize = 0;
    while i < ids.len()
        invariant
            i <= ids@.len(),
            image_len is Some == patches is Some,
            image_len matches Some(n) ==> patches == Some(n as nat),
            audio_len is Some == frames is Some,
            audio_len matches Some(n) ==> frames == Some(n as nat),
            out_ids@ == spliced_ids(ids@.take(i as int), patches, frames),
            soft_at@ == spliced_softs(ids@.take(i as int), patches, frames),
        decreases ids@.len() - i,
    {
        assert(ids@.take(i + 1).drop_last() == ids@.take(i as int));
        let id: usize = ids[i];
        if id == IMAGE_TOKEN && image_len.is_some() {
            push_bracketed(&mut out_ids, &mut soft_at, true, image_len.unwrap());
        } else if id == AUDIO_TOKEN && audio_len.is_some() {
            push_bracketed(&mut out_ids, &mut soft_at, false, audio_len.unwrap());
        } else {
            out_ids.push(id);
            soft_at.push(None);
        }
        assert(out_ids@ =~= spliced_ids(ids@.take(i + 1), patches, frames));
        assert(soft_at@ =~= spliced_softs(ids@.take(i + 1), patches, frames));
        i += 1;
    }
    assert(ids@.take(i as int) == ids@);
    proof {
        splice_is_parallel(ids@, patches, frames);
        spliced_length(ids@, patches, frames);
    }
    Ok((out_ids, soft_at))
}

/// A prompt without placeholders for what is not given comes out unchanged, fed
/// from its tokens alone.
pub proof fn splice_without_media(ids: Seq<usize>)
    ensures
        spliced_ids(ids, None, None) == ids,
        spliced_softs(ids, None, None) == Seq::new(ids.len(), |i: int| None::<SoftToken>),
    decreases ids.len(),
{
    if ids.len() > 0 {
        splice_without_media(ids.drop_last());
        assert(ids == ids.drop_last() + seq![ids.last()]);
    }
}

/// Each position of a spliced prompt has its feed, each soft position carries
/// the placeholder of its kind, and its index is that of a patch or a frame
/// that exists.
pub proof fn splice_is_parallel(ids: Seq<usize>, image: Option<nat>, audio: Option<nat>)
    requires
        image matches Some(n) ==> n <= usize::MAX,
        audio matches Some(n) ==> n <= usize::MAX,
    ensures
        spliced_ids(ids, image, audio).len() == spliced_softs(ids, image, audio).len(),
        forall|i: int|
            0 <= i < spliced_ids(ids, image, audio).len() ==> match #[trigger] spliced_softs(
                ids,
                image,
                audio,
            )[i] {
                Some(SoftToken::Image(index)) => image is Some && index < image->0 && spliced_ids(
                    ids,
                    image,
                    audio,
                )[i] == IMAGE_TOKEN,
                Some(SoftToken::Audio(index)) => audio is Some && index < audio->0 && spliced_ids(
                    ids,
                    image,
                    audio,
                )[i] == AUDIO_TOKEN,
                None => true,
            },
    decreases ids.len(),
{
    if ids.len() > 0 {
        splice_is_parallel(ids.drop_last(), image, audio);
        let head = spliced_softs(ids.drop_last(), image, audio);
        let tail = spliced_soft(ids.last(), image, audio);
        let head_ids = spliced_ids(ids.drop_last(), image, audio);
        let tail_ids = spliced_id(ids.last(), image, audio);
        assert forall|i: int| 0 <= i < (head + tail).len() implies match #[trigger] (head
            + tail)[i] {
            Some(SoftToken::Image(index)) => image is Some && index < image->0 && (head_ids
                + tail_ids)[i] == IMAGE_TOKEN,
            Some(SoftToken::Audio(index)) => audio is Some && index < audio->0 && (head_ids
                + tail_ids)[i] == AUDIO_TOKEN,
            None => true,
        } by {
            if i < head.len() {
                assert((head + tail)[i] == head[i]);
            } else {
                assert((head + tail)[i] == tail[i - head.len()]);
            }
        }
    }
}

/// A prompt grows by one token more than there are patches, and by one token
/// more than there are frames, for each placeholder that it held.
pub proof fn spliced_length(ids: Seq<usize>, image: Option<nat>, audio: Option<nat>)
    ensures
        spliced_ids(ids, image, audio).len() == ids.len() + (match image {
            Some(n) => occurrences(ids, IMAGE_TOKEN) * (n + 1),
            None => 0,
        }) + (match audio {
            Some(n) => occurrences(ids, AUDIO_TOKEN) * (n + 1),
            None => 0,
        }),
    decreases ids.len(),
{
    if ids.len() > 0 {
        spliced_length(ids.drop_last(), image, audio);
        let images = occurrences(ids.drop_last(), IMAGE_TOKEN);
        let clips = occurrences(ids.drop_last(), AUDIO_TOKEN);
        if image is Some {
            let n = image->0;
            assert((images + 1) * (n + 1) == images * (n + 1) + n + 1) by (nonlinear_arith);
        }
        if audio is Some {
            let n = audio->0;
            assert((clips + 1) * (n + 1) == clips * (n + 1) + n + 1) by (nonlinear_arith);
        }
    } else {
        assert(occurrences(ids, IMAGE_TOKEN) == 0 && occurrences(ids, AUDIO_TOKEN) == 0);
    }
}

/// The part of a reply that a token belongs to: the answer, the name of a
/// channel, or the reasoning in it.
#[derive(Clone, Copy, Debug, PartialEq, Eq, Structural)]
pub enum Channel {
    Answer,
    Name,
    Reasoning,
}

/// A piece of the reply, as it is handed to the listener.
#[derive(Debug)]
pub enum Delta {
    Content(String),
    Reasoning(String),
}

/// What a `Delta` holds.
pub enum Fragment {
    Content(Seq<char>),
    Reasoning(Seq<char>),
}

impl View for Delta {
    type V = Fragment;

    open spec fn view(&self) -> Fragment {
        match self {
            Delta::Content(text) => Fragment::Content(text@),
            Delta::Reasoning(text) => Fragment::Reasoning(text@),
        }
    }
}

/// What an optional `Delta` holds.
pub open spec fn fragment(delta: Option<Delta>) -> Option<Fragment> {
    match delta {
        Some(delta) => Some(delta@),
        None => None,
    }
}

#[derive(Clone, Copy, Debug, PartialEq, Eq, Structural)]
pub enum FinishReason {
    Stop,
    Length,
}

pub struct GenerationRequest {
    pub prompt_ids: Vec<usize>,
    pub soft_at: Vec<Option<SoftToken>>,
    pub image: Option<ImagePatches>,
    pub audio: Option<AudioFrames>,
    pub max_new_tokens: usize,
    pub sampling: SamplingConfig,
    pub stop_strings: Vec<String>,
    pub separate_reasoning: bool,
}

#[derive(Debug)]
pub struct GenerationOutput {
    pub text: String,
    pub reasoning: String,
    pub prompt_tokens: usize,
    pub completion_tokens: usize,
    pub finish_reason: FinishReason,
}

/// What one prompt position is fed from.
#[derive(Clone, Copy, Debug, PartialEq, Eq, Structural)]
pub enum Feed {
    Token(usize),
    Image(usize),
    Audio(usize),
}

/// Why a request cannot be run with `positions` positions, if it cannot.
pub open spec fn request_fault(req: &GenerationRequest, positions: nat) -> Option<Seq<char>> {
    if req.prompt_ids@.len() == 0 {
        Some("prompt produced no tokens"@)
    } else if req.prompt_ids@.len() + req.max_new_tokens > positions {
        Some("prompt plus generation exceeds "@ + decimal(positions) + " positions"@)
    } else if req.prompt_ids@.len() != req.soft_at@.len() {
        Some(
            "prompt_ids ("@ + decimal(req.prompt_ids@.len()) + ") and soft_at ("@ + decimal(
                req.soft_at@.len(),
            ) + ") must be parallel"@,
        )
    } else {
        None
    }
}

impl GenerationRequest {
    /// Whether the request can be run with `positions` positions.
    pub fn check(&self, positions: usize) -> (r: Result<(), String>)
        requires
            positions < usize::MAX,
        ensures
            match r {
                Ok(()) => request_fault(self, positions as nat) is None,
                Err(message) => request_fault(self, positions as nat) == Some(message@),
            },
            r is Ok <==> {
                &&& 0 < self.prompt_ids@.len() == self.soft_at@.len()
                &&& self.prompt_ids@.len() + self.max_new_tokens <= positions
            },
    {
        if self.prompt_ids.len() == 0 {
            return Err("prompt produced no tokens".to_owned());
        }
        if self.prompt_ids.len().saturating_add(self.max_new_tokens) > positions {
            let mut message = "prompt plus generation exceeds ".to_owned();
            push_decimal(&mut message, positions as u64);
            message.append(" positions");
            return Err(message);
        }
        if self.prompt_ids.len() != self.soft_at.len() {
            let mut message = "prompt_ids (".to_owned();
            push_decimal(&mut message, self.prompt_ids.len() as u64);
            message.append(") and soft_at (");
            push_decimal(&mut message, self.soft_at.len() as u64);
            message.append(") must be parallel");
            return Err(message);
        }
        Ok(())
    }

    /// What position `pos` of the prompt is fed from, and whether the model's
    /// verdict on the next token is wanted after it: only after the last one.
    pub fn prefill(&self, pos: usize) -> (r: (Feed, bool))
        requires
            pos < self.prompt_ids@.len(),
            self.prompt_ids@.len() == self.soft_at@.len(),
        ensures
            r.0 == (match self.soft_at@[pos as int] {
                Some(SoftToken::Image(index)) => Feed::Image(index),
                Some(SoftToken::Audio(index)) => Feed::Audio(index),
                None => Feed::Token(self.prompt_ids@[pos as int]),
            }),
            r.1 == (pos == self.prompt_ids@.len() - 1),
    {
        let feed = match self.soft_at[pos] {
            Some(SoftToken::Image(index)) => Feed::Image(index),
            Some(SoftToken::Audio(index)) => Feed::Audio(index),
            None => Feed::Token(self.prompt_ids[pos]),
        };
        (feed, pos == self.prompt_ids.len() - 1)
    }
}

/// The tokens that end a reply.
pub open spec fn ends_reply(token: usize) -> bool {
    token == EOS_TOKEN || token == END_OF_TURN_TOKEN || token == TOOL_RESPONSE_TOKEN
}

fn is_end(token: usize) -> (r: bool)
    ensures
        r == ends_reply(token),
{
    token == EOS_TOKEN || token == END_OF_TURN_TOKEN || token == TOOL_RESPONSE_TOKEN
}

/// The tokens that are never drawn.
pub fn suppressed_tokens() -> (r: Vec<usize>)
    ensures
        r@ == seq![EOI_TOKEN, EOA_TOKEN],
        r@.contains(258882) && r@.contains(258883),
{
    assert(seq![EOI_TOKEN, EOA_TOKEN][0] == 258882 && seq![EOI_TOKEN, EOA_TOKEN][1] == 258883);
    vec![EOI_TOKEN, EOA_TOKEN]
}

/// How far a reply has got.
pub struct Progress {
    /// The stop strings, none of them empty.
    pub stops: Seq<Seq<char>>,
    pub separate_reasoning: bool,
    pub prompt_tokens: nat,
    pub max_new_tokens: nat,
    /// The token that was drawn last.
    pub token: usize,
    /// How many tokens have been taken into the reply and run.
    pub generated: nat,
    pub channel: Channel,
    pub text: Seq<char>,
    pub reasoning: Seq<char>,
    /// How much of `text` the listener has got.
    pub emitted: nat,
    /// A stop string has come up.
    pub stopped: bool,
}

/// The channel that the last token leads to, if it is a channel mark.
pub open spec fn channel_switch(p: Progress) -> Option<Channel> {
    if p.separate_reasoning && p.token == CHANNEL_OPEN_TOKEN {
        Some(Channel::Name)
    } else if p.separate_reasoning && p.token == CHANNEL_CLOSE_TOKEN {
        Some(Channel::Answer)
    } else {
        None
    }
}

/// `piece` taken into the answer. A stop string ends it; what may become one is
/// held back.
pub open spec fn with_answer(p: Progress, piece: Seq<char>) -> (Progress, Option<Fragment>) {
    let text = p.text + piece;
    match first_stop(text, p.stops) {
        Some(cut) => (
            Progress { text: text.take(cut as int), stopped: true, ..p },
            if cut > p.emitted {
                Some(Fragment::Content(text.subrange(p.emitted as int, cut as int)))
            } else {
                None
            },
        ),
        None => {
            let safe = (text.len() - overlap(text, p.stops)) as nat;
            if safe > p.emitted {
                (
                    Progress { text, emitted: safe, ..p },
                    Some(Fragment::Content(text.subrange(p.emitted as int, safe as int))),
                )
            } else {
                (Progress { text, ..p }, None)
            }
        },
    }
}

/// `piece` taken into the reasoning.
pub open spec fn with_reasoning(p: Progress, piece: Seq<char>) -> (Progress, Option<Fragment>) {
    (
        Progress { reasoning: p.reasoning + piece, channel: Channel::Reasoning, ..p },
        Some(Fragment::Reasoning(piece)),
    )
}

/// `piece` taken into the name of a channel. The name is dropped; it ends with
/// the line, and what follows is reasoning.
pub open spec fn with_name(p: Progress, piece: Seq<char>) -> (Progress, Option<Fragment>) {
    if !piece.contains('\n') {
        (p, None)
    } else {
        let rest = piece.skip(first_index(piece, '\n') + 1);
        if rest.len() == 0 {
            (Progress { channel: Channel::Reasoning, ..p }, None)
        } else {
            with_reasoning(p, rest)
        }
    }
}

/// `piece` taken into the reply, and what the listener gets.
pub open spec fn with_piece(p: Progress, piece: Seq<char>) -> (Progress, Option<Fragment>) {
    match p.channel {
        Channel::Name => with_name(p, piece),
        Channel::Reasoning => with_reasoning(p, piece),
        Channel::Answer => with_answer(p, piece),
    }
}

/// The text of the last token, where it has one, taken into the reply, and what
/// the listener gets.
pub open spec fn taken(p: Progress, piece: Option<Seq<char>>) -> (Progress, Option<Fragment>) {
    let (q, out) = match piece {
        Some(piece) => with_piece(p, piece),
        None => (p, None),
    };
    match channel_switch(p) {
        Some(channel) if !q.stopped => (Progress { channel, ..q }, out),
        _ => (q, out),
    }
}

/// Whether the last token is to be taken into the reply.
pub open spec fn wanted(p: Progress) -> bool {
    !ends_reply(p.token) && p.generated < p.max_new_tokens
}

/// The reply after the last token was taken in, and whether it goes on. `heard`
/// is what the listener answered.
pub open spec fn counted(p: Progress, heard: bool) -> (Progress, bool) {
    if p.stopped || !heard {
        (p, false)
    } else {
        (
            Progress { generated: p.generated + 1, ..p },
            p.generated + 1 != p.max_new_tokens,
        )
    }
}

/// What the listener gets when the reply ends.
pub open spec fn held_back(p: Progress) -> Option<Fragment> {
    if !p.stopped && p.emitted < p.text.len() {
        Some(Fragment::Content(p.text.skip(p.emitted as int)))
    } else {
        None
    }
}

pub open spec fn finish_reason(p: Progress) -> FinishReason {
    if p.max_new_tokens > 0 && (p.stopped || ends_reply(p.token)) {
        FinishReason::Stop
    } else {
        FinishReason::Length
    }
}

/// The reply at its start.
pub open spec fn blank(
    stops: Seq<Seq<char>>,
    separate_reasoning: bool,
    prompt_tokens: nat,
    max_new_tokens: nat,
    token: usize,
) -> Progress {
    Progress {
        stops,
        separate_reasoning,
        prompt_tokens,
        max_new_tokens,
        token,
        generated: 0,
        channel: Channel::Answer,
        text: seq![],
        reasoning: seq![],
        emitted: 0,
        stopped: false,
    }
}

/// A reply in the making. For each token that is drawn: `wants_token` says whether
/// it is taken; `take` takes in its text; `proceed` says where it is to be run.
pub struct Generation {
    stops: Vec<Vec<char>>,
    separate_reasoning: bool,
    prompt_tokens: usize,
    max_new_tokens: usize,
    token: usize,
    generated: usize,
    channel: Channel,
    text: Vec<char>,
    reasoning: Vec<char>,
    emitted: usize,
    stopped: bool,
}

impl View for Generation {
    type V = Progress;

    closed spec fn view(&self) -> Progress {
        Progress {
            stops: texts(self.stops@),
            separate_reasoning: self.separate_reasoning,
            prompt_tokens: self.prompt_tokens as nat,
            max_new_tokens: self.max_new_tokens as nat,
            token: self.token,
            generated: self.generated as nat,
            channel: self.channel,
            text: self.text@,
            reasoning: self.reasoning@,
            emitted: self.emitted as nat,
            stopped: self.stopped,
        }
    }
}

/// What holds of a reply all along: as long as no stop string has come up,
/// the answer holds none, and the listener has got all of it but the end that
/// may become one.
pub open spec fn in_order(p: Progress) -> bool {
    &&& none_empty(p.stops)
    &&& p.generated <= p.max_new_tokens
    &&& p.prompt_tokens + p.max_new_tokens <= usize::MAX
    &&& first_stop(p.text, p.stops) is None
    &&& !p.stopped ==> p.emitted == p.text.len() - overlap(p.text, p.stops)
}

/// A reply at its start is in order.
pub proof fn blank_is_in_order(
    stops: Seq<Seq<char>>,
    separate_reasoning: bool,
    prompt_tokens: nat,
    max_new_tokens: nat,
    token: usize,
)
    requires
        none_empty(stops),
        prompt_tokens + max_new_tokens <= usize::MAX,
    ensures
        in_order(blank(stops, separate_reasoning, prompt_tokens, max_new_tokens, token)),
{
    let text = Seq::<char>::empty();
    overlap_is_longest(text, stops);
    first_stop_from_is_first(text, stops, 0);
    if let Some(cut) = first_stop(text, stops) {
        let i = choose|i: int|
            0 <= i < stops.len() && #[trigger] occurs_at(text, stops[i], cut as int);
        assert(stops[i].len() > 0);
    }
}

/// What the listener has got of the answer.
pub open spec fn reported(p: Progress) -> Seq<char> {
    if p.stopped {
        p.text
    } else {
        p.text.take(p.emitted as int)
    }
}

pub open spec fn content_of(out: Option<Fragment>) -> Seq<char> {
    match out {
        Some(Fragment::Content(text)) => text,
        _ => seq![],
    }
}

pub open spec fn reasoning_of(out: Option<Fragment>) -> Seq<char> {
    match out {
        Some(Fragment::Reasoning(text)) => text,
        _ => seq![],
    }
}

/// Taking in a token's text keeps the reply in order, and the listener gets
/// exactly what is added to the reported answer and to the reasoning.
pub proof fn taking_reports_what_it_adds(p: Progress, piece: Option<Seq<char>>)
    requires
        in_order(p),
        !p.stopped,
    ensures
        in_order(taken(p, piece).0),
        reported(taken(p, piece).0) == reported(p) + content_of(taken(p, piece).1),
        taken(p, piece).0.reasoning == p.reasoning + reasoning_of(taken(p, piece).1),
{
    overlap_is_longest(p.text, p.stops);
    if piece is Some && p.channel is Answer {
        let piece = piece->0;
        let text = p.text + piece;
        overlap_is_longest(text, p.stops);
        overlap_grows_slowly(p.text, piece, p.stops);
        stop_begins_in_overlap(p.text, piece, p.stops);
        first_stop_from_is_first(text, p.stops, 0);
        let emitted = p.emitted as int;
        if let Some(cut) = first_stop(text, p.stops) {
            cut_text_holds_no_stop(text, p.stops);
            assert(text.take(cut as int) =~= p.text.take(emitted) + text.subrange(
                emitted,
                cut as int,
            ));
        } else {
            let safe = text.len() - overlap(text, p.stops);
            assert(text.take(safe) =~= p.text.take(emitted) + text.subrange(emitted, safe));
        }
    }
    assert(p.reasoning + Seq::<char>::empty() =~= p.reasoning);
    assert(reported(p) + Seq::<char>::empty() =~= reported(p));
}

/// When the reply ends, the listener gets the rest of the answer.
pub proof fn finishing_reports_the_rest(p: Progress)
    requires
        in_order(p),
    ensures
        reported(p) + content_of(held_back(p)) == p.text,
{
    overlap_is_longest(p.text, p.stops);
}

/// One round of a reply: a token is drawn, it has its text, and the listener
/// answers.
pub struct Round {
    pub token: usize,
    pub piece: Option<Seq<char>>,
    pub heard: bool,
}

/// A reply after some rounds: how far it has got, what the listener has got,
/// and whether it goes on.
pub struct History {
    pub progress: Progress,
    pub fragments: Seq<Fragment>,
    pub open: bool,
}

pub open spec fn with_fragment(fragments: Seq<Fragment>, out: Option<Fragment>) -> Seq<Fragment> {
    match out {
        Some(fragment) => fragments.push(fragment),
        None => fragments,
    }
}

/// A reply after one more round. One that has ended stays as it is.
pub open spec fn with_round(h: History, round: Round) -> History {
    let p = Progress { token: round.token, ..h.progress };
    if !h.open {
        h
    } else if !wanted(p) {
        History { progress: p, fragments: h.fragments, open: false }
    } else {
        let (q, out) = taken(p, round.piece);
        let (progress, open) = counted(q, round.heard);
        History { progress, fragments: with_fragment(h.fragments, out), open }
    }
}

/// A reply after `rounds`, from its start.
pub open spec fn after_rounds(start: Progress, rounds: Seq<Round>) -> History
    decreases rounds.len(),
{
    if rounds.len() == 0 {
        History { progress: start, fragments: seq![], open: true }
    } else {
        with_round(after_rounds(start, rounds.drop_last()), rounds.last())
    }
}

/// All that the listener gets of a reply that ends after `rounds`.
pub open spec fn all_fragments(start: Progress, rounds: Seq<Round>) -> Seq<Fragment> {
    let h = after_rounds(start, rounds);
    with_fragment(h.fragments, held_back(h.progress))
}

/// The content among `fragments`, in one piece.
pub open spec fn contents(fragments: Seq<Fragment>) -> Seq<char>
    decreases fragments.len(),
{
    if fragments.len() == 0 {
        seq![]
    } else {
        contents(fragments.drop_last()) + content_of(Some(fragments.last()))
    }
}

/// The reasoning among `fragments`, in one piece.
pub open spec fn reasonings(fragments: Seq<Fragment>) -> Seq<char>
    decreases fragments.len(),
{
    if fragments.len() == 0 {
        seq![]
    } else {
        reasonings(fragments.drop_last()) + reasoning_of(Some(fragments.last()))
    }
}

proof fn one_more_fragment(fragments: Seq<Fragment>, out: Option<Fragment>)
    ensures
        contents(with_fragment(fragments, out)) == contents(fragments) + content_of(out),
        reasonings(with_fragment(fragments, out)) == reasonings(fragments) + reasoning_of(out),
{
    if out is Some {
        assert(fragments.push(out->0).drop_last() =~= fragments);
    }
    assert(contents(fragments) + Seq::<char>::empty() =~= contents(fragments));
    assert(reasonings(fragments) + Seq::<char>::empty() =~= reasonings(fragments));
}

proof fn rounds_keep_order(start: Progress, rounds: Seq<Round>)
    requires
        in_order(start),
        start.text.len() == 0,
        start.reasoning.len() == 0,
        start.generated == 0,
        !start.stopped,
    ensures
        ({
            let h = after_rounds(start, rounds);
            &&& in_order(h.progress)
            &&& h.open ==> !h.progress.stopped
            &&& contents(h.fragments) == reported(h.progress)
            &&& reasonings(h.fragments) == h.progress.reasoning
            &&& h.progress.generated <= rounds.len()
            &&& h.progress.stops == start.stops
            &&& h.progress.max_new_tokens == start.max_new_tokens
        }),
    decreases rounds.len(),
{
    if rounds.len() > 0 {
        rounds_keep_order(start, rounds.drop_last());
        let h = after_rounds(start, rounds.drop_last());
        let round = rounds.last();
        let p = Progress { token: round.token, ..h.progress };
        if h.open && wanted(p) {
            assert(reported(p) == reported(h.progress));
            taking_reports_what_it_adds(p, round.piece);
            one_more_fragment(h.fragments, taken(p, round.piece).1);
        }
    } else {
        overlap_is_longest(start.text, start.stops);
        assert(reported(start) =~= seq![]);
        assert(start.reasoning =~= seq![]);
    }
}

/// Whatever is drawn and whenever the listener leaves: what the listener gets
/// amounts to the final answer and the final reasoning, the answer holds no stop
/// string, and no more tokens are counted than were allowed or drawn.
pub proof fn listener_gets_the_reply(
    stops: Seq<Seq<char>>,
    separate_reasoning: bool,
    prompt_tokens: nat,
    max_new_tokens: nat,
    token: usize,
    rounds: Seq<Round>,
)
    requires
        none_empty(stops),
        prompt_tokens + max_new_tokens <= usize::MAX,
    ensures
        ({
            let start = blank(stops, separate_reasoning, prompt_tokens, max_new_tokens, token);
            let end = after_rounds(start, rounds).progress;
            &&& contents(all_fragments(start, rounds)) == end.text
            &&& reasonings(all_fragments(start, rounds)) == end.reasoning
            &&& forall|q: int| !stop_at(end.text, stops, q)
            &&& end.generated <= max_new_tokens
            &&& end.generated <= rounds.len()
        }),
{
    let start = blank(stops, separate_reasoning, prompt_tokens, max_new_tokens, token);
    blank_is_in_order(stops, separate_reasoning, prompt_tokens, max_new_tokens, token);
    rounds_keep_order(start, rounds);
    let h = after_rounds(start, rounds);
    one_more_fragment(h.fragments, held_back(h.progress));
    finishing_reports_the_rest(h.progress);
    assert(h.progress.reasoning + Seq::<char>::empty() =~= h.progress.reasoning);
    first_stop_from_is_first(h.progress.text, stops, 0);
}

/// Without a reasoning channel and without stop strings, the text of a token goes
/// into the answer as it is, and the answer goes on.
pub proof fn plain_text_goes_into_the_answer(p: Progress, piece: Seq<char>)
    requires
        p.stops.len() == 0,
        !p.separate_reasoning,
        p.channel == Channel::Answer,
        !p.stopped,
    ensures
        taken(p, Some(piece)).0.text == p.text + piece,
        taken(p, Some(piece)).0.reasoning == p.reasoning,
        taken(p, Some(piece)).0.channel == Channel::Answer,
        !taken(p, Some(piece)).0.stopped,
{
    first_stop_from_is_first(p.text + piece, p.stops, 0);
}

/// The last token drawn leaves the channel as it is: it is no channel mark, or
/// the reasoning is not set apart.
pub open spec fn keeps_channel(p: Progress) -> bool {
    !p.separate_reasoning || (p.token != 100 && p.token != 101)
}

/// A piece of a channel's name is dropped, and so is the rest of the line. A
/// newline ends the name, whatever stands behind it: that is reasoning.
pub proof fn names_end_with_the_line(p: Progress, head: Seq<char>, tail: Seq<char>)
    requires
        p.channel == Channel::Name,
        !p.stopped,
        keeps_channel(p),
        !head.contains('\n'),
    ensures
        taken(p, Some(head)) == (p, None::<Fragment>),
        taken(p, Some(head + seq!['\n'] + tail)).0 == (Progress {
            channel: Channel::Reasoning,
            reasoning: p.reasoning + tail,
            ..p
        }),
        reasoning_of(taken(p, Some(head + seq!['\n'] + tail)).1) == tail,
        content_of(taken(p, Some(head + seq!['\n'] + tail)).1).len() == 0,
        taken(p, Some(head + seq!['\n'] + tail)).1 is Some == (tail.len() > 0),
{
    let piece = head + seq!['\n'] + tail;
    let n = head.len() as int;
    assert forall|j: int| 0 <= j < n implies piece[j] != '\n' by {
        assert(piece[j] == head[j]);
    }
    first_index_at(piece, '\n', n);
    assert(piece.skip(n + 1) =~= tail);
    assert(p.reasoning + Seq::<char>::empty() =~= p.reasoning);
}

/// A piece of reasoning is added to the reasoning, and the listener gets it.
pub proof fn reasoning_is_added(p: Progress, piece: Seq<char>)
    requires
        p.channel == Channel::Reasoning,
        !p.stopped,
        keeps_channel(p),
    ensures
        taken(p, Some(piece)) == (
            Progress { reasoning: p.reasoning + piece, ..p },
            Some(Fragment::Reasoning(piece)),
        ),
        taken(p, None) == (p, None::<Fragment>),
{
}

/// The opening mark leads to a channel's name and the closing mark back to the
/// answer, once what came with the mark is taken in where it was drawn.
pub proof fn marks_switch_the_channel(p: Progress, piece: Option<Seq<char>>)
    requires
        in_order(p),
        !p.stopped,
    ensures
        ({
            let q = taken(p, piece).0;
            &&& p.separate_reasoning && p.token == 100 && !q.stopped ==> q.channel == Channel::Name
            &&& p.separate_reasoning && p.token == 101 && !q.stopped ==> q.channel
                == Channel::Answer
            &&& keeps_channel(p) && p.channel != Channel::Name ==> q.channel == p.channel
            &&& piece is None ==> q == (Progress { channel: q.channel, ..p }) && taken(
                p,
                piece,
            ).1 is None
            &&& p.channel == Channel::Answer ==> q.reasoning == p.reasoning
            &&& p.channel != Channel::Answer ==> q.text == p.text && q.emitted == p.emitted
                && !q.stopped
            &&& taken(p, piece).1 == taken(Progress { token: 0, ..p }, piece).1
            &&& q.text == taken(Progress { token: 0, ..p }, piece).0.text
            &&& q.reasoning == taken(Progress { token: 0, ..p }, piece).0.reasoning
        }),
{
}

/// A piece of the answer is added to it until a stop string comes up: the answer
/// is cut off where the first one begins. Of an answer that goes on, the listener
/// has got all but the longest end that may still become a stop string.
pub proof fn answers_grow_until_a_stop(p: Progress, piece: Seq<char>)
    requires
        in_order(p),
        p.channel == Channel::Answer,
        !p.stopped,
    ensures
        ({
            let text = p.text + piece;
            let q = taken(p, Some(piece)).0;
            &&& (forall|n: int| !stop_at(text, p.stops, n)) ==> q.text == text && !q.stopped
            &&& forall|cut: int|
                #![trigger stop_at(text, p.stops, cut)]
                stop_at(text, p.stops, cut) && (forall|n: int|
                    0 <= n < cut ==> !stop_at(text, p.stops, n)) ==> q.stopped && q.text
                    == text.take(cut)
            &&& !q.stopped ==> q.emitted <= text.len()
            &&& !q.stopped ==> forall|i: int, k: int|
                0 <= i < p.stops.len() && 0 < k < p.stops[i].len() && k <= text.len()
                    && #[trigger] p.stops[i].take(k) == text.skip(text.len() - k) ==> q.emitted
                    <= text.len() - k
            &&& !q.stopped && q.emitted < text.len() ==> exists|i: int|
                {
                    &&& 0 <= i < p.stops.len()
                    &&& text.len() - q.emitted < (#[trigger] p.stops[i]).len()
                    &&& text.skip(q.emitted as int) == p.stops[i].take(text.len() - q.emitted)
                }
        }),
{
    let text = p.text + piece;
    let q = taken(p, Some(piece)).0;
    taking_reports_what_it_adds(p, Some(piece));
    overlap_is_longest(text, p.stops);
    overlap_is_longest(p.text, p.stops);
    overlap_grows_slowly(p.text, piece, p.stops);
    first_stop_from_is_first(text, p.stops, 0);
    assert forall|cut: int|
        #![trigger stop_at(text, p.stops, cut)]
        stop_at(text, p.stops, cut) && (forall|n: int|
            0 <= n < cut ==> !stop_at(text, p.stops, n)) implies q.stopped && q.text == text.take(
        cut,
    ) by {
        let first = first_stop(text, p.stops)->0 as int;
        assert(0 <= cut);
        if first < cut {
            assert(!stop_at(text, p.stops, first));
        }
    }
    if !q.stopped {
        assert forall|i: int, k: int|
            0 <= i < p.stops.len() && 0 < k < p.stops[i].len() && k <= text.len()
                && #[trigger] p.stops[i].take(k) == text.skip(text.len() - k) implies q.emitted
            <= text.len() - k by {
            assert(partial_match(text, p.stops[i], k));
        }
        let k = overlap(text, p.stops) as int;
        if k > 0 {
            let i = choose|i: int|
                0 <= i < p.stops.len() && #[trigger] partial_match(text, p.stops[i], k);
            assert(text.skip(q.emitted as int) == p.stops[i].take(text.len() - q.emitted));
        }
    }
}

/// A stop string stands in a text where the text has it between a head and a
/// tail.
pub proof fn stops_stand_in_the_text(
    head: Seq<char>,
    stop: Seq<char>,
    tail: Seq<char>,
    stops: Seq<Seq<char>>,
    text: Seq<char>,
    n: int,
)
    ensures
        stops.contains(stop) ==> stop_at(head + stop + tail, stops, head.len() as int),
        stop_at(text, stops, n) ==> exists|i: int|
            {
                &&& 0 <= i < stops.len()
                &&& text == text.take(n) + #[trigger] stops[i] + text.skip(n + stops[i].len())
            },
{
    let whole = head + stop + tail;
    if stops.contains(stop) {
        let i = choose|i: int| 0 <= i < stops.len() && stops[i] == stop;
        assert(whole.subrange(head.len() as int, head.len() as int + stop.len()) =~= stop);
        assert(occurs_at(whole, stops[i], head.len() as int));
    }
    if stop_at(text, stops, n) {
        let i = choose|i: int| 0 <= i < stops.len() && #[trigger] occurs_at(text, stops[i], n);
        assert(text =~= text.take(n) + text.subrange(n, n + stops[i].len()) + text.skip(
            n + stops[i].len(),
        ));
    }
}

/// A round goes by: its token is taken, the listener stays, and no channel mark
/// and no end is drawn.
pub open spec fn is_plain(round: Round) -> bool {
    &&& round.heard
    &&& round.token != 1
    &&& round.token != 106
    &&& round.token != 50
    &&& round.token != 100
    &&& round.token != 101
}

/// The texts of rounds, in one piece.
pub open spec fn joined(rounds: Seq<Round>) -> Seq<char>
    decreases rounds.len(),
{
    if rounds.len() == 0 {
        seq![]
    } else {
        joined(rounds.drop_last()) + match rounds.last().piece {
            Some(piece) => piece,
            None => seq![],
        }
    }
}

/// However the text of a channel is cut into pieces, the reasoning that it adds
/// is what stands behind its first line, and the listener gets just that.
pub proof fn thoughts_follow_the_first_line(
    start: Progress,
    before: Seq<Round>,
    middle: Seq<Round>,
    head: Seq<char>,
    tail: Seq<char>,
)
    requires
        after_rounds(start, before).open,
        !after_rounds(start, before).progress.stopped,
        after_rounds(start, before).progress.separate_reasoning,
        after_rounds(start, before).progress.generated + middle.len() + 1 < after_rounds(
            start,
            before,
        ).progress.max_new_tokens,
        forall|i: int| 0 <= i < middle.len() ==> is_plain(#[trigger] middle[i]),
        !head.contains('\n'),
    ensures
        ({
            let h = after_rounds(start, before);
            let mark = Round { token: 100, piece: None, heard: true };
            let e = after_rounds(start, before.push(mark) + middle);
            &&& e.open
            &&& e.progress.text == h.progress.text
            &&& !e.progress.stopped
            &&& e.progress.generated == h.progress.generated + 1 + middle.len()
            &&& joined(middle) == head ==> {
                &&& e.progress.channel == Channel::Name
                &&& e.progress.reasoning == h.progress.reasoning
                &&& reasonings(e.fragments) == reasonings(h.fragments)
            }
            &&& joined(middle) == head + seq!['\n'] + tail ==> {
                &&& e.progress.channel == Channel::Reasoning
                &&& e.progress.reasoning == h.progress.reasoning + tail
                &&& reasonings(e.fragments) == reasonings(h.fragments) + tail
            }
        }),
{
    thoughts_so_far(start, before, middle);
    let all = joined(middle);
    let n = head.len() as int;
    if all == head {
        assert(!all.contains('\n'));
    }
    if all == head + seq!['\n'] + tail {
        assert forall|j: int| 0 <= j < n implies all[j] != '\n' by {
            assert(all[j] == head[j]);
        }
        first_index_at(all, '\n', n);
        assert(all.skip(n + 1) =~= tail);
    }
}

/// What stands behind the first line of a channel's text.
spec fn thoughts(all: Seq<char>) -> Seq<char> {
    if all.contains('\n') {
        all.skip(first_index(all, '\n') + 1)
    } else {
        seq![]
    }
}

proof fn thoughts_grow(seen: Seq<char>, piece: Seq<char>)
    ensures
        (seen + piece).contains('\n') <==> seen.contains('\n') || piece.contains('\n'),
        seen.contains('\n') ==> thoughts(seen + piece) == thoughts(seen) + piece,
        !seen.contains('\n') ==> thoughts(seen + piece) == thoughts(piece),
{
    let all = seen + piece;
    if seen.contains('\n') {
        first_index_finds(seen, '\n');
        let k = first_index(seen, '\n');
        assert forall|j: int| 0 <= j < k implies all[j] != '\n' by {
            assert(all[j] == seen[j]);
        }
        first_index_at(all, '\n', k);
        assert(all.skip(k + 1) =~= seen.skip(k + 1) + piece);
    } else if piece.contains('\n') {
        first_index_finds(piece, '\n');
        let k = first_index(piece, '\n');
        let n = seen.len() + k;
        assert forall|j: int| 0 <= j < n implies all[j] != '\n' by {
            if j < seen.len() {
                assert(all[j] == seen[j]);
            } else {
                assert(all[j] == piece[j - seen.len()]);
            }
        }
        first_index_at(all, '\n', n);
        assert(all.skip(n + 1) =~= piece.skip(k + 1));
    } else if all.contains('\n') {
        let j = choose|j: int| 0 <= j < all.len() && all[j] == '\n';
        if j < seen.len() {
            assert(seen[j] == '\n');
        } else {
            assert(piece[j - seen.len()] == '\n');
        }
    }
}

/// One piece of a channel's text, of which `seen` came before.
proof fn one_more_thought(p: Progress, seen: Seq<char>, piece: Option<Seq<char>>)
    requires
        !p.stopped,
        keeps_channel(p),
        p.channel == (if seen.contains('\n') {
            Channel::Reasoning
        } else {
            Channel::Name
        }),
    ensures
        ({
            let all = seen + match piece {
                Some(piece) => piece,
                None => seq![],
            };
            let (q, out) = taken(p, piece);
            &&& q == (Progress {
                channel: if all.contains('\n') {
                    Channel::Reasoning
                } else {
                    Channel::Name
                },
                reasoning: q.reasoning,
                ..p
            })
            &&& q.reasoning == p.reasoning + reasoning_of(out)
            &&& thoughts(all) == thoughts(seen) + reasoning_of(out)
        }),
{
    let none = Seq::<char>::empty();
    assert(p.reasoning + none =~= p.reasoning);
    assert(seen + none =~= seen);
    assert(thoughts(seen) + none =~= thoughts(seen));
    match piece {
        Some(piece) => {
            thoughts_grow(seen, piece);
            if piece.contains('\n') {
                first_index_finds(piece, '\n');
            }
            assert(none + thoughts(piece) =~= thoughts(piece));
            if piece.contains('\n') {
                assert(piece.skip(first_index(piece, '\n') + 1).len() == 0 ==> thoughts(piece)
                    =~= none);
            }
        },
        None => {},
    }
}

proof fn thoughts_so_far(start: Progress, before: Seq<Round>, middle: Seq<Round>)
    requires
        after_rounds(start, before).open,
        !after_rounds(start, before).progress.stopped,
        after_rounds(start, before).progress.separate_reasoning,
        after_rounds(start, before).progress.generated + middle.len() + 1 < after_rounds(
            start,
            before,
        ).progress.max_new_tokens,
        forall|i: int| 0 <= i < middle.len() ==> is_plain(#[trigger] middle[i]),
    ensures
        ({
            let h = after_rounds(start, before);
            let mark = Round { token: 100, piece: None, heard: true };
            let e = after_rounds(start, before.push(mark) + middle);
            let all = joined(middle);
            &&& e.open
            &&& e.progress == (Progress {
                token: e.progress.token,
                channel: if all.contains('\n') {
                    Channel::Reasoning
                } else {
                    Channel::Name
                },
                generated: h.progress.generated + 1 + middle.len(),
                reasoning: h.progress.reasoning + thoughts(all),
                ..h.progress
            })
            &&& reasonings(e.fragments) == reasonings(h.fragments) + thoughts(all)
        }),
    decreases middle.len(),
{
    let h = after_rounds(start, before);
    let mark = Round { token: 100, piece: None, heard: true };
    let rounds = before.push(mark) + middle;
    if middle.len() == 0 {
        assert(rounds =~= before.push(mark));
        assert(rounds.drop_last() =~= before);
        assert(h.progress.reasoning + Seq::<char>::empty() =~= h.progress.reasoning);
        assert(reasonings(h.fragments) + Seq::<char>::empty() =~= reasonings(h.fragments));
    } else {
        let init = middle.drop_last();
        assert forall|i: int| 0 <= i < init.len() implies is_plain(#[trigger] init[i]) by {
            assert(init[i] == middle[i]);
        }
        thoughts_so_far(start, before, init);
        assert(rounds.drop_last() =~= before.push(mark) + init);
        let round = middle.last();
        assert(is_plain(middle[middle.len() - 1]));
        assert(rounds.last() == round);
        let g = after_rounds(start, before.push(mark) + init);
        let p = Progress { token: round.token, ..g.progress };
        one_more_thought(p, joined(init), round.piece);
        let out = taken(p, round.piece).1;
        one_more_fragment(g.fragments, out);
        let (x, y) = (thoughts(joined(init)), reasoning_of(out));
        assert((h.progress.reasoning + x) + y =~= h.progress.reasoning + (x + y));
        assert((reasonings(h.fragments) + x) + y =~= reasonings(h.fragments) + (x + y));
    }
}

/// An answer in which no stop string comes up is the text that was drawn, however
/// it was cut into pieces.
pub proof fn answers_are_what_was_drawn(start: Progress, rounds: Seq<Round>)
    requires
        in_order(start),
        !start.stopped,
        start.text.len() == 0,
        start.channel == Channel::Answer,
        start.generated == 0,
        rounds.len() < start.max_new_tokens,
        forall|i: int| 0 <= i < rounds.len() ==> is_plain(#[trigger] rounds[i]),
        forall|n: int| !stop_at(joined(rounds), start.stops, n),
    ensures
        ({
            let h = after_rounds(start, rounds);
            &&& h.open
            &&& !h.progress.stopped
            &&& h.progress.text == joined(rounds)
            &&& h.progress.reasoning == start.reasoning
            &&& h.progress.channel == Channel::Answer
            &&& h.progress.generated == rounds.len()
            &&& h.progress.stops == start.stops
            &&& h.progress.max_new_tokens == start.max_new_tokens
            &&& in_order(h.progress)
        }),
    decreases rounds.len(),
{
    if rounds.len() == 0 {
        assert(start.text =~= seq![]);
    } else {
        let init = rounds.drop_last();
        let round = rounds.last();
        assert forall|i: int| 0 <= i < init.len() implies is_plain(#[trigger] init[i]) by {
            assert(init[i] == rounds[i]);
        }
        assert(is_plain(rounds[rounds.len() - 1]));
        let (seen, all) = (joined(init), joined(rounds));
        assert forall|n: int| !stop_at(seen, start.stops, n) by {
            if stop_at(seen, start.stops, n) {
                let i = choose|i: int|
                    0 <= i < start.stops.len() && #[trigger] occurs_at(seen, start.stops[i], n);
                let end = n + start.stops[i].len();
                assert(all.subrange(n, end) =~= seen.subrange(n, end));
                assert(occurs_at(all, start.stops[i], n));
                assert(stop_at(all, start.stops, n));
            }
        }
        answers_are_what_was_drawn(start, init);
        let h = after_rounds(start, init);
        let p = Progress { token: round.token, ..h.progress };
        assert(in_order(p));
        taking_reports_what_it_adds(p, round.piece);
        match round.piece {
            Some(piece) => {
                answers_grow_until_a_stop(p, piece);
            },
            None => {
                assert(seen + Seq::<char>::empty() =~= seen);
            },
        }
    }
}

/// A round ends the reply, or it counts one more token: a token that ends replies
/// changes nothing, nor does one beyond those allowed; one that brings up a stop
/// string, or that the listener does not want to hear of, is not counted.
pub proof fn rounds_count_tokens(h: History, round: Round)
    requires
        h.open,
        in_order(h.progress),
        !h.progress.stopped,
    ensures
        ({
            let e = with_round(h, round);
            let end = round.token == 1 || round.token == 106 || round.token == 50;
            &&& e.progress.token == round.token
            &&& end || h.progress.generated >= h.progress.max_new_tokens ==> {
                &&& !e.open
                &&& e.fragments == h.fragments
                &&& e.progress == (Progress { token: round.token, ..h.progress })
            }
            &&& !end && h.progress.generated < h.progress.max_new_tokens ==> {
                &&& e.progress.generated == h.progress.generated + if round.heard
                    && !e.progress.stopped {
                    1nat
                } else {
                    0nat
                }
                &&& e.open <==> round.heard && !e.progress.stopped && h.progress.generated + 1
                    < h.progress.max_new_tokens
                &&& contents(e.fragments) == contents(h.fragments) + content_of(
                    taken(Progress { token: round.token, ..h.progress }, round.piece).1,
                )
            }
            &&& e.progress.max_new_tokens == h.progress.max_new_tokens
            &&& e.progress.prompt_tokens == h.progress.prompt_tokens
            &&& e.progress.stops == h.progress.stops
            &&& e.progress.separate_reasoning == h.progress.separate_reasoning
            &&& finish_reason(e.progress) == (if e.progress.max_new_tokens > 0 && (end
                || e.progress.stopped) {
                FinishReason::Stop
            } else {
                FinishReason::Length
            })
        }),
{
    let p = Progress { token: round.token, ..h.progress };
    one_more_fragment(h.fragments, taken(p, round.piece).1);
}

/// Splicing goes token by token.
pub proof fn splice_goes_token_by_token(
    a: Seq<usize>,
    b: Seq<usize>,
    image: Option<nat>,
    audio: Option<nat>,
)
    ensures
        spliced_ids(a + b, image, audio) == spliced_ids(a, image, audio) + spliced_ids(
            b,
            image,
            audio,
        ),
        spliced_softs(a + b, image, audio) == spliced_softs(a, image, audio) + spliced_softs(
            b,
            image,
            audio,
        ),
    decreases b.len(),
{
    if b.len() == 0 {
        assert(a + b =~= a);
        assert(spliced_ids(a, image, audio) + spliced_ids(b, image, audio) =~= spliced_ids(
            a,
            image,
            audio,
        ));
        assert(spliced_softs(a, image, audio) + spliced_softs(b, image, audio) =~= spliced_softs(
            a,
            image,
            audio,
        ));
    } else {
        assert((a + b).drop_last() =~= a + b.drop_last());
        splice_goes_token_by_token(a, b.drop_last(), image, audio);
        assert(spliced_ids(a + b, image, audio) =~= spliced_ids(a, image, audio) + spliced_ids(
            b,
            image,
            audio,
        ));
        assert(spliced_softs(a + b, image, audio) =~= spliced_softs(a, image, audio)
            + spliced_softs(b, image, audio));
    }
}

/// A token that is no placeholder of a medium that is given stays as it is. The
/// placeholder of an image becomes one for each patch in brackets, fed from the
/// patches in order; that of a clip likewise.
pub proof fn splice_of_one_token(id: usize, image: Option<nat>, audio: Option<nat>, i: int)
    requires
        image matches Some(n) ==> n <= usize::MAX,
        audio matches Some(n) ==> n <= usize::MAX,
    ensures
        ({
            let ids = spliced_ids(seq![id], image, audio);
            let softs = spliced_softs(seq![id], image, audio);
            if id == 258880 && image is Some {
                let n = image->0 as int;
                &&& ids.len() == n + 2 && softs.len() == n + 2
                &&& ids[0] == 255999 && softs[0] is None
                &&& ids[n + 1] == 258882 && softs[n + 1] is None
                &&& 0 <= i < n ==> ids[i + 1] == 258880 && softs[i + 1] == Some(
                    SoftToken::Image(i as usize),
                )
            } else if id == 258881 && audio is Some {
                let n = audio->0 as int;
                &&& ids.len() == n + 2 && softs.len() == n + 2
                &&& ids[0] == 256000 && softs[0] is None
                &&& ids[n + 1] == 258883 && softs[n + 1] is None
                &&& 0 <= i < n ==> ids[i + 1] == 258881 && softs[i + 1] == Some(
                    SoftToken::Audio(i as usize),
                )
            } else {
                &&& ids == seq![id]
                &&& softs == seq![None::<SoftToken>]
            }
        }),
{
    let ids = seq![id];
    assert(ids.drop_last() =~= seq![]);
    assert(spliced_ids(ids.drop_last(), image, audio) =~= seq![]);
    assert(spliced_softs(ids.drop_last(), image, audio) =~= seq![]);
    assert(spliced_ids(ids, image, audio) =~= spliced_id(id, image, audio));
    assert(spliced_softs(ids, image, audio) =~= spliced_soft(id, image, audio));
}

/// How often a token occurs is how many places hold it.
pub proof fn occurrences_are_places(ids: Seq<usize>, id: usize)
    ensures
        occurrences(ids, id) == 0 <==> !ids.contains(id),
        forall|a: Seq<usize>, b: Seq<usize>|
            ids == #[trigger] (a + b) ==> occurrences(ids, id) == occurrences(a, id) + occurrences(
                b,
                id,
            ),
        ids == seq![id] ==> occurrences(ids, id) == 1,
    decreases ids.len(),
{
    if ids.len() > 0 {
        let init = ids.drop_last();
        occurrences_are_places(init, id);
        if ids.contains(id) {
            let k = choose|k: int| 0 <= k < ids.len() && ids[k] == id;
            if k < init.len() {
                assert(init[k] == id);
            }
        } else {
            assert(ids[ids.len() - 1] != id);
            assert(!init.contains(id)) by {
                if init.contains(id) {
                    let k = choose|k: int| 0 <= k < init.len() && init[k] == id;
                    assert(ids[k] == id);
                }
            }
        }
        assert forall|a: Seq<usize>, b: Seq<usize>| ids == #[trigger] (a + b) implies occurrences(
            ids,
            id,
        ) == occurrences(a, id) + occurrences(b, id) by {
            if b.len() == 0 {
                assert(a =~= ids);
            } else {
                assert(init =~= a + b.drop_last());
                assert(ids.last() == b.last());
            }
        }
    } else {
        assert forall|a: Seq<usize>, b: Seq<usize>| ids == #[trigger] (a + b) implies occurrences(
            ids,
            id,
        ) == occurrences(a, id) + occurrences(b, id) by {
            assert(a.len() == 0 && b.len() == 0);
        }
    }
}

/// A channel mark is taken off the end of a text, and only there.
pub proof fn marks_are_taken_off(head: Seq<char>, mark: Seq<char>, other: Seq<char>)
    ensures
        without_marker(head + mark, mark) == head,
        (forall|h: Seq<char>| other != #[trigger] (h + mark)) ==> without_marker(other, mark)
            == other,
        stripped(None, mark) is None,
        stripped(Some(head + mark), mark) == (if head.len() == 0 {
            None
        } else {
            Some(head)
        }),
{
    let whole = head + mark;
    assert(whole.subrange(head.len() as int, whole.len() as int) =~= mark);
    assert(whole.take(head.len() as int) =~= head);
    let n = other.len() - mark.len();
    if occurs_at(other, mark, n) {
        assert(other =~= other.take(n) + mark);
    }
}

/// The tokens that are channel marks, and how they are written.
pub proof fn marks_are_written(token: usize, separate_reasoning: bool)
    ensures
        marker_of(token, separate_reasoning) == (if !separate_reasoning {
            None
        } else if token == 100 {
            Some("<|channel>"@)
        } else if token == 101 {
            Some("<channel|>"@)
        } else {
            None
        }),
{
}

fn stops_in_force(stop_strings: &Vec<String>) -> (r: Vec<Vec<char>>)
    ensures
        texts(r@) == in_force(stop_strings@),
        none_empty(texts(r@)),
{
    let mut stops: Vec<Vec<char>> = Vec::new();
    let mut i: usize = 0;
    assert(texts(stops@) =~= seq![]);
    while i < stop_strings.len()
        invariant
            i <= stop_strings@.len(),
            texts(stops@) == in_force(stop_strings@.take(i as int)),
            none_empty(texts(stops@)),
        decreases stop_strings@.len() - i,
    {
        assert(stop_strings@.take(i + 1).drop_last() == stop_strings@.take(i as int));
        let stop = to_chars(stop_strings[i].as_str());
        if stop.len() > 0 {
            let ghost before = stops@;
            stops.push(stop);
            assert(texts(stops@) =~= texts(before).push(stop@));
        }
        i += 1;
    }
    assert(stop_strings@.take(i as int) == stop_strings@);
    stops
}

impl Generation {
    /// A reply of at most `max_new_tokens` tokens to a prompt of `prompt_tokens`,
    /// with `token` the first token drawn.
    pub fn start(
        stop_strings: &Vec<String>,
        separate_reasoning: bool,
        prompt_tokens: usize,
        max_new_tokens: usize,
        token: usize,
    ) -> (r: Self)
        requires
            prompt_tokens + max_new_tokens <= usize::MAX,
        ensures
            in_order(r@),
            r@ == blank(
                in_force(stop_strings@),
                separate_reasoning,
                prompt_tokens as nat,
                max_new_tokens as nat,
                token,
            ),
    {
        let stops = stops_in_force(stop_strings);
        proof {
            blank_is_in_order(
                texts(stops@),
                separate_reasoning,
                prompt_tokens as nat,
                max_new_tokens as nat,
                token,
            );
        }
        let r = Generation {
            stops,
            separate_reasoning,
            prompt_tokens,
            max_new_tokens,
            token,
            generated: 0,
            channel: Channel::Answer,
            text: Vec::new(),
            reasoning: Vec::new(),
            emitted: 0,
            stopped: false,
        };
        assert(r@.text =~= seq![]);
        assert(r@.reasoning =~= seq![]);
        r
    }

    /// Whether the last token drawn is to be taken into the reply.
    pub fn wants_token(&self) -> (r: bool)
        ensures
            r == wanted(self@),
    {
        !is_end(self.token) && self.generated < self.max_new_tokens
    }

    /// The last token drawn.
    pub fn token(&self) -> (r: usize)
        ensures
            r == self@.token,
    {
        self.token
    }

    fn take_answer(&mut self, piece: &Vec<char>) -> (r: Option<Delta>)
        requires
            in_order(old(self)@),
            !old(self)@.stopped,
        ensures
            final(self)@ == with_answer(old(self)@, piece@).0,
            fragment(r) == with_answer(old(self)@, piece@).1,
    {
        proof {
            overlap_is_longest(self.text@, self@.stops);
            overlap_grows_slowly(self.text@, piece@, self@.stops);
            stop_begins_in_overlap(self.text@, piece@, self@.stops);
        }
        let mut i: usize = 0;
        let ghost before = self@;
        while i < piece.len()
            invariant
                i <= piece@.len(),
                self@ == (Progress { text: before.text + piece@.take(i as int), ..before }),
            decreases piece@.len() - i,
        {
            self.text.push(piece[i]);
            i += 1;
            assert(self@.text =~= before.text + piece@.take(i as int));
        }
        assert(piece@.take(i as int) == piece@);
        match find_stop(&self.text, &self.stops) {
            Some(cut) => {
                let out = if cut > self.emitted {
                    let part = vstd::slice::slice_subrange(self.text.as_slice(), self.emitted, cut);
                    Some(Delta::Content(from_chars(part)))
                } else {
                    None
                };
                self.text.truncate(cut);
                self.stopped = true;
                out
            },
            None => {
                let safe: usize = self.text.len() - pending_stop_overlap(&self.text, &self.stops);
                if safe > self.emitted {
                    let part = vstd::slice::slice_subrange(
                        self.text.as_slice(),
                        self.emitted,
                        safe,
                    );
                    let out = Some(Delta::Content(from_chars(part)));
                    self.emitted = safe;
                    out
                } else {
                    None
                }
            },
        }
    }

    fn take_reasoning(&mut self, piece: &[char]) -> (r: Option<Delta>)
        ensures
            final(self)@ == with_reasoning(old(self)@, piece@).0,
            fragment(r) == with_reasoning(old(self)@, piece@).1,
    {
        self.channel = Channel::Reasoning;
        let mut i: usize = 0;
        let ghost before = self@;
        while i < piece.len()
            invariant
                i <= piece@.len(),
                self@ == (Progress { reasoning: before.reasoning + piece@.take(i as int), ..before }),
            decreases piece@.len() - i,
        {
            self.reasoning.push(piece[i]);
            i += 1;
            assert(self@.reasoning =~= before.reasoning + piece@.take(i as int));
        }
        assert(piece@.take(i as int) == piece@);
        Some(Delta::Reasoning(from_chars(piece)))
    }

    fn take_name(&mut self, piece: &Vec<char>) -> (r: Option<Delta>)
        ensures
            final(self)@ == with_name(old(self)@, piece@).0,
            fragment(r) == with_name(old(self)@, piece@).1,
    {
        let at: usize = find_char(piece.as_slice(), '\n');
        proof {
            first_index_is_first(piece@, '\n');
        }
        if at == piece.len() {
            return None;
        }
        let rest = vstd::slice::slice_subrange(piece.as_slice(), at + 1, piece.len());
        assert(rest@ =~= piece@.skip(at + 1));
        if rest.len() == 0 {
            self.channel = Channel::Reasoning;
            return None;
        }
        self.take_reasoning(rest)
    }

    /// Takes in the text of the last token, where it has one, and gives what the
    /// listener is to get.
    pub fn take(&mut self, piece: Option<String>) -> (r: Option<Delta>)
        requires
            in_order(old(self)@),
            !old(self)@.stopped,
        ensures
            in_order(final(self)@),
            final(self)@ == taken(old(self)@, text_of(piece)).0,
            fragment(r) == taken(old(self)@, text_of(piece)).1,
    {
        proof {
            taking_reports_what_it_adds(self@, text_of(piece));
        }
        let switch = if self.separate_reasoning && self.token == CHANNEL_OPEN_TOKEN {
            Some(Channel::Name)
        } else if self.separate_reasoning && self.token == CHANNEL_CLOSE_TOKEN {
            Some(Channel::Answer)
        } else {
            None
        };
        let out = match piece {
            Some(piece) => {
                let chars = to_chars(piece.as_str());
                match self.channel {
                    Channel::Name => self.take_name(&chars),
                    Channel::Reasoning => self.take_reasoning(chars.as_slice()),
                    Channel::Answer => self.take_answer(&chars),
                }
            },
            None => None,
        };
        if !self.stopped {
            if let Some(channel) = switch {
                self.channel = channel;
            }
        }
        out
    }

    /// Counts the token that was taken in, and gives the position at which it is
    /// to be run. There is none when the reply ends here: at a stop string, when
    /// the listener has left, or at the last token allowed.
    pub fn proceed(&mut self, heard: bool) -> (r: Option<usize>)
        requires
            in_order(old(self)@),
            wanted(old(self)@),
        ensures
            in_order(final(self)@),
            final(self)@ == counted(old(self)@, heard).0,
            r is Some == counted(old(self)@, heard).1,
            r matches Some(pos) ==> {
                &&& pos == final(self)@.prompt_tokens + final(self)@.generated - 1
                &&& pos < final(self)@.prompt_tokens + final(self)@.max_new_tokens
                &&& !final(self)@.stopped
            },
    {
        if self.stopped || !heard {
            return None;
        }
        self.generated = self.generated + 1;
        if self.generated == self.max_new_tokens {
            return None;
        }
        Some(self.prompt_tokens + self.generated - 1)
    }

    /// Puts the next token drawn in place of the last one.
    pub fn draw(&mut self, token: usize)
        ensures
            final(self)@ == (Progress { token, ..old(self)@ }),
            in_order(old(self)@) ==> in_order(final(self)@),
    {
        self.token = token;
    }

    /// Ends the reply: what the listener is still to get, and the output.
    pub fn finish(self) -> (r: (Option<Delta>, GenerationOutput))
        requires
            in_order(self@),
        ensures
            fragment(r.0) == held_back(self@),
            r.1.text@ == self@.text,
            r.1.reasoning@ == self@.reasoning,
            r.1.prompt_tokens == self@.prompt_tokens,
            r.1.completion_tokens == self@.generated,
            r.1.finish_reason == finish_reason(self@),
            r.1.prompt_tokens + r.1.completion_tokens <= usize::MAX,
    {
        let rest = if !self.stopped && self.emitted < self.text.len() {
            let part = vstd::slice::slice_subrange(
                self.text.as_slice(),
                self.emitted,
                self.text.len(),
            );
            assert(part@ =~= self.text@.skip(self.emitted as int));
            Some(Delta::Content(from_chars(part)))
        } else {
            None
        };
        let finish_reason = if self.max_new_tokens > 0 && (self.stopped || is_end(self.token)) {
            FinishReason::Stop
        } else {
            FinishReason::Length
        };
        let output = GenerationOutput {
            text: from_chars(self.text.as_slice()),
            reasoning: from_chars(self.reasoning.as_slice()),
            prompt_tokens: self.prompt_tokens,
            completion_tokens: self.generated,
            finish_reason,
        };
        (rest, output)
    }
}

/// `delta` without `marker` at its end, where it ends so.
pub open spec fn without_marker(delta: Seq<char>, marker: Seq<char>) -> Seq<char> {
    if occurs_at(delta, marker, delta.len() - marker.len()) {
        delta.take(delta.len() - marker.len())
    } else {
        delta
    }
}

/// The text that a channel mark gave, without the mark itself, where any is
/// left.
pub fn strip_marker(delta: Option<String>, marker: &str) -> (r: Option<String>)
    ensures
        match delta {
            Some(delta) => {
                let held = without_marker(delta@, marker@);
                match r {
                    Some(text) => text@ == held && held.len() > 0,
                    None => held.len() == 0,
                }
            },
            None => r is None,
        },
{
    match delta {
        Some(delta) => {
            let chars = to_chars(delta.as_str());
            let mark = to_chars(marker);
            let mut keep: usize = chars.len();
            if mark.len() <= chars.len() && matches_at(
                chars.as_slice(),
                mark.as_slice(),
                chars.len() - mark.len(),
            ) {
                keep = chars.len() - mark.len();
            }
            let held = vstd::slice::slice_subrange(chars.as_slice(), 0, keep);
            assert(held@ =~= without_marker(delta@, marker@));
            if held.len() == 0 {
                None
            } else {
                Some(from_chars(held))
            }
        },
        None => None,
    }
}

/// What is left of the text that a token gave: `marker` is taken off its end,
/// and nothing left counts as no text.
pub open spec fn stripped(delta: Option<Seq<char>>, marker: Seq<char>) -> Option<Seq<char>> {
    match delta {
        Some(delta) => if without_marker(delta, marker).len() == 0 {
            None
        } else {
            Some(without_marker(delta, marker))
        },
        None => None,
    }
}

/// The text of a channel mark, where the mark came with any.
pub fn step_over_marker(stream: &mut DecodeStream, id: usize, marker: &str) -> (r: Result<
    Option<String>,
    String,
>)
    ensures
        match r {
            Ok(piece) => steps_to(*old(stream), *final(stream), id as u32, Some(marker@), piece),
            Err(message) => {
                &&& stepped(*old(stream), *final(stream), id as u32, false)
                &&& may_decode_to(*old(stream), id as u32, Err(message@))
            },
        },
{
    match step_stream(stream, id as u32) {
        Err(message) => Err(message),
        Ok(delta) => {
            let ghost raw = text_of(delta);
            let piece = strip_marker(delta, marker);
            assert(gives(*old(stream), *stream, id as u32, raw));
            Ok(piece)
        },
    }
}

/// A step on `token` gives `delta`, and makes `after` of the decoder.
pub open spec fn gives(
    before: DecodeStream,
    after: DecodeStream,
    token: u32,
    delta: Option<Seq<char>>,
) -> bool {
    &&& may_decode_to(before, token, Ok(delta))
    &&& stepped(before, after, token, delta is Some)
}

/// A step on `token` gives a text that `piece` is left of, without `marker`
/// where one is to be taken off, and makes `after` of the decoder.
pub open spec fn steps_to(
    before: DecodeStream,
    after: DecodeStream,
    token: u32,
    marker: Option<Seq<char>>,
    piece: Option<String>,
) -> bool {
    exists|delta: Option<Seq<char>>| #[trigger]
        gives(before, after, token, delta) && text_of(piece) == (match marker {
            Some(marker) => stripped(delta, marker),
            None => delta,
        })
}

/// The mark that a token is written as, where it opens or closes a channel.
pub open spec fn marker_of(token: usize, separate_reasoning: bool) -> Option<Seq<char>> {
    if separate_reasoning && token == CHANNEL_OPEN_TOKEN {
        Some("<|channel>"@)
    } else if separate_reasoning && token == CHANNEL_CLOSE_TOKEN {
        Some("<channel|>"@)
    } else {
        None
    }
}

/// The text of a token that is taken into a reply, without channel marks.
pub fn next_piece(stream: &mut DecodeStream, token: usize, separate_reasoning: bool) -> (r: Result<
    Option<String>,
    String,
>)
    ensures
        match r {
            Ok(piece) => steps_to(
                *old(stream),
                *final(stream),
                token as u32,
                marker_of(token, separate_reasoning),
                piece,
            ),
            Err(message) => {
                &&& stepped(*old(stream), *final(stream), token as u32, false)
                &&& may_decode_to(*old(stream), token as u32, Err(message@))
            },
        },
{
    if separate_reasoning && token == CHANNEL_OPEN_TOKEN {
        step_over_marker(stream, token, "<|channel>")
    } else if separate_reasoning && token == CHANNEL_CLOSE_TOKEN {
        step_over_marker(stream, token, "<channel|>")
    } else {
        match step_stream(stream, token as u32) {
            Err(message) => Err(message),
            Ok(delta) => {
                assert(gives(*old(stream), *stream, token as u32, text_of(delta)));
                Ok(delta)
            },
        }
    }
}

/// A decoder does not go back: what it has told stays told, among it the prompt
/// that it was opened on, and a step that gives text leaves nothing to tell.
pub proof fn decoders_go_on(
    before: DecodeStream,
    after: DecodeStream,
    token: u32,
    delta: Option<Seq<char>>,
)
    requires
        gives(before, after, token, delta),
        told(before) <= fed_tokens(before).len(),
        window(before) <= told(before),
    ensures
        told(before) <= told(after) <= fed_tokens(after).len(),
        window(after) <= told(after),
        delta is Some ==> told(after) == fed_tokens(after).len(),
{
}

/// A reply begins with the answer, with nothing in it, and as long as no stop
/// string comes up and no channel is opened it is the text that was drawn,
/// however that was cut into pieces.
pub proof fn replies_are_what_was_drawn(
    stops: Seq<Seq<char>>,
    separate_reasoning: bool,
    prompt_tokens: nat,
    max_new_tokens: nat,
    token: usize,
    rounds: Seq<Round>,
)
    requires
        none_empty(stops),
        prompt_tokens + max_new_tokens <= usize::MAX,
        rounds.len() < max_new_tokens,
        forall|i: int| 0 <= i < rounds.len() ==> is_plain(#[trigger] rounds[i]),
        forall|n: int| !stop_at(joined(rounds), stops, n),
    ensures
        ({
            let start = blank(stops, separate_reasoning, prompt_tokens, max_new_tokens, token);
            let h = after_rounds(start, rounds);
            &&& h.open
            &&& h.progress.text == joined(rounds)
            &&& h.progress.reasoning.len() == 0
            &&& h.progress.generated == rounds.len()
            &&& start.prompt_tokens == prompt_tokens
            &&& start.token == token
            &&& start.separate_reasoning == separate_reasoning
            &&& contents(all_fragments(start, rounds)) == joined(rounds)
        }),
{
    blank_is_in_order(stops, separate_reasoning, prompt_tokens, max_new_tokens, token);
    let start = blank(stops, separate_reasoning, prompt_tokens, max_new_tokens, token);
    answers_are_what_was_drawn(start, rounds);
    listener_gets_the_reply(
        stops,
        separate_reasoning,
        prompt_tokens,
        max_new_tokens,
        token,
        rounds,
    );
}

} // verus!
