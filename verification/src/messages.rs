//! Chat messages: their texts, and the image and the audio clip that may come
//! with them.

use crate::audio;
use crate::audio::{AudioFrames, Clip};
use crate::base64::{base64_decode, data_url_bytes, decode_data_url, decoded};
use crate::image;
use crate::image::{may_load, outcome_of, ImagePatches};
use crate::refusal::{bad_request, error, Refusal};
use crate::schema::{ChatMessage, Complaint, ContentPart, MessageContent};
use crate::tokenizer::{
    content_tree, message_tree, message_trees, part_tree, JsonTree, TemplateContent,
    TemplateMessage, TemplatePart,
};
use vstd::prelude::*;
use vstd::string::*;
use vstd::utf8::*;

verus! {

/// What has been gathered of the parts of one message, and of the request's
/// image and audio clip.
pub struct Gathered {
    /// The request has its image.
    pub pictured: bool,
    /// The request's audio clip.
    pub audio: Option<(Clip, nat)>,
    /// The image is in this message.
    pub image_here: bool,
    /// The texts of this message.
    pub texts: Seq<JsonTree>,
    /// The audio clip is in this message.
    pub audio_here: bool,
}

/// What a text part is in JSON.
pub open spec fn text_tree(text: Seq<char>) -> JsonTree {
    JsonTree::Fields(map!["type"@ => JsonTree::Text("text"@), "text"@ => JsonTree::Text(text)])
}

/// `g` with one more part. `shown` is what loading the request's image gives.
pub open spec fn with_part(
    g: Gathered,
    part: ContentPart,
    shown: Result<ImagePatches, Seq<char>>,
) -> Result<Gathered, (u16, Complaint)> {
    match part {
        ContentPart::Text { text } => Ok(Gathered { texts: g.texts.push(text_tree(text@)), ..g }),
        ContentPart::ImageUrl { image_url } => if g.pictured {
            Err(bad_request("only one image per request is supported"@))
        } else {
            match data_url_bytes(image_url.url@) {
                Err(message) => Err(bad_request(message)),
                Ok(_) => match shown {
                    Err(message) => Err(bad_request("could not decode image: "@ + message)),
                    Ok(_) => Ok(Gathered { pictured: true, image_here: true, ..g }),
                },
            }
        },
        ContentPart::InputAudio { input_audio } => if g.audio is Some {
            Err(bad_request("only one audio input per request is supported"@))
        } else {
            match decoded(encode_utf8(input_audio.data@)) {
                Err(message) => Err(bad_request("invalid base64 audio data: "@ + message)),
                Ok(bytes) => match audio::loaded(bytes, input_audio.format@) {
                    Err(message) => Err(bad_request("could not decode audio: "@ + message)),
                    Ok(clip) => Ok(Gathered { audio: Some(clip), audio_here: true, ..g }),
                },
            }
        },
    }
}

/// `g` with more parts.
pub open spec fn with_parts(
    g: Gathered,
    parts: Seq<ContentPart>,
    shown: Result<ImagePatches, Seq<char>>,
) -> Result<Gathered, (u16, Complaint)>
    decreases parts.len(),
{
    if parts.len() == 0 {
        Ok(g)
    } else {
        match with_part(g, parts[0], shown) {
            Err(refusal) => Err(refusal),
            Ok(more) => with_parts(more, parts.drop_first(), shown),
        }
    }
}

/// The content of a message with parts: the image first, then the texts, then
/// the audio clip.
pub open spec fn gathered_tree(g: Gathered) -> JsonTree {
    let image = if g.image_here {
        seq![part_tree(TemplatePart::Image)]
    } else {
        seq![]
    };
    let clip = if g.audio_here {
        seq![part_tree(TemplatePart::Audio)]
    } else {
        seq![]
    };
    JsonTree::List(image + g.texts + clip)
}

/// What messages amount to: the messages in JSON, whether there is an image, and
/// the audio clip.
pub struct Chat {
    pub trees: Seq<JsonTree>,
    pub pictured: bool,
    pub audio: Option<(Clip, nat)>,
}

/// A message of this role and content in JSON.
pub open spec fn chat_tree(role: Seq<char>, content: JsonTree) -> JsonTree {
    JsonTree::Fields(map!["role"@ => JsonTree::Text(role), "content"@ => content])
}

/// `chat` before the parts of its next message.
pub open spec fn fresh(chat: Chat) -> Gathered {
    Gathered {
        pictured: chat.pictured,
        audio: chat.audio,
        image_here: false,
        texts: seq![],
        audio_here: false,
    }
}

/// `chat` with one more message.
pub open spec fn with_message(
    chat: Chat,
    message: ChatMessage,
    shown: Result<ImagePatches, Seq<char>>,
) -> Result<Chat, (u16, Complaint)> {
    match message.content {
        None => Ok(
            Chat {
                trees: chat.trees.push(chat_tree(message.role@, JsonTree::Text(seq![]))),
                ..chat
            },
        ),
        Some(MessageContent::Text(text)) => Ok(
            Chat {
                trees: chat.trees.push(chat_tree(message.role@, JsonTree::Text(text@))),
                ..chat
            },
        ),
        Some(MessageContent::Parts(parts)) => match with_parts(fresh(chat), parts@, shown) {
            Err(refusal) => Err(refusal),
            Ok(g) => Ok(
                Chat {
                    trees: chat.trees.push(chat_tree(message.role@, gathered_tree(g))),
                    pictured: g.pictured,
                    audio: g.audio,
                },
            ),
        },
    }
}

/// `chat` with more messages.
pub open spec fn with_messages(
    chat: Chat,
    messages: Seq<ChatMessage>,
    shown: Result<ImagePatches, Seq<char>>,
) -> Result<Chat, (u16, Complaint)>
    decreases messages.len(),
{
    if messages.len() == 0 {
        Ok(chat)
    } else {
        match with_message(chat, messages[0], shown) {
            Err(refusal) => Err(refusal),
            Ok(more) => with_messages(more, messages.drop_first(), shown),
        }
    }
}

/// What messages amount to.
pub open spec fn chat_of(
    messages: Seq<ChatMessage>,
    shown: Result<ImagePatches, Seq<char>>,
) -> Result<Chat, (u16, Complaint)> {
    with_messages(Chat { trees: seq![], pictured: false, audio: None }, messages, shown)
}

/// What an optional audio clip holds.
pub open spec fn clip_in(audio: Option<AudioFrames>) -> Option<(Clip, nat)> {
    match audio {
        Some(frames) => Some((frames.clip@, frames.samples as nat)),
        None => None,
    }
}

/// The image of a request: the one that was loaded, where it has one.
pub open spec fn shown_image(
    pictured: bool,
    shown: Result<ImagePatches, Seq<char>>,
) -> Option<ImagePatches> {
    if pictured {
        Some(shown->Ok_0)
    } else {
        None
    }
}

/// Messages made ready for the chat template, and what comes with them.
pub struct Prepared {
    pub messages: Vec<TemplateMessage>,
    pub image: Option<ImagePatches>,
    pub audio: Option<AudioFrames>,
}

/// `prepared` holds what `chat` says.
pub open spec fn holds_chat(
    prepared: Prepared,
    chat: Chat,
    shown: Result<ImagePatches, Seq<char>>,
) -> bool {
    &&& message_trees(prepared.messages@) == chat.trees
    &&& prepared.image == shown_image(chat.pictured, shown)
    &&& chat.pictured ==> shown is Ok
    &&& clip_in(prepared.audio) == chat.audio
    &&& prepared.audio matches Some(frames) ==> frames.well_formed()
}

/// The parts of one message as they are gathered.
struct Draft {
    image: Option<ImagePatches>,
    audio: Option<AudioFrames>,
    image_here: bool,
    texts: Vec<TemplatePart>,
    audio_here: bool,
}

spec fn part_trees(parts: Seq<TemplatePart>) -> Seq<JsonTree> {
    Seq::new(parts.len(), |i: int| part_tree(parts[i]))
}

impl View for Draft {
    type V = Gathered;

    closed spec fn view(&self) -> Gathered {
        Gathered {
            pictured: self.image is Some,
            audio: clip_in(self.audio),
            image_here: self.image_here,
            texts: part_trees(self.texts@),
            audio_here: self.audio_here,
        }
    }
}

/// The image is the one that was shown, and is still at hand as long as it has
/// not been used.
spec fn in_step(
    image: Option<ImagePatches>,
    audio: Option<AudioFrames>,
    pending: Option<Result<ImagePatches, String>>,
    shown: Result<ImagePatches, Seq<char>>,
) -> bool {
    &&& image == shown_image(image is Some, shown)
    &&& image is Some ==> shown is Ok
    &&& image is None ==> (pending matches Some(loaded) && outcome_of(loaded) == shown)
    &&& audio matches Some(frames) ==> frames.well_formed()
}

fn joined(first: &str, second: &str) -> (r: String)
    ensures
        r@ == first@ + second@,
{
    let mut text = first.to_owned();
    text.append(second);
    text
}

fn invalid(message: String) -> (r: Refusal)
    ensures
        r@ == bad_request(message@),
{
    error(400, "invalid_request_error", message)
}

impl Draft {
    fn add_part(
        &mut self,
        part: &ContentPart,
        pending: &mut Option<Result<ImagePatches, String>>,
        Ghost(shown): Ghost<Result<ImagePatches, Seq<char>>>,
    ) -> (r: Result<(), Refusal>)
        requires
            in_step(old(self).image, old(self).audio, *old(pending), shown),
        ensures
            match r {
                Ok(()) => {
                    &&& with_part(old(self)@, *part, shown) == Ok::<_, (u16, Complaint)>(
                        final(self)@,
                    )
                    &&& in_step(final(self).image, final(self).audio, *final(pending), shown)
                },
                Err(refusal) => with_part(old(self)@, *part, shown) == Err::<Gathered, _>(
                    refusal@,
                ),
            },
    {
        match part {
            ContentPart::Text { text } => {
                let ghost before = self.texts@;
                let piece = TemplatePart::Text(text.as_str().to_owned());
                self.texts.push(piece);
                assert(part_trees(self.texts@) =~= part_trees(before).push(text_tree(text@)));
                Ok(())
            },
            ContentPart::ImageUrl { image_url } => {
                if self.image.is_some() {
                    return Err(invalid("only one image per request is supported".to_owned()));
                }
                match decode_data_url(image_url.url.as_str()) {
                    Err(message) => Err(invalid(message)),
                    Ok(_) => match pending.take().unwrap() {
                        Err(message) => Err(
                            invalid(joined("could not decode image: ", message.as_str())),
                        ),
                        Ok(patches) => {
                            self.image = Some(patches);
                            self.image_here = true;
                            Ok(())
                        },
                    },
                }
            },
            ContentPart::InputAudio { input_audio } => {
                if self.audio.is_some() {
                    return Err(
                        invalid("only one audio input per request is supported".to_owned()),
                    );
                }
                match base64_decode(input_audio.data.as_str()) {
                    Err(message) => Err(
                        invalid(joined("invalid base64 audio data: ", message.as_str())),
                    ),
                    Ok(bytes) => match audio::load_from_bytes(
                        bytes.as_slice(),
                        input_audio.format.as_str(),
                    ) {
                        Err(message) => Err(
                            invalid(joined("could not decode audio: ", message.as_str())),
                        ),
                        Ok(frames) => {
                            self.audio = Some(frames);
                            self.audio_here = true;
                            Ok(())
                        },
                    },
                }
            },
        }
    }
}

/// The content that gathered parts make up.
fn arrange(texts: Vec<TemplatePart>, image_here: bool, audio_here: bool) -> (r: TemplateContent)
    ensures
        forall|pictured: bool, audio: Option<(Clip, nat)>|
            content_tree(r) == #[trigger] gathered_tree(
                Gathered { pictured, audio, image_here, texts: part_trees(texts@), audio_here },
            ),
{
    let ghost trees = part_trees(texts@);
    let mut parts = texts;
    if image_here {
        parts.insert(0, TemplatePart::Image);
        assert(part_trees(parts@) =~= seq![part_tree(TemplatePart::Image)] + trees);
    }
    let ghost before = parts@;
    if audio_here {
        parts.push(TemplatePart::Audio);
        assert(part_trees(parts@) =~= part_trees(before) + seq![part_tree(TemplatePart::Audio)]);
    }
    let ghost image = if image_here {
        seq![part_tree(TemplatePart::Image)]
    } else {
        seq![]
    };
    let ghost clip = if audio_here {
        seq![part_tree(TemplatePart::Audio)]
    } else {
        seq![]
    };
    assert(part_trees(parts@) =~= image + trees + clip);
    let r = TemplateContent::Parts(parts);
    assert(content_tree(r) == JsonTree::List(part_trees(parts@)));
    r
}

/// Makes messages ready, where `loaded` is what loading the request's image gave.
/// Without an image that can be loaded, `loaded` is not looked at.
pub fn assemble_messages(messages: &Vec<ChatMessage>, loaded: Result<ImagePatches, String>) -> (r:
    Result<Prepared, Refusal>)
    ensures
        match r {
            Ok(prepared) => {
                let chat = chat_of(messages@, outcome_of(loaded));
                chat is Ok && holds_chat(prepared, chat->Ok_0, outcome_of(loaded))
            },
            Err(refusal) => chat_of(messages@, outcome_of(loaded)) == Err::<Chat, _>(refusal@),
        },
{
    let ghost shown = outcome_of(loaded);
    let mut pending: Option<Result<ImagePatches, String>> = Some(loaded);
    let mut image: Option<ImagePatches> = None;
    let mut audio: Option<AudioFrames> = None;
    let mut out: Vec<TemplateMessage> = Vec::new();
    let ghost mut chat = Chat { trees: seq![], pictured: false, audio: None };
    let mut i: usize = 0;
    assert(messages@.skip(0) == messages@);
    assert(message_trees(out@) =~= seq![]);
    while i < messages.len()
        invariant
            i <= messages@.len(),
            shown == outcome_of(loaded),
            chat_of(messages@, shown) == with_messages(chat, messages@.skip(i as int), shown),
            chat.trees == message_trees(out@),
            chat.pictured == (image is Some),
            chat.audio == clip_in(audio),
            in_step(image, audio, pending, shown),
        decreases messages@.len() - i,
    {
        let message = &messages[i];
        let ghost rest = messages@.skip(i as int);
        assert(rest[0] == *message);
        assert(rest.drop_first() == messages@.skip(i + 1));
        let ghost next = with_message(chat, *message, shown);
        let content = match &message.content {
            None => {
                let text = String::new();
                assert(text@ =~= seq![]);
                TemplateContent::Text(text)
            },
            Some(MessageContent::Text(text)) => TemplateContent::Text(text.as_str().to_owned()),
            Some(MessageContent::Parts(parts)) => {
                let mut draft = Draft {
                    image,
                    audio,
                    image_here: false,
                    texts: Vec::new(),
                    audio_here: false,
                };
                assert(draft@.texts =~= seq![]);
                let mut k: usize = 0;
                assert(parts@.skip(0) == parts@);
                while k < parts.len()
                    invariant
                        k <= parts@.len(),
                        shown == outcome_of(loaded),
                        with_parts(fresh(chat), parts@, shown) == with_parts(
                            draft@,
                            parts@.skip(k as int),
                            shown,
                        ),
                        in_step(draft.image, draft.audio, pending, shown),
                        *message == rest[0],
                        rest.len() > 0,
                        message.content == Some(MessageContent::Parts(*parts)),
                        chat_of(messages@, shown) == with_messages(chat, rest, shown),
                    decreases parts@.len() - k,
                {
                    assert(parts@.skip(k as int).drop_first() == parts@.skip(k + 1));
                    assert(parts@.skip(k as int)[0] == parts@[k as int]);
                    if let Err(refusal) = draft.add_part(&parts[k], &mut pending, Ghost(shown)) {
                        return Err(refusal);
                    }
                    k += 1;
                }
                let ghost gathered = draft@;
                let content = arrange(draft.texts, draft.image_here, draft.audio_here);
                assert(content_tree(content) == gathered_tree(gathered));
                image = draft.image;
                audio = draft.audio;
                content
            },
        };
        let ghost before = out@;
        let made = TemplateMessage { role: message.role.as_str().to_owned(), content };
        out.push(made);
        assert(message_tree(made) == chat_tree(message.role@, content_tree(made.content)));
        assert(message_trees(out@) =~= message_trees(before).push(message_tree(made)));
        proof {
            chat = next->Ok_0;
        }
        i += 1;
    }
    Ok(Prepared { messages: out, image, audio })
}

/// The address of the first image among parts.
pub open spec fn first_url(parts: Seq<ContentPart>) -> Option<Seq<char>>
    decreases parts.len(),
{
    if parts.len() == 0 {
        None
    } else {
        match parts[0] {
            ContentPart::ImageUrl { image_url } => Some(image_url.url@),
            _ => first_url(parts.drop_first()),
        }
    }
}

/// The address of the first image in messages.
pub open spec fn first_picture(messages: Seq<ChatMessage>) -> Option<Seq<char>>
    decreases messages.len(),
{
    if messages.len() == 0 {
        None
    } else {
        let here = match messages[0].content {
            Some(MessageContent::Parts(parts)) => first_url(parts@),
            _ => None,
        };
        match here {
            Some(url) => Some(url),
            None => first_picture(messages.drop_first()),
        }
    }
}

fn find_url<'a>(parts: &'a Vec<ContentPart>) -> (r: Option<&'a String>)
    ensures
        match r {
            Some(url) => first_url(parts@) == Some(url@),
            None => first_url(parts@) is None,
        },
{
    let mut k: usize = 0;
    assert(parts@.skip(0) == parts@);
    while k < parts.len()
        invariant
            k <= parts@.len(),
            first_url(parts@) == first_url(parts@.skip(k as int)),
        decreases parts@.len() - k,
    {
        assert(parts@.skip(k as int).drop_first() == parts@.skip(k + 1));
        if let ContentPart::ImageUrl { image_url } = &parts[k] {
            return Some(&image_url.url);
        }
        k += 1;
    }
    None
}

fn find_picture<'a>(messages: &'a Vec<ChatMessage>) -> (r: Option<&'a String>)
    ensures
        match r {
            Some(url) => first_picture(messages@) == Some(url@),
            None => first_picture(messages@) is None,
        },
{
    let mut i: usize = 0;
    assert(messages@.skip(0) == messages@);
    while i < messages.len()
        invariant
            i <= messages@.len(),
            first_picture(messages@) == first_picture(messages@.skip(i as int)),
        decreases messages@.len() - i,
    {
        assert(messages@.skip(i as int).drop_first() == messages@.skip(i + 1));
        if let Some(MessageContent::Parts(parts)) = &messages[i].content {
            if let Some(url) = find_url(parts) {
                return Some(url);
            }
        }
        i += 1;
    }
    None
}

/// `shown` is what loading the first image of `messages` may give.
pub open spec fn may_show(
    messages: Seq<ChatMessage>,
    shown: Result<ImagePatches, Seq<char>>,
) -> bool {
    first_picture(messages) matches Some(url) ==> (data_url_bytes(url) matches Ok(bytes)
        ==> may_load(bytes, shown))
}

/// What making `messages` ready may give.
pub open spec fn may_prepare(messages: Seq<ChatMessage>, r: Result<Prepared, Refusal>) -> bool {
    exists|shown: Result<ImagePatches, Seq<char>>|
        {
            &&& #[trigger] may_show(messages, shown)
            &&& match r {
                Ok(prepared) => {
                    let chat = chat_of(messages, shown);
                    chat is Ok && holds_chat(prepared, chat->Ok_0, shown)
                },
                Err(refusal) => chat_of(messages, shown) == Err::<Chat, _>(refusal@),
            }
        }
}

/// Loads the first image of `messages`, where there is one that can be decoded.
fn load_picture(messages: &Vec<ChatMessage>) -> (r: Result<ImagePatches, String>)
    ensures
        may_show(messages@, outcome_of(r)),
{
    match find_picture(messages) {
        None => Err(String::new()),
        Some(url) => match decode_data_url(url.as_str()) {
            Err(message) => Err(message),
            Ok(bytes) => image::load_from_bytes(bytes.as_slice()),
        },
    }
}

/// Makes messages ready for the chat template: decodes the image and the audio
/// clip that come with them, at most one of each.
pub fn build_chat_messages(messages: &Vec<ChatMessage>) -> (r: Result<Prepared, Refusal>)
    ensures
        may_prepare(messages@, r),
{
    let loaded = load_picture(messages);
    let ghost shown = outcome_of(loaded);
    let r = assemble_messages(messages, loaded);
    assert(may_show(messages@, shown));
    r
}

/// Every message of a request is kept, in its place.
pub proof fn every_message_is_kept(
    chat: Chat,
    messages: Seq<ChatMessage>,
    shown: Result<ImagePatches, Seq<char>>,
)
    ensures
        with_messages(chat, messages, shown) matches Ok(more) ==> {
            &&& more.trees.len() == chat.trees.len() + messages.len()
            &&& more.trees.take(chat.trees.len() as int) == chat.trees
            &&& chat.pictured ==> more.pictured
        },
    decreases messages.len(),
{
    if messages.len() > 0 {
        if let Ok(next) = with_message(chat, messages[0], shown) {
            every_message_is_kept(next, messages.drop_first(), shown);
            if let Some(MessageContent::Parts(parts)) = messages[0].content {
                parts_keep_the_image(fresh(chat), parts@, shown);
            }
            if let Ok(more) = with_messages(chat, messages, shown) {
                let n = chat.trees.len() as int;
                assert(more.trees.take(n) =~= more.trees.take(n + 1).take(n));
                assert(next.trees.take(n) =~= chat.trees);
            }
        }
    } else {
        assert(chat.trees.take(chat.trees.len() as int) =~= chat.trees);
    }
}

proof fn parts_keep_the_image(
    g: Gathered,
    parts: Seq<ContentPart>,
    shown: Result<ImagePatches, Seq<char>>,
)
    ensures
        with_parts(g, parts, shown) matches Ok(more) ==> (g.pictured ==> more.pictured),
    decreases parts.len(),
{
    if parts.len() > 0 {
        if let Ok(more) = with_part(g, parts[0], shown) {
            parts_keep_the_image(more, parts.drop_first(), shown);
        }
    }
}

/// There is an image among parts.
pub open spec fn shows(parts: Seq<ContentPart>) -> bool {
    exists|k: int| 0 <= k < parts.len() && #[trigger] parts[k] is ImageUrl
}

/// There is an audio clip among parts.
pub open spec fn sounds(parts: Seq<ContentPart>) -> bool {
    exists|k: int| 0 <= k < parts.len() && #[trigger] parts[k] is InputAudio
}

/// The texts among parts, in order, as the chat template takes them.
pub open spec fn texts_in(parts: Seq<ContentPart>) -> Seq<JsonTree>
    decreases parts.len(),
{
    if parts.len() == 0 {
        seq![]
    } else {
        match parts.last() {
            ContentPart::Text { text } => texts_in(parts.drop_last()).push(
                JsonTree::Fields(
                    map!["type"@ => JsonTree::Text("text"@), "text"@ => JsonTree::Text(text@)],
                ),
            ),
            _ => texts_in(parts.drop_last()),
        }
    }
}

proof fn texts_in_order(a: Seq<ContentPart>, b: Seq<ContentPart>)
    ensures
        texts_in(a + b) == texts_in(a) + texts_in(b),
    decreases b.len(),
{
    if b.len() == 0 {
        assert(a + b =~= a);
        assert(texts_in(a) + texts_in(b) =~= texts_in(a));
    } else {
        assert((a + b).drop_last() =~= a + b.drop_last());
        texts_in_order(a, b.drop_last());
        assert(texts_in(a + b) =~= texts_in(a) + texts_in(b));
    }
}

/// What the chat template takes for a message: its role, and its text, none where
/// it has no content; or the image first, then the texts in order, then the audio
/// clip.
pub open spec fn described(message: ChatMessage) -> JsonTree {
    let content = match message.content {
        None => JsonTree::Text(seq![]),
        Some(MessageContent::Text(text)) => JsonTree::Text(text@),
        Some(MessageContent::Parts(parts)) => JsonTree::List(
            (if shows(parts@) {
                seq![JsonTree::Fields(map!["type"@ => JsonTree::Text("image"@)])]
            } else {
                seq![]
            }) + texts_in(parts@) + if sounds(parts@) {
                seq![JsonTree::Fields(map!["type"@ => JsonTree::Text("audio"@)])]
            } else {
                seq![]
            },
        ),
    };
    JsonTree::Fields(map!["role"@ => JsonTree::Text(message.role@), "content"@ => content])
}

/// The parts of a message.
pub open spec fn parts_of(message: ChatMessage) -> Seq<ContentPart> {
    match message.content {
        Some(MessageContent::Parts(parts)) => parts@,
        _ => seq![],
    }
}

/// A part may be taken: a text always; an image where its data can be decoded and
/// it can be loaded; a clip where its data can be decoded and it is `audio`.
pub open spec fn part_is_taken(
    part: ContentPart,
    shown: Result<ImagePatches, Seq<char>>,
    audio: Option<(Clip, nat)>,
) -> bool {
    match part {
        ContentPart::Text { text } => true,
        ContentPart::ImageUrl { image_url } => data_url_bytes(image_url.url@) is Ok && shown is Ok,
        ContentPart::InputAudio { input_audio } => {
            &&& decoded(encode_utf8(input_audio.data@)) matches Ok(bytes)
            &&& audio::loaded(bytes, input_audio.format@) matches Ok(clip)
            &&& audio == Some(clip)
        },
    }
}

/// Parts are gathered where each can be taken, and there is at most one image and
/// one clip in all.
proof fn parts_are_gathered(
    g: Gathered,
    parts: Seq<ContentPart>,
    shown: Result<ImagePatches, Seq<char>>,
)
    ensures
        with_parts(g, parts, shown) matches Ok(more) ==> {
            &&& more.texts == g.texts + texts_in(parts)
            &&& more.image_here <==> g.image_here || shows(parts)
            &&& more.audio_here <==> g.audio_here || sounds(parts)
            &&& more.pictured <==> g.pictured || shows(parts)
            &&& more.audio is Some <==> g.audio is Some || sounds(parts)
            &&& !sounds(parts) ==> more.audio == g.audio
            &&& g.pictured ==> !shows(parts)
            &&& g.audio is Some ==> !sounds(parts)
            &&& forall|k: int|
                0 <= k < parts.len() ==> part_is_taken(#[trigger] parts[k], shown, more.audio)
            &&& forall|j: int, k: int|
                0 <= j < k < parts.len() ==> !(#[trigger] parts[j] is ImageUrl
                    && #[trigger] parts[k] is ImageUrl) && !(parts[j] is InputAudio
                    && parts[k] is InputAudio)
        },
        (forall|k: int| 0 <= k < parts.len() ==> #[trigger] parts[k] is Text) ==> with_parts(
            g,
            parts,
            shown,
        ) is Ok,
    decreases parts.len(),
{
    if parts.len() == 0 {
        assert(g.texts + texts_in(parts) =~= g.texts);
    } else {
        let rest = parts.drop_first();
        let first = seq![parts[0]];
        assert(parts =~= first + rest);
        texts_in_order(first, rest);
        assert(first.drop_last() =~= seq![]);
        assert(texts_in(first.drop_last()) =~= seq![]);
        assert forall|k: int| 0 < k < parts.len() implies #[trigger] parts[k] == rest[k - 1] by {
        }
        assert(shows(parts) <==> parts[0] is ImageUrl || shows(rest)) by {
            if shows(rest) {
                let k = choose|k: int| 0 <= k < rest.len() && #[trigger] rest[k] is ImageUrl;
                assert(parts[k + 1] is ImageUrl);
            }
            if shows(parts) {
                let k = choose|k: int| 0 <= k < parts.len() && #[trigger] parts[k] is ImageUrl;
                if k > 0 {
                    assert(rest[k - 1] is ImageUrl);
                }
            }
        }
        assert(sounds(parts) <==> parts[0] is InputAudio || sounds(rest)) by {
            if sounds(rest) {
                let k = choose|k: int| 0 <= k < rest.len() && #[trigger] rest[k] is InputAudio;
                assert(parts[k + 1] is InputAudio);
            }
            if sounds(parts) {
                let k = choose|k: int| 0 <= k < parts.len() && #[trigger] parts[k] is InputAudio;
                if k > 0 {
                    assert(rest[k - 1] is InputAudio);
                }
            }
        }
        if let Ok(next) = with_part(g, parts[0], shown) {
            parts_are_gathered(next, rest, shown);
            if let Ok(more) = with_parts(g, parts, shown) {
                assert(more.texts =~= g.texts + texts_in(parts));
                assert forall|k: int| 0 <= k < parts.len() implies part_is_taken(
                    #[trigger] parts[k],
                    shown,
                    more.audio,
                ) by {
                    if k > 0 {
                        assert(parts[k] == rest[k - 1]);
                    }
                }
                assert forall|j: int, k: int| 0 <= j < k < parts.len() implies !(
                #[trigger] parts[j] is ImageUrl && #[trigger] parts[k] is ImageUrl) && !(
                parts[j] is InputAudio && parts[k] is InputAudio) by {
                    assert(parts[k] == rest[k - 1]);
                    if j > 0 {
                        assert(parts[j] == rest[j - 1]);
                    } else {
                        if parts[0] is ImageUrl && parts[k] is ImageUrl {
                            assert(shows(rest));
                        }
                        if parts[0] is InputAudio && parts[k] is InputAudio {
                            assert(sounds(rest));
                        }
                    }
                }
            }
        }
        if forall|k: int| 0 <= k < parts.len() ==> #[trigger] parts[k] is Text {
            assert(parts[0] is Text);
            assert forall|k: int| 0 <= k < rest.len() implies #[trigger] rest[k] is Text by {
                assert(parts[k + 1] is Text);
            }
        }
    }
}

/// Messages are taken in order, each as it is described, with the image and the
/// clip of the one message that has them.
proof fn messages_are_gathered(
    chat: Chat,
    messages: Seq<ChatMessage>,
    shown: Result<ImagePatches, Seq<char>>,
)
    ensures
        with_messages(chat, messages, shown) matches Ok(more) ==> {
            &&& more.trees == chat.trees + Seq::new(
                messages.len(),
                |i: int| described(messages[i]),
            )
            &&& more.pictured <==> chat.pictured || exists|i: int|
                0 <= i < messages.len() && shows(parts_of(#[trigger] messages[i]))
            &&& more.audio is Some <==> chat.audio is Some || exists|i: int|
                0 <= i < messages.len() && sounds(parts_of(#[trigger] messages[i]))
            &&& chat.pictured ==> forall|i: int|
                0 <= i < messages.len() ==> !shows(parts_of(#[trigger] messages[i]))
            &&& chat.audio is Some ==> forall|i: int|
                0 <= i < messages.len() ==> !sounds(parts_of(#[trigger] messages[i]))
            &&& chat.audio is Some ==> more.audio == chat.audio
            &&& forall|i: int, k: int|
                0 <= i < messages.len() && 0 <= k < parts_of(messages[i]).len() ==> part_is_taken(
                    #[trigger] parts_of(messages[i])[k],
                    shown,
                    more.audio,
                )
            &&& forall|i: int, j: int|
                0 <= i < j < messages.len() ==> !(shows(parts_of(#[trigger] messages[i])) && shows(
                    parts_of(#[trigger] messages[j]),
                )) && !(sounds(parts_of(messages[i])) && sounds(parts_of(messages[j])))
        },
        (forall|i: int, k: int|
            0 <= i < messages.len() && 0 <= k < parts_of(messages[i]).len()
                ==> #[trigger] parts_of(messages[i])[k] is Text) ==> with_messages(
            chat,
            messages,
            shown,
        ) is Ok,
    decreases messages.len(),
{
    let trees = Seq::new(messages.len(), |i: int| described(messages[i]));
    if messages.len() == 0 {
        assert(chat.trees + trees =~= chat.trees);
    } else {
        let rest = messages.drop_first();
        let parts = parts_of(messages[0]);
        assert forall|i: int| 0 < i < messages.len() implies #[trigger] messages[i] == rest[i
            - 1] by {
        }
        parts_are_gathered(fresh(chat), parts, shown);
        if let Ok(next) = with_message(chat, messages[0], shown) {
            assert(Seq::<JsonTree>::empty() + texts_in(parts) =~= texts_in(parts));
            assert(next.trees =~= chat.trees.push(described(messages[0])));
            messages_are_gathered(next, rest, shown);
            if let Ok(more) = with_messages(chat, messages, shown) {
                let later = Seq::new(rest.len(), |i: int| described(rest[i]));
                assert(next.trees + later =~= chat.trees + trees);
                if exists|i: int| 0 <= i < rest.len() && shows(parts_of(#[trigger] rest[i])) {
                    let i = choose|i: int|
                        0 <= i < rest.len() && shows(parts_of(#[trigger] rest[i]));
                    assert(shows(parts_of(messages[i + 1])));
                }
                if exists|i: int| 0 <= i < rest.len() && sounds(parts_of(#[trigger] rest[i])) {
                    let i = choose|i: int|
                        0 <= i < rest.len() && sounds(parts_of(#[trigger] rest[i]));
                    assert(sounds(parts_of(messages[i + 1])));
                }
                if exists|i: int|
                    0 <= i < messages.len() && shows(parts_of(#[trigger] messages[i])) {
                    let i = choose|i: int|
                        0 <= i < messages.len() && shows(parts_of(#[trigger] messages[i]));
                    if i > 0 {
                        assert(shows(parts_of(rest[i - 1])));
                    }
                }
                if exists|i: int|
                    0 <= i < messages.len() && sounds(parts_of(#[trigger] messages[i])) {
                    let i = choose|i: int|
                        0 <= i < messages.len() && sounds(parts_of(#[trigger] messages[i]));
                    if i > 0 {
                        assert(sounds(parts_of(rest[i - 1])));
                    }
                }
                assert forall|i: int, k: int|
                    0 <= i < messages.len() && 0 <= k < parts_of(messages[i]).len() implies part_is_taken(
                    #[trigger] parts_of(messages[i])[k],
                    shown,
                    more.audio,
                ) by {
                    if i > 0 {
                        assert(messages[i] == rest[i - 1]);
                        assert(part_is_taken(parts_of(rest[i - 1])[k], shown, more.audio));
                    } else {
                        if parts[k] is InputAudio {
                            assert(sounds(parts));
                            assert(next.audio is Some);
                        }
                    }
                }
                assert forall|i: int, j: int| 0 <= i < j < messages.len() implies !(shows(
                    parts_of(#[trigger] messages[i]),
                ) && shows(parts_of(#[trigger] messages[j]))) && !(sounds(parts_of(messages[i]))
                    && sounds(parts_of(messages[j]))) by {
                    assert(messages[j] == rest[j - 1]);
                    if i > 0 {
                        assert(messages[i] == rest[i - 1]);
                    }
                }
            }
        }
        if forall|i: int, k: int|
            0 <= i < messages.len() && 0 <= k < parts_of(messages[i]).len()
                ==> #[trigger] parts_of(messages[i])[k] is Text {
            assert forall|k: int| 0 <= k < parts.len() implies #[trigger] parts[k] is Text by {
                assert(parts_of(messages[0])[k] is Text);
            }
            assert forall|i: int, k: int|
                0 <= i < rest.len() && 0 <= k < parts_of(
                    rest[i],
                ).len() implies #[trigger] parts_of(rest[i])[k] is Text by {
                assert(parts_of(messages[i + 1])[k] is Text);
            }
        }
    }
}

/// What messages amount to: each is there, in order, with its role and its
/// content as it is described; there is at most one image and at most one clip in
/// all of them, and the clip is the one that its data decodes to. Messages of
/// texts alone are never turned down.
pub proof fn chats_say_what_the_messages_say(
    messages: Seq<ChatMessage>,
    shown: Result<ImagePatches, Seq<char>>,
)
    ensures
        chat_of(messages, shown) matches Ok(chat) ==> {
            &&& chat.trees.len() == messages.len()
            &&& forall|i: int|
                0 <= i < messages.len() ==> #[trigger] chat.trees[i] == described(messages[i])
            &&& chat.pictured <==> exists|i: int|
                0 <= i < messages.len() && shows(parts_of(#[trigger] messages[i]))
            &&& chat.audio is Some <==> exists|i: int|
                0 <= i < messages.len() && sounds(parts_of(#[trigger] messages[i]))
            &&& forall|i: int, k: int|
                0 <= i < messages.len() && 0 <= k < parts_of(messages[i]).len() ==> part_is_taken(
                    #[trigger] parts_of(messages[i])[k],
                    shown,
                    chat.audio,
                )
            &&& forall|i: int, j: int|
                0 <= i < j < messages.len() ==> !(shows(parts_of(#[trigger] messages[i])) && shows(
                    parts_of(#[trigger] messages[j]),
                )) && !(sounds(parts_of(messages[i])) && sounds(parts_of(messages[j])))
        },
        (forall|i: int, k: int|
            0 <= i < messages.len() && 0 <= k < parts_of(messages[i]).len()
                ==> #[trigger] parts_of(messages[i])[k] is Text) ==> chat_of(
            messages,
            shown,
        ) is Ok,
{
    let none = Chat { trees: seq![], pictured: false, audio: None };
    messages_are_gathered(none, messages, shown);
    let trees = Seq::new(messages.len(), |i: int| described(messages[i]));
    assert(none.trees + trees =~= trees);
}

/// The image of a request is the first one in the first message that has one.
pub proof fn first_pictures_are_first(parts: Seq<ContentPart>)
    ensures
        match first_url(parts) {
            Some(url) => exists|k: int|
                {
                    &&& 0 <= k < parts.len()
                    &&& #[trigger] parts[k] matches ContentPart::ImageUrl { image_url }
                    &&& image_url.url@ == url
                    &&& forall|j: int| 0 <= j < k ==> !(#[trigger] parts[j] is ImageUrl)
                },
            None => !shows(parts),
        },
    decreases parts.len(),
{
    if parts.len() > 0 {
        let rest = parts.drop_first();
        if let ContentPart::ImageUrl { image_url } = parts[0] {
            assert(image_url.url@ == first_url(parts)->0);
        } else {
            first_pictures_are_first(rest);
            assert forall|k: int| 0 < k < parts.len() implies #[trigger] parts[k] == rest[k
                - 1] by {
            }
            match first_url(parts) {
                Some(url) => {
                    let k = choose|k: int|
                        {
                            &&& 0 <= k < rest.len()
                            &&& #[trigger] rest[k] matches ContentPart::ImageUrl { image_url }
                            &&& image_url.url@ == url
                            &&& forall|j: int| 0 <= j < k ==> !(#[trigger] rest[j] is ImageUrl)
                        };
                    assert(parts[k + 1] == rest[k]);
                },
                None => {
                    if shows(parts) {
                        let k = choose|k: int|
                            0 <= k < parts.len() && #[trigger] parts[k] is ImageUrl;
                        assert(rest[k - 1] is ImageUrl);
                    }
                },
            }
        }
    }
}

/// The image of a request is looked for in its messages in order.
pub proof fn first_messages_come_first(messages: Seq<ChatMessage>)
    ensures
        match first_picture(messages) {
            Some(url) => exists|i: int|
                {
                    &&& 0 <= i < messages.len()
                    &&& first_url(parts_of(#[trigger] messages[i])) == Some(url)
                    &&& forall|j: int| 0 <= j < i ==> !shows(parts_of(#[trigger] messages[j]))
                },
            None => forall|j: int| 0 <= j < messages.len() ==> !shows(
                parts_of(#[trigger] messages[j]),
            ),
        },
    decreases messages.len(),
{
    if messages.len() > 0 {
        let rest = messages.drop_first();
        first_pictures_are_first(parts_of(messages[0]));
        first_messages_come_first(rest);
        assert forall|i: int| 0 < i < messages.len() implies #[trigger] messages[i] == rest[i
            - 1] by {
        }
        if first_url(parts_of(messages[0])) is None {
            if let Some(url) = first_picture(messages) {
                let i = choose|i: int|
                    {
                        &&& 0 <= i < rest.len()
                        &&& first_url(parts_of(#[trigger] rest[i])) == Some(url)
                        &&& forall|j: int| 0 <= j < i ==> !shows(parts_of(#[trigger] rest[j]))
                    };
                assert(messages[i + 1] == rest[i]);
            }
        } else {
            assert(first_url(parts_of(messages[0])) == first_picture(messages));
        }
    }
}

/// Messages that are made ready say, message by message, what was asked; the
/// image is there where a message has one, and is what loading the first one
/// gives; the clip likewise is the one that its data decodes to.
pub proof fn prepared_chats_say_what_was_asked(
    messages: Seq<ChatMessage>,
    prepared: Prepared,
    url: Seq<char>,
    bytes: Seq<u8>,
)
    requires
        may_prepare(messages, Ok(prepared)),
    ensures
        message_trees(prepared.messages@).len() == messages.len(),
        forall|i: int|
            0 <= i < messages.len() ==> #[trigger] message_trees(prepared.messages@)[i]
                == described(messages[i]),
        prepared.image is Some <==> exists|i: int|
            0 <= i < messages.len() && shows(parts_of(#[trigger] messages[i])),
        prepared.audio is Some <==> exists|i: int|
            0 <= i < messages.len() && sounds(parts_of(#[trigger] messages[i])),
        prepared.image is Some && first_picture(messages) == Some(url) && data_url_bytes(url)
            == Ok::<_, Seq<char>>(bytes) ==> may_load(bytes, Ok(prepared.image->0)),
        forall|i: int, k: int|
            0 <= i < messages.len() && 0 <= k < parts_of(messages[i]).len() ==> (
            #[trigger] parts_of(messages[i])[k] matches ContentPart::InputAudio { input_audio }
                ==> {
                &&& decoded(encode_utf8(input_audio.data@)) matches Ok(data)
                &&& prepared.audio matches Some(frames)
                &&& audio::loaded(data, input_audio.format@) == Ok::<_, Seq<char>>(
                    (frames.clip@, frames.samples as nat),
                )
            }),
{
    let shown = choose|shown: Result<ImagePatches, Seq<char>>|
        {
            &&& #[trigger] may_show(messages, shown)
            &&& chat_of(messages, shown) is Ok
            &&& holds_chat(prepared, chat_of(messages, shown)->Ok_0, shown)
        };
    chats_say_what_the_messages_say(messages, shown);
    let chat = chat_of(messages, shown)->Ok_0;
    assert forall|i: int, k: int|
        0 <= i < messages.len() && 0 <= k < parts_of(messages[i]).len() implies (
    #[trigger] parts_of(messages[i])[k] matches ContentPart::InputAudio { input_audio } ==> {
        &&& decoded(encode_utf8(input_audio.data@)) matches Ok(data)
        &&& prepared.audio matches Some(frames)
        &&& audio::loaded(data, input_audio.format@) == Ok::<_, Seq<char>>(
            (frames.clip@, frames.samples as nat),
        )
    }) by {
        assert(part_is_taken(parts_of(messages[i])[k], shown, chat.audio));
    }
}

} // verus!
