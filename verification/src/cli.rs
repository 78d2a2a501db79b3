//! The command line: its arguments, and the messages that they make up.

use crate::text::{str_eq, text_of};
use crate::tokenizer::{TemplateContent, TemplateMessage, TemplatePart};
use vstd::prelude::*;
use vstd::string::*;

verus! {

pub const DEFAULT_PROMPT: &'static str = "Write a hello world program in Rust.";

/// What the command line asks for.
#[derive(Debug)]
pub struct Args {
    pub image_path: Option<String>,
    pub prompt: String,
}

/// The arguments as they are read: the image, and the words of the prompt.
pub struct Reading {
    pub image: Option<Seq<char>>,
    pub words: Seq<Seq<char>>,
}

/// `reading` with the arguments from `i` on, or nothing where an image is
/// announced and no path follows. Of several images, the last counts.
pub open spec fn read_from(args: Seq<String>, i: int, reading: Reading) -> Option<Reading>
    decreases args.len() - i,
{
    if i < 0 || i >= args.len() {
        Some(reading)
    } else if args[i]@ == "--image"@ {
        if i + 1 >= args.len() {
            None
        } else {
            read_from(args, i + 2, Reading { image: Some(args[i + 1]@), ..reading })
        }
    } else {
        read_from(args, i + 1, Reading { words: reading.words.push(args[i]@), ..reading })
    }
}

/// Words with spaces between them.
pub open spec fn spaced(words: Seq<Seq<char>>) -> Seq<char>
    decreases words.len(),
{
    if words.len() == 0 {
        seq![]
    } else if words.len() == 1 {
        words[0]
    } else {
        spaced(words.drop_last()) + " "@ + words.last()
    }
}

/// What arguments ask for.
pub open spec fn asked_for(args: Seq<String>) -> Option<(Option<Seq<char>>, Seq<char>)> {
    match read_from(args, 0, Reading { image: None, words: seq![] }) {
        None => None,
        Some(reading) => Some(
            (
                reading.image,
                if reading.words.len() == 0 {
                    DEFAULT_PROMPT@
                } else {
                    spaced(reading.words)
                },
            ),
        ),
    }
}

/// Reads the arguments that follow the program's name.
pub fn parse_args(args: &Vec<String>) -> (r: Result<Args, String>)
    ensures
        match r {
            Ok(parsed) => asked_for(args@) == Some(
                (text_of(parsed.image_path), parsed.prompt@),
            ),
            Err(message) => asked_for(args@) is None && message@ == "--image requires a path"@,
        },
{
    let mut image_path: Option<String> = None;
    let mut prompt = String::new();
    let mut any = false;
    let ghost mut reading = Reading { image: None, words: seq![] };
    let mut i: usize = 0;
    assert(prompt@ =~= spaced(reading.words));
    while i < args.len()
        invariant
            i <= args@.len(),
            read_from(args@, 0, Reading { image: None, words: seq![] }) == read_from(
                args@,
                i as int,
                reading,
            ),
            reading.image == text_of(image_path),
            any == (reading.words.len() > 0),
            prompt@ == spaced(reading.words),
        decreases args@.len() - i,
    {
        if str_eq(args[i].as_str(), "--image") {
            if args.len() - i < 2 {
                return Err("--image requires a path".to_owned());
            }
            let path = args[i + 1].as_str().to_owned();
            image_path = Some(path);
            proof {
                reading = Reading { image: Some(args@[i + 1]@), ..reading };
            }
            i += 2;
        } else {
            if any {
                prompt.append(" ");
            }
            prompt.append(args[i].as_str());
            any = true;
            proof {
                let words = reading.words.push(args@[i as int]@);
                assert(words.drop_last() =~= reading.words);
                assert(prompt@ =~= spaced(words));
                reading = Reading { words, ..reading };
            }
            i += 1;
        }
    }
    if !any {
        prompt = DEFAULT_PROMPT.to_owned();
    }
    Ok(Args { image_path, prompt })
}

/// The one message of a prompt, with its image before it where it has one.
pub fn build_messages(prompt: &str, has_image: bool) -> (r: Vec<TemplateMessage>)
    ensures
        r@.len() == 1,
        r@[0].role@ == "user"@,
        match r@[0].content {
            TemplateContent::Text(text) => !has_image && text@ == prompt@,
            TemplateContent::Parts(parts) => {
                &&& has_image
                &&& parts@.len() == 2
                &&& parts@[0] is Image
                &&& parts@[1] matches TemplatePart::Text(text)
                &&& text@ == prompt@
            },
        },
{
    let content = if has_image {
        let mut parts: Vec<TemplatePart> = Vec::new();
        parts.push(TemplatePart::Image);
        parts.push(TemplatePart::Text(prompt.to_owned()));
        TemplateContent::Parts(parts)
    } else {
        TemplateContent::Text(prompt.to_owned())
    };
    let mut messages: Vec<TemplateMessage> = Vec::new();
    messages.push(TemplateMessage { role: "user".to_owned(), content });
    messages
}

/// Arguments are read one after the other: a word goes to the prompt, and
/// `--image` takes the argument behind it as the path of the image.
pub proof fn arguments_are_read_in_order(args: Seq<String>)
    ensures
        asked_for(args) is None ==> args.len() > 0 && args.last()@ == "--image"@,
        (forall|i: int| 0 <= i < args.len() ==> (#[trigger] args[i])@ != "--image"@) ==> asked_for(
            args,
        ) == Some(
            (
                None::<Seq<char>>,
                if args.len() == 0 {
                    DEFAULT_PROMPT@
                } else {
                    spaced(Seq::new(args.len(), |i: int| args[i]@))
                },
            ),
        ),
        args.len() == 1 && args[0]@ == "--image"@ ==> asked_for(args) is None,
{
    let none = Reading { image: None, words: seq![] };
    faults_are_at_the_end(args, 0, none);
    if forall|i: int| 0 <= i < args.len() ==> (#[trigger] args[i])@ != "--image"@ {
        words_are_read(args, 0, none);
        assert(none.words + Seq::new(args.len(), |i: int| args[0 + i]@) =~= Seq::new(
            args.len(),
            |i: int| args[i]@,
        ));
    }
}

proof fn faults_are_at_the_end(args: Seq<String>, i: int, reading: Reading)
    requires
        0 <= i,
    ensures
        read_from(args, i, reading) is None ==> args.len() > 0 && args.last()@ == "--image"@,
    decreases args.len() - i,
{
    if i < args.len() {
        if args[i]@ == "--image"@ {
            if i + 1 < args.len() {
                faults_are_at_the_end(
                    args,
                    i + 2,
                    Reading { image: Some(args[i + 1]@), ..reading },
                );
            }
        } else {
            faults_are_at_the_end(
                args,
                i + 1,
                Reading { words: reading.words.push(args[i]@), ..reading },
            );
        }
    }
}

proof fn words_are_read(args: Seq<String>, i: int, reading: Reading)
    requires
        0 <= i <= args.len(),
        forall|k: int| i <= k < args.len() ==> (#[trigger] args[k])@ != "--image"@,
    ensures
        read_from(args, i, reading) == Some(
            Reading {
                words: reading.words + Seq::new(
                    (args.len() - i) as nat,
                    |k: int| args[i + k]@,
                ),
                ..reading
            },
        ),
    decreases args.len() - i,
{
    let more = Seq::new((args.len() - i) as nat, |k: int| args[i + k]@);
    if i < args.len() {
        let next = Reading { words: reading.words.push(args[i]@), ..reading };
        words_are_read(args, i + 1, next);
        let rest = Seq::new((args.len() - (i + 1)) as nat, |k: int| args[i + 1 + k]@);
        assert(next.words + rest =~= reading.words + more);
    } else {
        assert(reading.words + more =~= reading.words);
    }
}

/// An image may be named before the words, between them or behind: the path is
/// the argument behind `--image`, and the words are the others in order.
pub proof fn images_may_stand_anywhere(args: Seq<String>, at: int)
    requires
        0 <= at,
        at + 1 < args.len(),
        args[at]@ == "--image"@,
        forall|k: int|
            0 <= k < args.len() && k != at && k != at + 1 ==> (#[trigger] args[k])@
                != "--image"@,
    ensures
        ({
            let words = Seq::new(
                (args.len() - 2) as nat,
                |k: int|
                    if k < at {
                        args[k]@
                    } else {
                        args[k + 2]@
                    },
            );
            asked_for(args) == Some(
                (
                    Some(args[at + 1]@),
                    if words.len() == 0 {
                        DEFAULT_PROMPT@
                    } else {
                        spaced(words)
                    },
                ),
            )
        }),
{
    let none = Reading { image: None, words: seq![] };
    words_up_to(args, 0, at, none);
    let front = Reading { image: None, words: Seq::new(at as nat, |k: int| args[0 + k]@) };
    assert(none.words + front.words =~= front.words);
    let found = Reading { image: Some(args[at + 1]@), ..front };
    words_are_read(args, at + 2, found);
    let words = Seq::new(
        (args.len() - 2) as nat,
        |k: int|
            if k < at {
                args[k]@
            } else {
                args[k + 2]@
            },
    );
    assert(found.words + Seq::new((args.len() - (at + 2)) as nat, |k: int| args[at + 2 + k]@)
        =~= words);
}

proof fn words_up_to(args: Seq<String>, i: int, at: int, reading: Reading)
    requires
        0 <= i <= at <= args.len(),
        forall|k: int| i <= k < at ==> (#[trigger] args[k])@ != "--image"@,
    ensures
        read_from(args, i, reading) == read_from(
            args,
            at,
            Reading {
                words: reading.words + Seq::new((at - i) as nat, |k: int| args[i + k]@),
                ..reading
            },
        ),
    decreases at - i,
{
    let more = Seq::new((at - i) as nat, |k: int| args[i + k]@);
    if i < at {
        let next = Reading { words: reading.words.push(args[i]@), ..reading };
        words_up_to(args, i + 1, at, next);
        let rest = Seq::new((at - (i + 1)) as nat, |k: int| args[i + 1 + k]@);
        assert(next.words + rest =~= reading.words + more);
    } else {
        assert(reading.words + more =~= reading.words);
    }
}

/// Words are put together with one space between each two, in order.
pub proof fn words_have_one_space_between(words: Seq<Seq<char>>, word: Seq<char>)
    ensures
        spaced(seq![word]) == word,
        words.len() > 0 ==> spaced(words.push(word)) == spaced(words) + seq![' '] + word,
{
    reveal_strlit(" ");
    assert(" "@ =~= seq![' ']);
    assert(words.push(word).drop_last() =~= words);
}

} // verus!
