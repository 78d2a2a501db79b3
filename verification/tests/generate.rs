use gemma4_serving::audio::{AudioFrames, SampleFormat, WavClip};
use gemma4_serving::generate::{
    splice_multimodal_tokens, suppressed_tokens, Delta, Feed, FinishReason, Generation,
    GenerationOutput, GenerationRequest, SoftToken, AUDIO_TOKEN, BOA_TOKEN, BOI_TOKEN, EOA_TOKEN,
    EOI_TOKEN, EOS_TOKEN, IMAGE_TOKEN,
};
use gemma4_serving::image::ImagePatches;
use gemma4_serving::sampling::SamplingConfig;
use gemma4_serving::stops::{find_stop, pending_stop_overlap};

fn chars(text: &str) -> Vec<char> {
    text.chars().collect()
}

fn patches(n: usize) -> ImagePatches {
    ImagePatches { pixels: vec![vec![0; 6912]; n], positions: vec![(0, 0); n] }
}

fn clip(instants: usize) -> AudioFrames {
    AudioFrames {
        clip: WavClip {
            sample_rate: 16_000,
            channels: 1,
            format: SampleFormat::Signed16,
            samples: vec![0; instants],
        },
        samples: instants,
    }
}

/// Runs a reply over tokens and their texts; the listener leaves after `patience` pieces.
fn run(
    stops: &[&str],
    separate: bool,
    max_new: usize,
    rounds: &[(usize, Option<&str>)],
    patience: usize,
) -> (Vec<Delta>, GenerationOutput, Vec<usize>) {
    let stop_strings: Vec<String> = stops.iter().map(|s| s.to_string()).collect();
    let mut deltas = Vec::new();
    let mut positions = Vec::new();
    let mut rounds = rounds.iter();
    let (mut token, mut piece) = *rounds.next().unwrap();
    let mut generation = Generation::start(&stop_strings, separate, 10, max_new, token);
    while generation.wants_token() {
        let delta = generation.take(piece.map(|text| text.to_owned()));
        let mut heard = true;
        if let Some(delta) = delta {
            deltas.push(delta);
            heard = deltas.len() < patience;
        }
        let Some(pos) = generation.proceed(heard) else { break };
        positions.push(pos);
        let next = rounds.next().unwrap();
        token = next.0;
        piece = next.1;
        generation.draw(token);
        assert_eq!(generation.token(), token);
    }
    let (rest, output) = generation.finish();
    deltas.extend(rest);
    (deltas, output, positions)
}

fn content(deltas: &[Delta]) -> String {
    deltas
        .iter()
        .map(|delta| match delta {
            Delta::Content(text) => text.as_str(),
            Delta::Reasoning(_) => "",
        })
        .collect()
}

fn reasoning(deltas: &[Delta]) -> String {
    deltas
        .iter()
        .map(|delta| match delta {
            Delta::Content(_) => "",
            Delta::Reasoning(text) => text.as_str(),
        })
        .collect()
}

#[test]
fn plain_reply_ends_at_eos() {
    let (deltas, output, positions) =
        run(&[], false, 8, &[(7, Some("Hello")), (8, Some(" world")), (EOS_TOKEN, None)], 100);
    assert_eq!(output.text, "Hello world");
    assert_eq!(content(&deltas), "Hello world");
    assert_eq!(deltas.len(), 2);
    assert_eq!(output.reasoning, "");
    assert_eq!(output.prompt_tokens, 10);
    assert_eq!(output.completion_tokens, 2);
    assert_eq!(output.finish_reason, FinishReason::Stop);
    assert_eq!(positions, vec![10, 11]);
}

#[test]
fn reply_ends_at_the_last_token_allowed() {
    let (deltas, output, positions) = run(&[], false, 2, &[(7, Some("a")), (8, Some("b"))], 100);
    assert_eq!(output.text, "ab");
    assert_eq!(content(&deltas), "ab");
    assert_eq!(output.completion_tokens, 2);
    assert_eq!(output.finish_reason, FinishReason::Length);
    assert_eq!(positions, vec![10]);
}

#[test]
fn nothing_allowed_ends_for_length() {
    let (deltas, output, _) = run(&[], false, 0, &[(EOS_TOKEN, None)], 100);
    assert!(deltas.is_empty());
    assert_eq!(output.completion_tokens, 0);
    assert_eq!(output.finish_reason, FinishReason::Length);
}

#[test]
fn every_end_token_ends_the_reply() {
    for end in [1usize, 106, 50] {
        let (_, output, _) = run(&[], false, 5, &[(end, None)], 100);
        assert_eq!(output.finish_reason, FinishReason::Stop);
        assert_eq!(output.completion_tokens, 0);
    }
}

#[test]
fn stop_string_cuts_the_reply_and_is_never_shown() {
    let (deltas, output, _) = run(
        &["END"],
        false,
        9,
        &[(7, Some("one E")), (8, Some("N")), (9, Some("D two"))],
        100,
    );
    assert_eq!(output.text, "one ");
    assert_eq!(content(&deltas), "one ");
    assert_eq!(output.completion_tokens, 2);
    assert_eq!(output.finish_reason, FinishReason::Stop);
}

#[test]
fn held_back_text_comes_at_the_end() {
    let (deltas, output, _) = run(&["END"], false, 9, &[(7, Some("one EN")), (EOS_TOKEN, None)], 100);
    assert_eq!(output.text, "one EN");
    assert_eq!(deltas.len(), 2);
    assert!(matches!(&deltas[0], Delta::Content(text) if text == "one "));
    assert!(matches!(&deltas[1], Delta::Content(text) if text == "EN"));
}

#[test]
fn empty_stop_strings_do_not_count() {
    let (_, output, _) = run(&[""], false, 9, &[(7, Some("a")), (EOS_TOKEN, None)], 100);
    assert_eq!(output.text, "a");
}

#[test]
fn first_of_several_stop_strings_counts() {
    let (_, output, _) = run(&["cd", "b"], false, 9, &[(7, Some("abcd"))], 100);
    assert_eq!(output.text, "a");
    assert_eq!(output.completion_tokens, 0);
}

#[test]
fn stop_strings_of_many_byte_characters() {
    let (deltas, output, _) = run(&["é🙂"], false, 9, &[(7, Some("caf")), (8, Some("é")), (9, Some("🙂!"))], 100);
    assert_eq!(output.text, "caf");
    assert_eq!(content(&deltas), "caf");
}

#[test]
fn reasoning_is_told_apart() {
    let (deltas, output, _) = run(
        &["x"],
        true,
        20,
        &[
            (100, None),
            (7, Some("thought")),
            (8, Some("\nI think x")),
            (9, Some(" so")),
            (101, Some(".")),
            (10, Some("Yes")),
            (EOS_TOKEN, None),
        ],
        100,
    );
    assert_eq!(output.reasoning, "I think x so.");
    assert_eq!(reasoning(&deltas), "I think x so.");
    assert_eq!(output.text, "Yes");
    assert_eq!(content(&deltas), "Yes");
    assert_eq!(output.completion_tokens, 6);
}

#[test]
fn channel_marks_mean_nothing_without_separation() {
    let (_, output, _) =
        run(&[], false, 20, &[(100, Some("<|channel>")), (7, Some("a\nb")), (EOS_TOKEN, None)], 100);
    assert_eq!(output.text, "<|channel>a\nb");
    assert_eq!(output.reasoning, "");
}

#[test]
fn listener_that_leaves_ends_the_reply() {
    let (deltas, output, positions) =
        run(&[], false, 20, &[(7, Some("a")), (8, Some("b")), (9, Some("c"))], 2);
    assert_eq!(output.text, "ab");
    assert_eq!(content(&deltas), "ab");
    assert_eq!(output.completion_tokens, 1);
    assert_eq!(output.finish_reason, FinishReason::Length);
    assert_eq!(positions, vec![10]);
}

#[test]
fn overlap_is_the_longest_beginning_of_a_stop_string() {
    let stops = vec![chars("abc"), chars("bcd")];
    assert_eq!(pending_stop_overlap(&chars("xab"), &stops), 2);
    assert_eq!(pending_stop_overlap(&chars("xbc"), &stops), 2);
    assert_eq!(pending_stop_overlap(&chars("xa"), &stops), 1);
    assert_eq!(pending_stop_overlap(&chars("x"), &stops), 0);
    assert_eq!(pending_stop_overlap(&chars("abc"), &stops), 2);
    assert_eq!(find_stop(&chars("zbcdabc"), &stops), Some(1));
    assert_eq!(find_stop(&chars("zbc"), &stops), None);
}

#[test]
fn placeholders_make_room_for_media() {
    let image = patches(2);
    let audio = clip(700);
    assert_eq!(audio.len(), 2);
    let (ids, softs) =
        splice_multimodal_tokens(vec![3, IMAGE_TOKEN, 4, AUDIO_TOKEN], Some(&image), Some(&audio)).unwrap();
    assert_eq!(
        ids,
        vec![
            3, BOI_TOKEN, IMAGE_TOKEN, IMAGE_TOKEN, EOI_TOKEN, 4, BOA_TOKEN, AUDIO_TOKEN, AUDIO_TOKEN,
            EOA_TOKEN
        ]
    );
    assert_eq!(
        softs,
        vec![
            None,
            None,
            Some(SoftToken::Image(0)),
            Some(SoftToken::Image(1)),
            None,
            None,
            None,
            Some(SoftToken::Audio(0)),
            Some(SoftToken::Audio(1)),
            None
        ]
    );
}

#[test]
fn placeholders_without_media_are_left() {
    let (ids, softs) = splice_multimodal_tokens(vec![IMAGE_TOKEN, AUDIO_TOKEN, 1], None, None).unwrap();
    assert_eq!(ids, vec![IMAGE_TOKEN, AUDIO_TOKEN, 1]);
    assert_eq!(softs, vec![None, None, None]);
}

#[test]
fn placeholders_must_be_there_once() {
    let image = patches(1);
    let audio = clip(1);
    assert_eq!(
        splice_multimodal_tokens(vec![1], Some(&image), None).unwrap_err(),
        "expected one image placeholder, found 0"
    );
    assert_eq!(
        splice_multimodal_tokens(vec![IMAGE_TOKEN, AUDIO_TOKEN, AUDIO_TOKEN], Some(&image), Some(&audio)).unwrap_err(),
        "expected one audio placeholder, found 2"
    );
}

fn request(prompt: Vec<usize>, softs: Vec<Option<SoftToken>>, max_new_tokens: usize) -> GenerationRequest {
    GenerationRequest {
        prompt_ids: prompt,
        soft_at: softs,
        image: None,
        audio: None,
        max_new_tokens,
        sampling: SamplingConfig::gemma_recommended(),
        stop_strings: Vec::new(),
        separate_reasoning: false,
    }
}

#[test]
fn requests_are_checked() {
    assert_eq!(request(vec![], vec![], 1).check(100).unwrap_err(), "prompt produced no tokens");
    assert_eq!(
        request(vec![1, 2], vec![None, None], 99).check(100).unwrap_err(),
        "prompt plus generation exceeds 100 positions"
    );
    assert_eq!(
        request(vec![1, 2], vec![None, None], usize::MAX).check(100).unwrap_err(),
        "prompt plus generation exceeds 100 positions"
    );
    assert_eq!(
        request(vec![1, 2], vec![None], 3).check(100).unwrap_err(),
        "prompt_ids (2) and soft_at (1) must be parallel"
    );
    assert!(request(vec![1, 2], vec![None, None], 98).check(100).is_ok());
}

#[test]
fn prefill_wants_logits_only_at_the_end() {
    let req = request(vec![5, 6, 7], vec![None, Some(SoftToken::Image(4)), Some(SoftToken::Audio(2))], 1);
    assert_eq!(req.prefill(0), (Feed::Token(5), false));
    assert_eq!(req.prefill(1), (Feed::Image(4), false));
    assert_eq!(req.prefill(2), (Feed::Audio(2), true));
}

#[test]
fn closing_brackets_are_never_drawn() {
    assert_eq!(suppressed_tokens(), vec![258882, 258883]);
}

/// The longest end of `text`, in bytes, that begins a stop string.
fn held_bytes(text: &str, stops: &[&str]) -> usize {
    let mut hold = 0;
    for stop in stops {
        for len in 1..stop.len() {
            if stop.is_char_boundary(len) && text.ends_with(&stop[..len]) {
                hold = hold.max(len);
            }
        }
    }
    hold
}

#[test]
fn pieces_agree_with_a_count_in_bytes() {
    let letters = ["a", "b", "é", "🙂", "ab", "bé", ""];
    let stop_sets: [&[&str]; 5] = [&["ab"], &["aéb", "b🙂"], &["aa", "aaa"], &["🙂🙂a", "é"], &["abab", "ba"]];
    let mut state = 99u64;
    let mut random = |n: usize| {
        state = state.wrapping_mul(6364136223846793005).wrapping_add(1442695040888963407);
        (state >> 33) as usize % n
    };
    for _ in 0..3000 {
        let stops = stop_sets[random(stop_sets.len())];
        let pieces: Vec<&str> = (0..1 + random(8)).map(|_| letters[random(letters.len())]).collect();
        let mut rounds: Vec<(usize, Option<&str>)> = pieces.iter().map(|piece| (7, Some(*piece))).collect();
        rounds.push((EOS_TOKEN, None));
        let (deltas, output, _) = run(stops, false, 100, &rounds, usize::MAX);

        let mut text = String::new();
        let mut emitted = 0;
        let mut expected: Vec<String> = Vec::new();
        let mut stopped = false;
        let mut taken = 0;
        for piece in &pieces {
            text.push_str(piece);
            if let Some(cut) = stops.iter().filter_map(|stop| text.find(stop)).min() {
                if cut > emitted {
                    expected.push(text[emitted..cut].to_owned());
                }
                text.truncate(cut);
                stopped = true;
                break;
            }
            let safe = text.len() - held_bytes(&text, stops);
            if safe > emitted {
                expected.push(text[emitted..safe].to_owned());
                emitted = safe;
            }
            taken += 1;
        }
        if !stopped && emitted < text.len() {
            expected.push(text[emitted..].to_owned());
        }
        let shown: Vec<String> = deltas
            .iter()
            .map(|delta| match delta {
                Delta::Content(text) | Delta::Reasoning(text) => text.clone(),
            })
            .collect();
        assert_eq!(shown, expected);
        assert_eq!(output.text, text);
        assert_eq!(output.completion_tokens, taken);
        assert_eq!(shown.concat(), output.text);
        assert!(stops.iter().all(|stop| !output.text.contains(stop)));
    }
}
