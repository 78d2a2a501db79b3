//! What the generation worker reports.

use crate::generate::{Delta, Fragment, GenerationOutput};
use vstd::prelude::*;
use vstd::string::*;

verus! {

/// What the worker reports of a job.
#[derive(Debug)]
pub enum StreamEvent {
    Delta(String),
    ReasoningDelta(String),
    Done(GenerationOutput),
    Error(String),
}

/// The event that reports a piece of the reply.
fn delta_event(delta: Delta) -> (r: StreamEvent)
    ensures
        match r {
            StreamEvent::Delta(text) => delta@ == Fragment::Content(text@),
            StreamEvent::ReasoningDelta(text) => delta@ == Fragment::Reasoning(text@),
            _ => false,
        },
{
    match delta {
        Delta::Content(text) => StreamEvent::Delta(text),
        Delta::Reasoning(text) => StreamEvent::ReasoningDelta(text),
    }
}

/// What is reported of a piece of the reply: nothing, unless the job is to report
/// its reply as it comes.
pub fn report(stream: bool, delta: Delta) -> (r: Option<StreamEvent>)
    ensures
        r is Some == stream,
        r matches Some(event) ==> match event {
            StreamEvent::Delta(text) => delta@ == Fragment::Content(text@),
            StreamEvent::ReasoningDelta(text) => delta@ == Fragment::Reasoning(text@),
            _ => false,
        },
{
    if stream {
        Some(delta_event(delta))
    } else {
        None
    }
}

/// The event that reports how a job ended.
fn outcome_event(outcome: Result<GenerationOutput, String>) -> (r: StreamEvent)
    ensures
        match outcome {
            Ok(output) => r == StreamEvent::Done(output),
            Err(message) => r == StreamEvent::Error(message),
        },
{
    match outcome {
        Ok(output) => StreamEvent::Done(output),
        Err(message) => StreamEvent::Error(message),
    }
}

/// The event that reports a job that panicked.
fn panic_event(message: &str) -> (r: StreamEvent)
    ensures
        r matches StreamEvent::Error(text) && text@ == "internal error: generation panicked ("@
            + message@ + ")"@,
{
    let mut text = "internal error: generation panicked (".to_owned();
    text.append(message);
    text.append(")");
    StreamEvent::Error(text)
}

/// The event that reports a job that no worker takes.
pub fn offline_event() -> (r: StreamEvent)
    ensures
        r matches StreamEvent::Error(text) && text@ == "generation worker is not running"@,
{
    StreamEvent::Error("generation worker is not running".to_owned())
}

/// Whether the worker has started, by what it reported, if anything.
pub fn started(report: Option<Result<(), String>>) -> (r: Result<(), String>)
    ensures
        match report {
            Some(report) => r == report,
            None => r matches Err(message) && message@
                == "generation worker thread exited before finishing startup"@,
        },
{
    match report {
        Some(report) => report,
        None => Err("generation worker thread exited before finishing startup".to_owned()),
    }
}

/// What is reported of a job, and whether the worker takes another one: it does
/// unless the job panicked, with the message given.
pub fn after_job(outcome: Result<Result<GenerationOutput, String>, String>) -> (r: (
    StreamEvent,
    bool,
))
    ensures
        match outcome {
            Ok(Ok(output)) => r.0 == StreamEvent::Done(output),
            Ok(Err(message)) => r.0 == StreamEvent::Error(message),
            Err(panic) => r.0 matches StreamEvent::Error(text) && text@
                == "internal error: generation panicked ("@ + panic@ + ")"@,
        },
        r.1 == (outcome is Ok),
{
    match outcome {
        Ok(outcome) => (outcome_event(outcome), true),
        Err(panic) => (panic_event(panic.as_str()), false),
    }
}

} // verus!
