//! Progress events of a streaming reduction.

use vstd::prelude::*;
use crate::error::CoreError;

verus! {

/// A single progress event emitted while a document is reduced.
#[derive(Debug, Clone)]
pub enum ProgressEvent {
    /// Emitted once at the start.
    Started { total_bytes: usize },
    /// Format detection complete.
    Detected { format: String },
    /// Parsing complete.
    Parsed { sections: usize, words: usize },
    /// Summarization complete.
    Summarized { sentences: usize, key_points: usize },
    /// Reduction complete; carries the final reduced document as JSON.
    Done { reduced_json: String },
    /// An error occurred.
    Error { message: String },
}

/// What a collector of progress events does with one event.
#[derive(Debug)]
pub enum CollectStep {
    /// Keep receiving.
    Continue,
    /// The reduction is done; its result as JSON.
    Done(String),
    /// The reduction failed.
    Failed(CoreError),
}

/// The collector's decision on one event: the JSON of a `Done` event ends
/// the stream, an `Error` event fails it, any other event is passed over.
pub fn collect_step(ev: ProgressEvent) -> (r: CollectStep)
    ensures
        match ev {
            ProgressEvent::Done { reduced_json } => r matches CollectStep::Done(j) && j@ == reduced_json@,
            ProgressEvent::Error { message } => r matches CollectStep::Failed(CoreError::InvalidOptions(m))
                && m@ == message@,
            _ => r is Continue,
        },
{
    match ev {
        ProgressEvent::Done { reduced_json } => CollectStep::Done(reduced_json),
        ProgressEvent::Error { message } => CollectStep::Failed(CoreError::InvalidOptions(message)),
        _ => CollectStep::Continue,
    }
}

/// The error of a stream that closed before its `Done` event.
pub fn stream_closed() -> (e: CoreError)
    ensures
        e matches CoreError::InvalidOptions(m) && m@ == "stream closed without Done"@,
{
    CoreError::InvalidOptions("stream closed without Done".to_owned())
}

} // verus!
