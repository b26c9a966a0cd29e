//! The asynchronous pipelines' units of work: what a finished load hands
//! back to the mutation domain, and what a triggered save carries away.
//!
//! Background work never touches the mutation domain. A load produces a
//! [`MutationBatch`] that crosses back by value and is applied in a later
//! tick's poll step; a save carries a [`SaveTask`]'s snapshot away by value
//! and writes it with no way to report back but a log line.

use vstd::prelude::*;

use crate::parse::{deserialize, spec_deserialize};
use crate::value::{clone_set, FieldModel, PreferenceSet};

verus! {

/// A deferred set of field writes, applied atomically on the mutation
/// domain. Applying it writes every field and then flips the status to
/// loaded.
pub struct MutationBatch {
    /// The whole decoded set: one pending write per field.
    pub values: PreferenceSet,
}

/// A fire-and-forget unit of save work.
pub struct SaveTask {
    /// The values of every field at the tick that triggered the save.
    pub snapshot: PreferenceSet,
}

/// The lifecycle of one preference set's startup load. Completion and
/// application are two steps of one tick: the poll step turns a finished
/// read into `Completed`, and the apply step, strictly before any save
/// trigger, writes the batch and discards the handle.
pub enum LoadState {
    /// Registered; the startup load is not yet scheduled.
    Idle,
    /// The background read is in flight.
    Running,
    /// The background work finished; its batch awaits this tick's apply
    /// step.
    Completed(MutationBatch),
    /// The batch has been applied and the handle discarded.
    Applied,
}

/// What the host observed of the background read this tick.
pub enum LoadPoll {
    /// Nothing finished: no read in flight, or one still running.
    Pending,
    /// The read finished: the raw record, or `None` where none is stored.
    Ready(Option<String>),
}

/// The view of an optional raw record.
pub open spec fn opt_record(read: Option<String>) -> Option<Seq<char>> {
    match read {
        None => None,
        Some(s) => Some(s@),
    }
}

/// What a finished load yields: the defaults where the record is absent or
/// its frame broken, the parsed overlay otherwise. A load never fails hard.
pub open spec fn spec_load_result(d: Seq<FieldModel>, read: Option<Seq<char>>) -> Seq<FieldModel> {
    match read {
        None => d,
        Some(t) => match spec_deserialize(d, t) {
            Some(v) => v,
            None => d,
        },
    }
}

/// The background half of one load: turns the raw read result into the
/// deferred mutation batch. An absent record is not an error: the batch
/// then carries the defaults. A record whose frame is broken degrades to
/// the defaults too.
pub fn build_load_batch(defaults: &PreferenceSet, read: Option<String>) -> (b: MutationBatch)
    ensures
        b.values@ == spec_load_result(defaults@, opt_record(read)),
{
    match read {
        None => MutationBatch { values: clone_set(defaults) },
        Some(s) => match deserialize(defaults, s.as_str()) {
            Ok(v) => MutationBatch { values: v },
            Err(_) => MutationBatch { values: clone_set(defaults) },
        },
    }
}

} // verus!
