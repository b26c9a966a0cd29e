//! A persistence core for sets of named preference fields.
//!
//! A preference set is an ordered list of named fields, each holding a plain
//! value. The crate serializes a set into a human-editable, field-name-keyed
//! text record and parses such records back, overlaying the parsed fields on
//! the set's defaults so that records written by an older schema still load.
//! Around the codec it provides the per-tick orchestration of one preference
//! set: the startup load, the hand-off of a finished load into the mutation
//! domain, and the per-tick decision of whether to spawn a save task.

pub mod codec;
pub mod laws;
pub mod orchestrator;
pub mod parse;
pub mod pipeline;
pub mod status;
pub mod value;
