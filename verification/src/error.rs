//! The engine's error taxonomy.

use vstd::prelude::*;

verus! {

/// Every way an orchestrator step can fail.
///
/// Per-word query failures are absorbed into scoreless outcomes and never
/// reach this taxonomy.  A cache that already exists guards against duplicate
/// persistence; a cache that is missing cannot be written back; a missing
/// word of the day aborts a graph pass; a malformed history line aborts the
/// idempotence check; an empty nearby payload aborts nearby-word
/// persistence.  Each aborts only the current command.
#[derive(Clone, Copy, Debug, PartialEq, Eq, Structural)]
pub enum EngineError {
    CacheAlreadyExists,
    CacheMissing,
    MissingWordOfDay,
    MalformedHistory,
    EmptyNearbyPayload,
}

impl EngineError {
    /// A short text naming the error.
    pub fn describe(&self) -> (r: &'static str)
        ensures
            self is CacheAlreadyExists ==> r@ == "cache already exists"@,
            self is CacheMissing ==> r@ == "cache missing"@,
            self is MissingWordOfDay ==> r@ == "word of the day not found"@,
            self is MalformedHistory ==> r@ == "malformed history line"@,
            self is EmptyNearbyPayload ==> r@ == "cannot retrieve nearby words"@,
    {
        match self {
            EngineError::CacheAlreadyExists => "cache already exists",
            EngineError::CacheMissing => "cache missing",
            EngineError::MissingWordOfDay => "word of the day not found",
            EngineError::MalformedHistory => "malformed history line",
            EngineError::EmptyNearbyPayload => "cannot retrieve nearby words",
        }
    }
}

} // verus!
