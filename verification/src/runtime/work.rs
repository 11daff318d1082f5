//! How much work each step of a parser counts, which decides what is worth
//! caching.
use vstd::prelude::*;

verus! {

/// The work of matching a series.
pub const SERIES_WORK: u32 = 1;
/// The work of looking a result up in the cache or storing it there.
pub const CACHE_WORK: u32 = 25;
/// The work of labelling a match.
pub const LABEL_WORK: u32 = 50;
/// The work of marking a match as an error.
pub const MARK_ERROR_WORK: u32 = 50;
/// The work of a not-ahead.
pub const NOT_AHEAD_WORK: u32 = 1;
/// The work of a choice.
pub const CHOICE_WORK: u32 = 1;
/// The work of a sequence.
pub const SEQ_WORK: u32 = 1;
/// The most work that an instruction may take before its results are
/// worth caching.
pub const MAX_UNCACHED_WORK: u32 = 250;

} // verus!
