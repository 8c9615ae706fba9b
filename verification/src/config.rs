//! Session configuration.

use vstd::prelude::*;

verus! {

/// The fixed letter count of every word in a session: candidate words,
/// guesses and feedback rounds all have exactly this many letters.
pub const WORD_LENGTH: usize = 5;

} // verus!
