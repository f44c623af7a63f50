//! Character counting: the whole of the character-count tool's logic.

use vstd::prelude::*;
use vstd::string::StrSliceExecFns;

verus! {

/// Number of characters (Unicode scalar values) in the text.
pub fn character_count(s: &str) -> (n: usize)
    ensures
        n == s@.len(),
{
    s.unicode_len()
}

} // verus!
