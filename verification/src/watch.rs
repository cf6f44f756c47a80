//! Change-trigger decisions: which filesystem events under the library
//! locations matter, and when a burst of them has gone quiet for long
//! enough to fire one sync pass. The watch itself is I/O and lives with the
//! caller.

use vstd::prelude::*;

use crate::strutil::contains;
use crate::strutil::contains_sub;
use crate::strutil::ends_with;
use crate::strutil::ends_with_exec;

verus! {

/// Quiet period after the last emitted signal before another may fire, in
/// milliseconds.
pub const DEBOUNCE_MS: u64 = 5000;

/// Temporary and lock files written beside the library are noise; anything
/// else counts as library activity.
pub open spec fn relevant_path(p: Seq<char>) -> bool {
    !ends_with(p, ".tmp"@) && !ends_with(p, ".lock"@) && !contains_sub(p, ".tmp"@)
}

pub fn is_relevant_path(p: &str) -> (r: bool)
    ensures
        r == relevant_path(p@),
{
    !ends_with_exec(p, ".tmp") && !ends_with_exec(p, ".lock") && !contains(p, ".tmp")
}

/// An event is relevant when any of its paths is.
pub open spec fn relevant_event(paths: Seq<Seq<char>>) -> bool {
    exists|i: int| 0 <= i < paths.len() && relevant_path(paths[i])
}

pub fn is_relevant_event(paths: &Vec<String>) -> (r: bool)
    ensures
        r == relevant_event(paths.deep_view()),
{
    let mut i: usize = 0;
    while i < paths.len()
        invariant
            i <= paths@.len(),
            forall|j: int| 0 <= j < i ==> !relevant_path(#[trigger] paths.deep_view()[j]),
        decreases paths@.len() - i,
    {
        proof {
            assert(paths.deep_view()[i as int] == paths@[i as int]@);
        }
        if is_relevant_path(paths[i].as_str()) {
            return true;
        }
        i = i + 1;
    }
    false
}

/// Fire only after the debounce window has fully passed since the last
/// emitted signal, collapsing a burst of writes into one sync invocation.
pub fn should_emit(elapsed_since_last_emit_ms: u64) -> (r: bool)
    ensures
        r == (elapsed_since_last_emit_ms > DEBOUNCE_MS),
{
    elapsed_since_last_emit_ms > DEBOUNCE_MS
}

} // verus!
