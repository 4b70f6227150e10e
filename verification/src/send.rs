//! Sending a request in as many writes as the connection takes: where the
//! next write starts.

use vstd::prelude::*;

verus! {

/// Where the unsent part of `len` bytes starts once a write that began at
/// `pos` has taken `written` of them; `None` once nothing is left to send.
pub open spec fn unsent_from(len: usize, pos: usize, written: usize) -> Option<usize> {
    if pos + written < len {
        Some((pos + written) as usize)
    } else {
        None
    }
}

/// The offset from which to write next, if anything is left to send. Before
/// the first write, `pos` and `written` are both 0.
pub fn next_unsent(len: usize, pos: usize, written: usize) -> (r: Option<usize>)
    ensures
        r == unsent_from(len, pos, written),
{
    match pos.checked_add(written) {
        Some(next) => if next < len {
            Some(next)
        } else {
            None
        },
        None => None,
    }
}

} // verus!
