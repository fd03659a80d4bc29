//! Small shared decisions of the sync engine.

use vstd::prelude::*;

verus! {

/// The page size of one fetch: the remote session's advertised maximum
/// number of objects per get, capped at fifty; fifty when the session
/// advertises none.
pub fn max_objects_in_get(session_max: Option<usize>) -> (r: usize)
    ensures
        r == if (match session_max {
            Option::Some(m) => m as int,
            Option::None => 50,
        }) < 50 {
            (match session_max {
                Option::Some(m) => m as int,
                Option::None => 50,
            })
        } else {
            50int
        },
        r <= 50,
{
    let m = match session_max {
        Some(m) => m,
        None => 50,
    };
    if m < 50 {
        m
    } else {
        50
    }
}

} // verus!
