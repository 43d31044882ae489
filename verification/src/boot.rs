//! Process start-up decisions.
use vstd::prelude::*;

verus! {

/// The runtime's worker count: the detected parallelism, with a floor of four
/// (the blocking bridges each pin a worker), and four when detection failed.
pub fn worker_thread_count(available: Option<usize>) -> (n: usize)
    ensures
        n == match available {
            Some(a) => if a < 4 { 4 } else { a },
            None => 4,
        },
        n >= 4,
{
    match available {
        Some(a) => if a < 4 { 4 } else { a },
        None => 4,
    }
}

} // verus!
