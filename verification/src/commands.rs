use crate::file_buffer::FileBuffer;
use vstd::prelude::*;

verus! {

/// The line that `search` adds.
pub open spec fn search_line() -> Seq<char> {
    seq!['s', 'e', 'a', 'r', 'c', 'h']
}

/// The line that `switch` adds.
pub open spec fn switch_line() -> Seq<char> {
    seq!['s', 'w', 'i', 't', 'c', 'h']
}

/// The search command: adds the line "search" to the buffer. It leaves the mode as it is
/// and always succeeds.
pub fn search<M>(mode: &mut M, buf: &mut FileBuffer) -> (r: Result<(), std::io::Error>)
    ensures
        r is Ok,
        *final(mode) == *old(mode),
        final(buf)@ == old(buf)@.push(search_line()),
{
    let msg: Vec<char> = vec!['s', 'e', 'a', 'r', 'c', 'h'];
    proof {
        assert(msg@ =~= search_line());
    }
    buf.append(msg);
    Ok(())
}

/// The switch command: adds the line "switch" to the buffer. It leaves the mode as it is
/// and always succeeds.
pub fn switch<M>(mode: &mut M, buf: &mut FileBuffer) -> (r: Result<(), std::io::Error>)
    ensures
        r is Ok,
        *final(mode) == *old(mode),
        final(buf)@ == old(buf)@.push(switch_line()),
{
    let msg: Vec<char> = vec!['s', 'w', 'i', 't', 'c', 'h'];
    proof {
        assert(msg@ =~= switch_line());
    }
    buf.append(msg);
    Ok(())
}

/// How many times a lock is tried when `max_tries` is the limit: attempts are numbered
/// from 1, and only those below `max_tries` are made.
pub fn lock_attempts(max_tries: usize) -> (n: usize)
    ensures
        n == if max_tries == 0 { 0 } else { max_tries - 1 },
{
    max_tries.saturating_sub(1)
}

} // verus!
