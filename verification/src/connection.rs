//! What a connection does next, once a read has returned.

use vstd::prelude::*;
use crate::resp::{CR, LF};

verus! {

/// What a connection does after a read.
#[derive(Debug, Clone, Copy, PartialEq, Eq)]
pub enum Step {
    /// The request is not all there: read again.
    ReadMore,
    /// The request is all there: answer it.
    Answer,
    /// The peer has closed and no request is pending: end the connection.
    Close,
}

/// Whether `input` ends with a CRLF.
pub open spec fn ends_with_crlf(input: Seq<u8>) -> bool {
    input.len() >= 2 && input[input.len() - 2] == CR && input[input.len() - 1] == LF
}

/// What a connection does after a read that put `count` bytes into a buffer
/// with room for `capacity`, where `input` holds all that was read of the
/// request so far, those bytes included.
///
/// A read of no bytes means that the peer has closed: what was read before
/// is the request, and without any the connection ends. A read that did not
/// fill the buffer and left the input ending with a CRLF is the end of a
/// request. After any other read there is more to come.
pub open spec fn spec_next_step(input: Seq<u8>, count: usize, capacity: usize) -> Step {
    if count == 0 {
        if input.len() == 0 {
            Step::Close
        } else {
            Step::Answer
        }
    } else if count < capacity && ends_with_crlf(input) {
        Step::Answer
    } else {
        Step::ReadMore
    }
}

/// Decides what a connection does after a read.
pub fn next_step(input: &[u8], count: usize, capacity: usize) -> (out: Step)
    ensures
        out == spec_next_step(input@, count, capacity),
{
    let len = input.len();
    if count == 0 {
        if len == 0 {
            Step::Close
        } else {
            Step::Answer
        }
    } else if count < capacity && len >= 2 && input[len - 2] == CR && input[len - 1] == LF {
        Step::Answer
    } else {
        Step::ReadMore
    }
}

} // verus!
