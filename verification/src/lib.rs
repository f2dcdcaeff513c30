//! A single-room terminal chat relay with ASCII-art video frames.
//!
//! The crate holds the verified core of the relay: the frame codec that turns
//! raw RGB pixels into a glyph grid and back, the tagged wire protocol, the
//! broadcast hub that owns the roster, the per-connection session state
//! machine, the client-side application state, and the synthetic frame source.

use vstd::prelude::*;

pub mod ascii;
pub mod hub;
pub mod protocol;
pub mod session;
pub mod source;
pub mod ui;

verus! {

/// Relies on std's `String::push`: appends the given character to the end of
/// the string.
#[verifier::external_body]
pub(crate) fn push_char(s: &mut String, c: char)
    ensures
        final(s)@ == old(s)@.push(c),
{
    s.push(c);
}

/// Relies on std's `String::pop`: removes and returns the last character of
/// the string, or returns nothing when it is empty.
#[verifier::external_body]
pub(crate) fn pop_char(s: &mut String) -> (r: Option<char>)
    ensures
        old(s)@.len() == 0 ==> r is None && final(s)@ == old(s)@,
        old(s)@.len() > 0 ==> r == Some(old(s)@.last()) && final(s)@ == old(s)@.drop_last(),
{
    s.pop()
}

} // verus!
