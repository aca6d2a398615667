//! Contracts that are believed, not proved: the outside functions that the
//! buffer calls.

use std::collections::VecDeque;
use vstd::prelude::*;
use vstd::string::StringSliceAdditionalSpecFns;
use vstd::utf8::valid_utf8;

verus! {

/// `memchr::memchr` returns the index of the first byte of `haystack` that
/// equals `needle`, an index below the length of `haystack`, or `None` when no
/// byte equals it.
pub assume_specification[ memchr::memchr ](needle: u8, haystack: &[u8]) -> (found: Option<usize>)
    ensures
        match found {
            Some(i) => i < haystack@.len() && haystack@[i as int] == needle && forall|j: int|
                0 <= j < i ==> haystack@[j] != needle,
            None => forall|j: int| 0 <= j < haystack@.len() ==> haystack@[j] != needle,
        },
;

/// The error of `core::str::from_utf8_mut`, carried through unread.
#[verifier::external_type_specification]
#[verifier::external_body]
pub struct ExUtf8Error(core::str::Utf8Error);

/// `core::str::from_utf8_mut` succeeds exactly on valid UTF-8. The string it
/// returns holds the bytes of the slice and stands in the same memory: what
/// is written through it is what the slice holds afterwards. A slice never
/// changes its length.
pub assume_specification[ core::str::from_utf8_mut ](v: &mut [u8]) -> (text: Result<
    &mut str,
    core::str::Utf8Error,
>)
    ensures
        text is Ok <==> valid_utf8(old(v)@),
        text matches Ok(t) ==> t.spec_bytes() == old(v)@ && final(v)@ == final(t).spec_bytes(),
        final(v)@.len() == old(v)@.len(),
;

/// `VecDeque::as_slices` returns two slices that hold, in order, the contents
/// of the deque.
#[verifier::external_body]
pub(crate) fn deque_runs(deque: &VecDeque<u8>) -> (runs: (&[u8], &[u8]))
    ensures
        runs.0@ + runs.1@ == deque@,
{
    deque.as_slices()
}

/// `VecDeque::make_contiguous` returns the contents of the deque, in their
/// order, as one mutable slice of the deque's own storage: what is written
/// through the slice is what the deque holds afterwards.
#[verifier::external_body]
pub(crate) fn deque_single_run(deque: &mut VecDeque<u8>) -> (run: &mut [u8])
    ensures
        run@ == old(deque)@,
        final(deque)@ == final(run)@,
{
    deque.make_contiguous()
}

} // verus!
