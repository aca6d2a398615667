//! Character boundaries in UTF-8 byte sequences, and the scanner that rounds a
//! byte offset forward to the next one.

use vstd::pervasive::unreached;
use vstd::prelude::*;
use vstd::std_specs::iter::IteratorSpec;
use vstd::utf8::*;

verus! {

/// True when a codepoint may start at position `i` of `bytes`: `i` is the end
/// of the sequence, or the byte at `i` is not a UTF-8 continuation byte.
pub open spec fn is_boundary(bytes: Seq<u8>, i: int) -> bool {
    0 <= i <= bytes.len() && (i < bytes.len() ==> !is_continuation_byte(bytes[i]))
}

/// The least boundary of `bytes` at or after `from`.
pub open spec fn ceil_boundary(bytes: Seq<u8>, from: int) -> int
    decreases bytes.len() - from,
{
    if 0 <= from < bytes.len() && is_continuation_byte(bytes[from]) {
        ceil_boundary(bytes, from + 1)
    } else {
        from
    }
}

/// The number of bytes to skip from the start of `bytes` to stand on a
/// boundary: the count of leading continuation bytes.
pub open spec fn boundary_offset(bytes: Seq<u8>) -> int {
    ceil_boundary(bytes, 0)
}

/// `ceil_boundary` lands on a boundary, and passes over continuation bytes only.
pub proof fn lemma_ceil_boundary(bytes: Seq<u8>, from: int)
    requires
        0 <= from <= bytes.len(),
    ensures
        from <= ceil_boundary(bytes, from) <= bytes.len(),
        is_boundary(bytes, ceil_boundary(bytes, from)),
        forall|j: int|
            from <= j < ceil_boundary(bytes, from) ==> is_continuation_byte(#[trigger] bytes[j]),
    decreases bytes.len() - from,
{
    if from < bytes.len() && is_continuation_byte(bytes[from]) {
        lemma_ceil_boundary(bytes, from + 1);
    }
}

/// A boundary reached from `from` over continuation bytes alone is the one
/// that `ceil_boundary` gives.
pub proof fn lemma_ceil_boundary_unique(bytes: Seq<u8>, from: int, c: int)
    requires
        0 <= from <= c,
        is_boundary(bytes, c),
        forall|j: int| from <= j < c ==> is_continuation_byte(#[trigger] bytes[j]),
    ensures
        ceil_boundary(bytes, from) == c,
    decreases c - from,
{
    if from < c {
        assert(is_continuation_byte(bytes[from]));
        lemma_ceil_boundary_unique(bytes, from + 1, c);
    }
}

/// No boundary lies between `from` and `ceil_boundary(bytes, from)`.
pub proof fn lemma_ceil_boundary_least(bytes: Seq<u8>, from: int, b: int)
    requires
        0 <= from <= b,
        is_boundary(bytes, b),
    ensures
        ceil_boundary(bytes, from) <= b,
{
    lemma_ceil_boundary(bytes, from);
    if b < ceil_boundary(bytes, from) {
        assert(is_continuation_byte(bytes[b]));
    }
}

/// Rounding from any point between `from` and its boundary gives that boundary.
pub proof fn lemma_ceil_boundary_between(bytes: Seq<u8>, from: int, mid: int)
    requires
        0 <= from <= mid <= ceil_boundary(bytes, from),
        from <= bytes.len(),
    ensures
        ceil_boundary(bytes, mid) == ceil_boundary(bytes, from),
{
    lemma_ceil_boundary(bytes, from);
    lemma_ceil_boundary_unique(bytes, mid, ceil_boundary(bytes, from));
}

/// Rounding commutes with dropping a prefix.
pub proof fn lemma_ceil_boundary_skip(bytes: Seq<u8>, k: int, from: int)
    requires
        0 <= k <= from <= bytes.len(),
    ensures
        ceil_boundary(bytes.skip(k), from - k) + k == ceil_boundary(bytes, from),
{
    let c = ceil_boundary(bytes, from);
    lemma_ceil_boundary(bytes, from);
    let tail = bytes.skip(k);
    assert forall|j: int| from - k <= j < c - k implies is_continuation_byte(
        #[trigger] tail[j],
    ) by {
        assert(tail[j] == bytes[j + k]);
    }
    if c < bytes.len() {
        assert(tail[c - k] == bytes[c]);
    }
    lemma_ceil_boundary_unique(tail, from - k, c - k);
}

/// Appending bytes that begin on a boundary does not move the boundaries of
/// what stands before them.
pub proof fn lemma_ceil_boundary_append(head: Seq<u8>, tail: Seq<u8>, from: int)
    requires
        0 <= from <= head.len(),
        is_boundary(tail, 0),
    ensures
        ceil_boundary(head + tail, from) == ceil_boundary(head, from),
{
    let c = ceil_boundary(head, from);
    lemma_ceil_boundary(head, from);
    let all = head + tail;
    assert forall|j: int| from <= j < c implies is_continuation_byte(#[trigger] all[j]) by {
        assert(all[j] == head[j]);
    }
    if c < head.len() {
        assert(all[c] == head[c]);
    } else if tail.len() > 0 {
        assert(all[c] == tail[0]);
    }
    lemma_ceil_boundary_unique(all, from, c);
}

/// A non-empty valid UTF-8 sequence starts with a leading byte.
pub proof fn lemma_valid_starts_on_boundary(bytes: Seq<u8>)
    requires
        valid_utf8(bytes),
    ensures
        is_boundary(bytes, 0),
{
}

/// In valid UTF-8, the boundaries of this module are the character boundaries
/// of `vstd::utf8`.
pub proof fn lemma_boundary_is_char_boundary(bytes: Seq<u8>, i: int)
    requires
        valid_utf8(bytes),
        0 <= i <= bytes.len(),
    ensures
        is_boundary(bytes, i) <==> is_char_boundary(bytes, i),
{
    if i < bytes.len() {
        is_char_boundary_iff_not_is_continuation_byte(bytes, i);
    } else {
        is_char_boundary_start_end_of_seq(bytes);
    }
}

/// Valid UTF-8 cut at a boundary gives two valid UTF-8 sequences.
pub proof fn lemma_split_at_boundary(bytes: Seq<u8>, i: int)
    requires
        valid_utf8(bytes),
        is_boundary(bytes, i),
    ensures
        valid_utf8(bytes.take(i)),
        valid_utf8(bytes.skip(i)),
{
    lemma_boundary_is_char_boundary(bytes, i);
    valid_utf8_split(bytes, i);
    assert(bytes.take(i) =~= bytes.subrange(0, i));
    assert(bytes.skip(i) =~= bytes.subrange(i, bytes.len() as int));
}

/// In valid UTF-8, the position after an ASCII byte is a boundary.
pub proof fn lemma_boundary_after_ascii(bytes: Seq<u8>, n: int)
    requires
        valid_utf8(bytes),
        0 <= n < bytes.len(),
        bytes[n] < 0x80,
    ensures
        is_boundary(bytes, n),
        is_boundary(bytes, n + 1),
{
    lemma_split_at_boundary(bytes, n);
    let tail = bytes.skip(n);
    assert(tail[0] == bytes[n]);
    assert(length_of_first_scalar(tail) == 1);
    assert(pop_first_scalar(tail) =~= bytes.skip(n + 1));
    lemma_valid_starts_on_boundary(bytes.skip(n + 1));
    if n + 1 < bytes.len() {
        assert(bytes.skip(n + 1)[0] == bytes[n + 1]);
    }
}

/// In valid UTF-8, at most three bytes separate any position from the next
/// boundary.
pub proof fn lemma_boundary_within_three(bytes: Seq<u8>, from: int)
    requires
        valid_utf8(bytes),
        0 <= from <= bytes.len(),
    ensures
        ceil_boundary(bytes, from) - from <= 3,
    decreases bytes.len(),
{
    if from < bytes.len() {
        let n = length_of_first_scalar(bytes);
        let rest = pop_first_scalar(bytes);
        assert(rest =~= bytes.skip(n));
        if from == 0 {
        } else if from < n {
            lemma_valid_starts_on_boundary(rest);
            if n < bytes.len() {
                assert(rest[0] == bytes[n]);
            }
            lemma_ceil_boundary_unique(bytes, from, n);
        } else {
            lemma_boundary_within_three(rest, from - n);
            lemma_ceil_boundary_skip(bytes, n, from);
        }
    }
}

/// Counts the bytes that must be skipped from the start of `src` to stand on a
/// character boundary: the start of a codepoint, or the end of the input.
///
/// The input is the rest of some UTF-8 text, taken from an arbitrary byte
/// offset: at most three continuation bytes can open such a sequence. Up to
/// four bytes are read, the last of them the one that stands on the boundary.
pub fn ceil_char_boundary_offset<I: Iterator<Item = u8>>(src: I) -> (k: usize)
    requires
        src.obeys_prophetic_iter_laws(),
        boundary_offset(src.remaining()) <= 3,
    ensures
        k == boundary_offset(src.remaining()),
        k <= 3,
        is_boundary(src.remaining(), k as int),
{
    let ghost bytes = src.remaining();
    let mut rest = src;
    let mut i: usize = 0;
    proof {
        lemma_ceil_boundary(bytes, 0);
    }
    while i < 4
        invariant
            i <= 4,
            i <= bytes.len(),
            bytes == src.remaining(),
            rest.obeys_prophetic_iter_laws(),
            rest.remaining() == bytes.skip(i as int),
            forall|j: int| 0 <= j < i ==> is_continuation_byte(#[trigger] bytes[j]),
            is_boundary(bytes, boundary_offset(bytes)),
            boundary_offset(bytes) <= 3,
        decreases 4 - i,
    {
        match rest.next() {
            None => {
                proof {
                    lemma_ceil_boundary_unique(bytes, 0, i as int);
                }
                return i;
            },
            Some(b) => {
                assert(b == bytes[i as int]);
                if b < 0x80 || b >= 0xC0 {
                    proof {
                        lemma_ceil_boundary_unique(bytes, 0, i as int);
                    }
                    return i;
                }
                assert(bytes.skip(i as int).drop_first() =~= bytes.skip(i + 1));
            },
        }
        i = i + 1;
    }
    // Four continuation bytes in a row: no boundary lies within three bytes.
    assert(false) by {
        assert(is_continuation_byte(bytes[boundary_offset(bytes)]));
    }
    unreached()
}

} // verus!
