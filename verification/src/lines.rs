//! Line terminators in byte sequences.

use vstd::prelude::*;

verus! {

/// The byte that ends a line.
pub const NEWLINE: u8 = 0x0A;

/// The position of the first line terminator of `bytes` at or after `from`.
pub open spec fn first_newline(bytes: Seq<u8>, from: int) -> Option<int>
    decreases bytes.len() - from,
{
    if from < 0 || from >= bytes.len() {
        None
    } else if bytes[from] == NEWLINE {
        Some(from)
    } else {
        first_newline(bytes, from + 1)
    }
}

/// True when no byte of `bytes` in `lo..hi` is a line terminator.
pub open spec fn no_newline(bytes: Seq<u8>, lo: int, hi: int) -> bool {
    forall|j: int| lo <= j < hi ==> #[trigger] bytes[j] != NEWLINE
}

/// A found position moved by `k`.
pub open spec fn shifted(found: Option<int>, k: int) -> Option<int> {
    match found {
        Some(n) => Some(n + k),
        None => None,
    }
}

/// What `first_newline` finds is a line terminator with none before it; when
/// it finds nothing, there is none.
pub proof fn lemma_first_newline(bytes: Seq<u8>, from: int)
    requires
        0 <= from,
    ensures
        match first_newline(bytes, from) {
            Some(n) => from <= n < bytes.len() && bytes[n] == NEWLINE && no_newline(bytes, from, n),
            None => no_newline(bytes, from, bytes.len() as int),
        },
    decreases bytes.len() - from,
{
    if from < bytes.len() && bytes[from] != NEWLINE {
        lemma_first_newline(bytes, from + 1);
    }
}

/// The search may start anywhere in a stretch without line terminators.
pub proof fn lemma_first_newline_from(bytes: Seq<u8>, from: int, mid: int)
    requires
        0 <= from <= mid,
        no_newline(bytes, from, mid),
    ensures
        first_newline(bytes, from) == first_newline(bytes, mid),
    decreases mid - from,
{
    if from < mid {
        if from < bytes.len() {
            assert(bytes[from] != NEWLINE);
        }
        lemma_first_newline_from(bytes, from + 1, mid);
        if from >= bytes.len() {
            assert(first_newline(bytes, mid) is None);
        }
    }
}

/// A line terminator with none between `from` and itself is the first one.
pub proof fn lemma_first_newline_is(bytes: Seq<u8>, from: int, n: int)
    requires
        0 <= from <= n < bytes.len(),
        bytes[n] == NEWLINE,
        no_newline(bytes, from, n),
    ensures
        first_newline(bytes, from) == Some(n),
{
    lemma_first_newline_from(bytes, from, n);
}

/// Where no line terminator follows `from`, none is found.
pub proof fn lemma_first_newline_none(bytes: Seq<u8>, from: int)
    requires
        0 <= from,
        no_newline(bytes, from, bytes.len() as int),
    ensures
        first_newline(bytes, from) is None,
{
    if from < bytes.len() {
        lemma_first_newline_from(bytes, from, bytes.len() as int);
    }
}

/// A later start that does not pass the first line terminator finds the same.
pub proof fn lemma_first_newline_between(bytes: Seq<u8>, from: int, mid: int)
    requires
        0 <= from <= mid,
        first_newline(bytes, from) matches Some(n) ==> mid <= n,
    ensures
        first_newline(bytes, mid) == first_newline(bytes, from),
{
    lemma_first_newline(bytes, from);
    match first_newline(bytes, from) {
        Some(n) => {
            lemma_first_newline_from(bytes, from, mid);
        },
        None => {
            lemma_first_newline_none(bytes, mid);
        },
    }
}

/// Searching commutes with dropping a prefix.
pub proof fn lemma_first_newline_skip(bytes: Seq<u8>, k: int, from: int)
    requires
        0 <= k <= from,
        k <= bytes.len(),
    ensures
        shifted(first_newline(bytes.skip(k), from - k), k) == first_newline(bytes, from),
{
    let tail = bytes.skip(k);
    lemma_first_newline(bytes, from);
    match first_newline(bytes, from) {
        Some(n) => {
            assert(tail[n - k] == bytes[n]);
            assert forall|j: int| from - k <= j < n - k implies #[trigger] tail[j] != NEWLINE by {
                assert(tail[j] == bytes[j + k]);
            }
            lemma_first_newline_is(tail, from - k, n - k);
        },
        None => {
            assert forall|j: int| from - k <= j < tail.len() implies #[trigger] tail[j]
                != NEWLINE by {
                assert(tail[j] == bytes[j + k]);
            }
            lemma_first_newline_none(tail, from - k);
        },
    }
}

/// A search in `head + tail` finds what it finds in `head`, and otherwise what
/// a search of `tail` from its start finds.
pub proof fn lemma_first_newline_append(head: Seq<u8>, tail: Seq<u8>, from: int)
    requires
        0 <= from <= head.len(),
    ensures
        first_newline(head + tail, from) == match first_newline(head, from) {
            Some(n) => Some(n),
            None => shifted(first_newline(tail, 0), head.len() as int),
        },
{
    let all = head + tail;
    lemma_first_newline(head, from);
    match first_newline(head, from) {
        Some(n) => {
            assert(all[n] == head[n]);
            assert forall|j: int| from <= j < n implies #[trigger] all[j] != NEWLINE by {
                assert(all[j] == head[j]);
            }
            lemma_first_newline_is(all, from, n);
        },
        None => {
            assert forall|j: int| from <= j < head.len() implies #[trigger] all[j] != NEWLINE by {
                assert(all[j] == head[j]);
            }
            lemma_first_newline_from(all, from, head.len() as int);
            assert(all.skip(head.len() as int) =~= tail);
            lemma_first_newline_skip(all, head.len() as int, head.len() as int);
        },
    }
}

} // verus!
