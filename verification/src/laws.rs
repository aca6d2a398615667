//! What holds of every buffer and every input.

use crate::boundary::{
    is_boundary, lemma_boundary_is_char_boundary, lemma_ceil_boundary, lemma_ceil_boundary_append,
    lemma_ceil_boundary_between, lemma_ceil_boundary_skip, lemma_split_at_boundary,
    lemma_valid_starts_on_boundary,
};
use crate::lines::{
    lemma_first_newline, lemma_first_newline_append, lemma_first_newline_between,
    lemma_first_newline_from, lemma_first_newline_skip, no_newline, shifted, NEWLINE,
};
use crate::model::{
    all_valid, char_cut, joined, lemma_char_cut, lemma_cut, lemma_line_push, lemma_push_wf,
    line_rule, quota, Granularity, RingModel,
};
use crate::seqs::{
    lemma_add_add, lemma_add_nothing, lemma_skip_all, lemma_skip_in_front, lemma_skip_nothing,
    lemma_skip_past_front, lemma_skip_twice,
};
use vstd::prelude::*;
use vstd::utf8::*;

verus! {

/// Where the search of the line rule starts in `text`.
spec fn search_start(text: Seq<u8>, max_size: nat) -> int {
    if quota(text, max_size) == 0 {
        0
    } else {
        quota(text, max_size) - 1
    }
}

/// The character cut of a text with more appended is the cut of the text,
/// and then the cut of what that leaves with the rest.
proof fn lemma_char_cut_appended(first: Seq<u8>, b: Seq<u8>, max_size: nat)
    requires
        is_boundary(first, 0),
        is_boundary(b, 0),
    ensures
        0 <= char_cut(first, max_size) <= first.len(),
        char_cut((first + b).skip(char_cut(first, max_size)), max_size) + char_cut(first, max_size)
            == char_cut(first + b, max_size),
{
    let whole = first + b;
    let k = char_cut(first, max_size);
    if quota(first, max_size) > 0 {
        let q1 = quota(first, max_size);
        let q = quota(whole, max_size);
        lemma_ceil_boundary(first, q1);
        lemma_ceil_boundary_append(first, b, q1);
        if quota(whole.skip(k), max_size) == 0 {
            lemma_ceil_boundary_between(whole, q1, q);
        } else {
            lemma_ceil_boundary_skip(whole, k, q);
        }
    } else {
        lemma_skip_nothing(whole);
    }
}

/// The line rule on a text with more appended, where the rule keeps some of
/// the text: it is the rule on the text, and then the rule on what that
/// leaves with the rest.
proof fn lemma_line_rule_kept(
    first: Seq<u8>,
    b: Seq<u8>,
    max_size: nat,
    discarding: bool,
    k: int,
)
    requires
        line_rule(first, max_size, discarding) == Some(k),
    ensures
        0 <= k <= first.len(),
        shifted(line_rule((first + b).skip(k), max_size, false), k) == line_rule(
            first + b,
            max_size,
            discarding,
        ),
{
    let whole = first + b;
    if quota(first, max_size) == 0 && !discarding {
        lemma_skip_nothing(whole);
    } else {
        let start1 = search_start(first, max_size);
        let start = search_start(whole, max_size);
        lemma_first_newline(first, start1);
        lemma_first_newline_append(first, b, start1);
        if quota(whole.skip(k), max_size) == 0 {
            lemma_first_newline_between(whole, start1, start);
        } else {
            lemma_first_newline_skip(whole, k, start);
        }
    }
}

/// The line rule on a text with more appended, where the rule keeps nothing
/// of the text: it is the rule of a discarding buffer on the rest.
proof fn lemma_line_rule_owed(first: Seq<u8>, b: Seq<u8>, max_size: nat, discarding: bool)
    requires
        line_rule(first, max_size, discarding) is None,
    ensures
        shifted(line_rule(b, max_size, true), first.len() as int) == line_rule(
            first + b,
            max_size,
            discarding,
        ),
{
    let whole = first + b;
    let l = first.len() as int;
    let start1 = search_start(first, max_size);
    let start = search_start(whole, max_size);
    lemma_skip_past_front(first, b, 0);
    lemma_skip_nothing(b);
    lemma_first_newline(first, start1);
    if start <= l {
        assert(no_newline(whole, start, l)) by {
            assert forall|j: int| start <= j < l implies #[trigger] whole[j] != NEWLINE by {
                assert(whole[j] == first[j]);
            }
        }
        lemma_first_newline_from(whole, start, l);
        lemma_first_newline_skip(whole, l, l);
    } else {
        lemma_first_newline_skip(whole, l, start);
    }
}

/// Keeping a text from `k` on, and what that leaves from `c` on, is keeping
/// the text from `k + c` on.
proof fn lemma_keeping_twice(m: RingModel, first: Seq<u8>, b: Seq<u8>, k: int, c: int)
    requires
        0 <= k <= first.len(),
        0 <= c <= first.len() - k + b.len(),
    ensures
        m.keeping(first, k).keeping(m.keeping(first, k).content + b, c) == m.keeping(
            first + b,
            k + c,
        ),
{
    lemma_skip_in_front(first, b, k);
    lemma_skip_twice(first + b, k, c);
}

/// Streaming equivalence by characters.
proof fn lemma_char_streaming(m: RingModel, a: Seq<u8>, b: Seq<u8>)
    requires
        m.wf(),
        m.granularity is Character,
        valid_utf8(a),
        valid_utf8(b),
    ensures
        m.push(a).push(b) == m.push(a + b),
{
    let first = m.content + a;
    let k = char_cut(first, m.max_size);
    let after = m.keeping(first, k);
    lemma_add_add(m.content, a, b);
    valid_utf8_concat(m.content, a);
    lemma_char_cut(first, m.max_size);
    lemma_skip_in_front(first, b, k);
    let c = char_cut(after.content + b, m.max_size);
    lemma_valid_starts_on_boundary(first);
    lemma_valid_starts_on_boundary(b);
    lemma_char_cut_appended(first, b, m.max_size);
    lemma_split_at_boundary(first, k);
    valid_utf8_concat(first.skip(k), b);
    lemma_char_cut(first.skip(k) + b, m.max_size);
    lemma_keeping_twice(m, first, b, k, c);
}

/// Streaming equivalence by lines, where the first part leaves text from `k`
/// on behind.
proof fn lemma_line_streaming_kept(m: RingModel, a: Seq<u8>, b: Seq<u8>, k: int)
    requires
        m.wf(),
        m.granularity is Line,
        valid_utf8(a),
        valid_utf8(b),
        line_rule(m.content + a, m.max_size, m.discarding) == Some(k),
    ensures
        m.push(a).push(b) == m.push(a + b),
{
    let first = m.content + a;
    let after = m.keeping(first, k);
    lemma_add_add(m.content, a, b);
    lemma_line_push(m, a);
    lemma_push_wf(m, a);
    lemma_line_push(after, b);
    valid_utf8_concat(a, b);
    lemma_line_push(m, a + b);
    lemma_line_rule_kept(first, b, m.max_size, m.discarding, k);
    lemma_skip_in_front(first, b, k);
    match line_rule(after.content + b, m.max_size, false) {
        Some(c) => {
            lemma_keeping_twice(m, first, b, k, c);
        },
        None => {},
    }
}

/// Streaming equivalence by lines, where the first part leaves the buffer
/// discarding.
proof fn lemma_line_streaming_owed(m: RingModel, a: Seq<u8>, b: Seq<u8>)
    requires
        m.wf(),
        m.granularity is Line,
        valid_utf8(a),
        valid_utf8(b),
        line_rule(m.content + a, m.max_size, m.discarding) is None,
    ensures
        m.push(a).push(b) == m.push(a + b),
{
    let first = m.content + a;
    let after = m.owing();
    lemma_add_add(m.content, a, b);
    lemma_add_nothing(b);
    lemma_line_push(m, a);
    lemma_push_wf(m, a);
    lemma_line_push(after, b);
    valid_utf8_concat(a, b);
    lemma_line_push(m, a + b);
    lemma_line_rule_owed(first, b, m.max_size, m.discarding);
    match line_rule(b, m.max_size, true) {
        Some(c) => {
            lemma_skip_past_front(first, b, c);
        },
        None => {},
    }
}

/// Pushing `a` and then `b` leaves the buffer as pushing `a + b` at once
/// does: the same content, and the same debt of a line to drop.
pub proof fn lemma_push_streaming(m: RingModel, a: Seq<u8>, b: Seq<u8>)
    requires
        m.wf(),
        valid_utf8(a),
        valid_utf8(b),
    ensures
        m.push(a).push(b) == m.push(a + b),
{
    match m.granularity {
        Granularity::Character => {
            lemma_char_streaming(m, a, b);
        },
        Granularity::Line => {
            match line_rule(m.content + a, m.max_size, m.discarding) {
                Some(k) => {
                    lemma_line_streaming_kept(m, a, b, k);
                },
                None => {
                    lemma_line_streaming_owed(m, a, b);
                },
            }
        },
    }
}

/// An append keeps the buffer within its capacity and its content valid
/// UTF-8.
pub proof fn lemma_push_within_capacity(m: RingModel, s: Seq<u8>)
    requires
        m.wf(),
        valid_utf8(s),
    ensures
        m.push(s).content.len() <= m.max_size,
        valid_utf8(m.push(s).content),
        m.push(s).max_size == m.max_size,
        m.push(s).granularity == m.granularity,
        m.push(s).discarding ==> m.push(s).content.len() == 0 && m.granularity is Line,
{
    lemma_push_wf(m, s);
}

/// No append splits a character: the text that an append drops from the
/// front of `content + s` ends at a character boundary, and the text that it
/// keeps is all that follows.
pub proof fn lemma_push_drops_whole_characters(m: RingModel, s: Seq<u8>)
    requires
        m.wf(),
        valid_utf8(s),
    ensures
        valid_utf8(m.content + s),
        0 <= m.dropped(s) <= (m.content + s).len(),
        is_char_boundary(m.content + s, m.dropped(s)),
        valid_utf8((m.content + s).take(m.dropped(s))),
        m.push(s).content == (m.content + s).skip(m.dropped(s)),
{
    let text = m.content + s;
    lemma_cut(m, s);
    lemma_boundary_is_char_boundary(text, m.dropped(s));
    lemma_split_at_boundary(text, m.dropped(s));
    lemma_skip_all(text);
}

/// By characters an append drops as little as the capacity allows: no
/// character boundary before the cut leaves few enough bytes.
pub proof fn lemma_char_push_drops_least(m: RingModel, s: Seq<u8>, b: int)
    requires
        m.wf(),
        m.granularity is Character,
        valid_utf8(s),
        is_boundary(m.content + s, b),
        (m.content + s).len() - b <= m.max_size,
    ensures
        m.dropped(s) <= b,
{
    valid_utf8_concat(m.content, s);
    lemma_char_cut(m.content + s, m.max_size);
}

/// By lines, text that an append keeps begins a line: nothing was dropped, or
/// a line terminator stands right before what is kept.
pub proof fn lemma_line_push_keeps_whole_lines(m: RingModel, s: Seq<u8>)
    requires
        m.wf(),
        m.granularity is Line,
        valid_utf8(s),
    ensures
        m.push(s).content.len() > 0 ==> {
            &&& !m.push(s).discarding
            &&& m.dropped(s) == 0 || (m.content + s)[m.dropped(s) - 1] == NEWLINE
        },
{
    lemma_cut(m, s);
}

/// An append of nothing changes nothing.
pub proof fn lemma_push_nothing(m: RingModel)
    requires
        m.wf(),
    ensures
        m.push(Seq::empty()) == m,
{
    lemma_add_nothing(m.content);
    lemma_skip_nothing(m.content);
}

/// The chunks of a valid stream join to valid UTF-8.
pub proof fn lemma_joined_valid(chunks: Seq<Seq<u8>>)
    requires
        all_valid(chunks),
    ensures
        valid_utf8(joined(chunks)),
    decreases chunks.len(),
{
    if chunks.len() > 0 {
        assert(all_valid(chunks.drop_last()));
        lemma_joined_valid(chunks.drop_last());
        assert(valid_utf8(chunks.last()));
        valid_utf8_concat(joined(chunks.drop_last()), chunks.last());
    }
}

/// For all sequences of pushes the buffer stays within its capacity, and its
/// content valid UTF-8.
pub proof fn lemma_push_all_wf(m: RingModel, chunks: Seq<Seq<u8>>)
    requires
        m.wf(),
        all_valid(chunks),
    ensures
        m.push_all(chunks).wf(),
        m.push_all(chunks).max_size == m.max_size,
        m.push_all(chunks).granularity == m.granularity,
    decreases chunks.len(),
{
    if chunks.len() > 0 {
        assert(all_valid(chunks.drop_last()));
        lemma_push_all_wf(m, chunks.drop_last());
        assert(valid_utf8(chunks.last()));
        lemma_push_wf(m.push_all(chunks.drop_last()), chunks.last());
    }
}

/// However a stream is cut into chunks, pushing the chunks in turn leaves
/// the buffer as one push of the whole stream does.
pub proof fn lemma_push_all_is_one_push(m: RingModel, chunks: Seq<Seq<u8>>)
    requires
        m.wf(),
        all_valid(chunks),
    ensures
        m.push_all(chunks) == m.push(joined(chunks)),
    decreases chunks.len(),
{
    if chunks.len() == 0 {
        lemma_push_nothing(m);
    } else {
        let head = chunks.drop_last();
        assert(all_valid(head));
        assert(valid_utf8(chunks.last()));
        lemma_push_all_is_one_push(m, head);
        lemma_joined_valid(head);
        lemma_push_streaming(m, joined(head), chunks.last());
    }
}

/// By lines, a buffer that holds text after any sequence of pushes holds the
/// whole stream, or the end of the stream from right after one of its line
/// terminators on.
pub proof fn lemma_line_boundary(max_size: nat, chunks: Seq<Seq<u8>>)
    requires
        all_valid(chunks),
    ensures
        ({
            let stream = joined(chunks);
            let after = RingModel::fresh(max_size, Granularity::Line).push_all(chunks);
            after.content.len() > 0 ==> {
                &&& !after.discarding
                &&& after.content == stream || exists|k: int|
                    0 < k <= stream.len() && stream[k - 1] == NEWLINE && after.content
                        == stream.skip(k)
            }
        }),
{
    let m = RingModel::fresh(max_size, Granularity::Line);
    let stream = joined(chunks);
    lemma_push_all_is_one_push(m, chunks);
    lemma_joined_valid(chunks);
    lemma_cut(m, stream);
    lemma_add_nothing(stream);
    lemma_skip_nothing(stream);
    let after = m.push(stream);
    if after.content.len() > 0 {
        let k = m.dropped(stream);
        if k > 0 {
            assert(stream[k - 1] == NEWLINE && after.content == stream.skip(k));
        }
    }
}

/// A cleared buffer is a new buffer with the same settings: every sequence of
/// pushes leaves both in the same state.
pub proof fn lemma_cleared_is_fresh(m: RingModel, chunks: Seq<Seq<u8>>)
    ensures
        m.cleared() == RingModel::fresh(m.max_size, m.granularity),
        m.cleared().wf(),
        m.cleared().push_all(chunks) == RingModel::fresh(m.max_size, m.granularity).push_all(
            chunks,
        ),
{
}

} // verus!
