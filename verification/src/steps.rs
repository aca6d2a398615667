//! The moves of the eviction loop, and the proof that each of them leaves the
//! outcome of the append unchanged.

use crate::boundary::{
    ceil_boundary, is_boundary, lemma_boundary_after_ascii, lemma_ceil_boundary,
    lemma_ceil_boundary_append, lemma_ceil_boundary_skip, lemma_ceil_boundary_unique,
    lemma_split_at_boundary, lemma_valid_starts_on_boundary,
};
use crate::lines::{
    first_newline, lemma_first_newline, lemma_first_newline_append, lemma_first_newline_from,
    lemma_first_newline_skip, shifted, NEWLINE,
};
use crate::model::{
    char_cut, discard_cut, lemma_line_push, line_cut, line_rule, quota, RingModel,
};
use crate::seqs::{
    lemma_add_nothing, lemma_nothing, lemma_skip_in_front, lemma_skip_nothing,
    lemma_skip_past_front, lemma_skip_twice, lemma_subrange_to_end,
};
use vstd::prelude::*;
use vstd::utf8::*;

verus! {

/// The first bytes of `src` from `from` on, four at most.
pub open spec fn window(src: Seq<u8>, from: int) -> Seq<u8> {
    if src.len() - from < 4 {
        src.skip(from)
    } else {
        src.subrange(from, from + 4)
    }
}

/// A boundary that lies within three bytes is found in the window.
pub proof fn lemma_window(src: Seq<u8>, from: int)
    requires
        0 <= from <= src.len(),
        ceil_boundary(src, from) - from <= 3,
    ensures
        ceil_boundary(window(src, from), 0) == ceil_boundary(src, from) - from,
{
    let w = window(src, from);
    let c = ceil_boundary(src, from);
    lemma_ceil_boundary(src, from);
    assert forall|j: int| 0 <= j < c - from implies is_continuation_byte(#[trigger] w[j]) by {
        assert(w[j] == src[from + j]);
    }
    if c - from < w.len() {
        assert(w[c - from] == src[c]);
    }
    lemma_ceil_boundary_unique(w, 0, c - from);
}

/// True when `more` further bytes fit in the buffer beside its content.
pub open spec fn fits(m: RingModel, more: int) -> bool {
    m.content.len() + more <= m.max_size
}

/// The buffer with its flag lowered.
pub open spec fn resumed(m: RingModel) -> RingModel {
    RingModel {
        content: m.content,
        max_size: m.max_size,
        granularity: m.granularity,
        discarding: false,
    }
}

/// The buffer with `rest` appended in full.
pub open spec fn extended(m: RingModel, rest: Seq<u8>) -> RingModel {
    RingModel {
        content: m.content + rest,
        max_size: m.max_size,
        granularity: m.granularity,
        discarding: m.discarding,
    }
}

/// The buffer after all of its content went: it owes the rest of a line if
/// the content did not end one.
pub open spec fn clear_step(m: RingModel) -> RingModel {
    RingModel {
        content: Seq::empty(),
        max_size: m.max_size,
        granularity: m.granularity,
        discarding: m.granularity is Line && m.content.last() != NEWLINE,
    }
}

/// The buffer after `quota` bytes, rounded up to a boundary and, by lines, to
/// the end of a line, went from the front of its content.
pub open spec fn within_step(m: RingModel, quota: int) -> RingModel {
    let c = ceil_boundary(m.content, quota);
    if m.granularity is Character || m.content[c - 1] == NEWLINE {
        RingModel {
            content: m.content.skip(c),
            max_size: m.max_size,
            granularity: m.granularity,
            discarding: false,
        }
    } else {
        match first_newline(m.content, c) {
            Some(n) => RingModel {
                content: m.content.skip(n + 1),
                max_size: m.max_size,
                granularity: m.granularity,
                discarding: false,
            },
            None => RingModel {
                content: Seq::empty(),
                max_size: m.max_size,
                granularity: m.granularity,
                discarding: true,
            },
        }
    }
}

/// How many bytes an empty buffer drops from the front of an input that is
/// too long for it.
pub open spec fn input_cut(m: RingModel, rest: Seq<u8>) -> int {
    ceil_boundary(rest, rest.len() - m.max_size)
}

/// The empty buffer after it dropped the front of an input: it owes the rest
/// of a line if the cut does not follow the end of one.
pub open spec fn input_step(m: RingModel, rest: Seq<u8>) -> RingModel {
    RingModel {
        content: m.content,
        max_size: m.max_size,
        granularity: m.granularity,
        discarding: m.granularity is Line && rest[input_cut(m, rest) - 1] != NEWLINE,
    }
}

/// The line terminator that a discarding buffer waits for is followed by a
/// boundary, and the buffer cuts the input after it as an empty buffer cuts
/// what follows it.
proof fn lemma_discard_cut_after(rest: Seq<u8>, n: int, max_size: nat)
    requires
        valid_utf8(rest),
        first_newline(rest, 0) == Some(n),
    ensures
        0 <= n < rest.len(),
        is_boundary(rest, n + 1),
        valid_utf8(rest.skip(n + 1)),
        discard_cut(rest, max_size) == shifted(line_cut(rest.skip(n + 1), max_size), n + 1),
{
    lemma_first_newline(rest, 0);
    lemma_boundary_after_ascii(rest, n);
    lemma_split_at_boundary(rest, n + 1);
}

/// A discarding buffer that meets the end of the line goes on with what
/// follows it.
pub proof fn lemma_discard_step(m: RingModel, rest: Seq<u8>, n: int)
    requires
        m.wf(),
        m.discarding,
        valid_utf8(rest),
        first_newline(rest, 0) == Some(n),
    ensures
        0 <= n < rest.len(),
        is_boundary(rest, n + 1),
        resumed(m).wf(),
        resumed(m).push(rest.skip(n + 1)) == m.push(rest),
{
    let tail = rest.skip(n + 1);
    lemma_discard_cut_after(rest, n, m.max_size);
    lemma_nothing(m.content);
    lemma_add_nothing(rest);
    lemma_add_nothing(tail);
    match line_cut(tail, m.max_size) {
        Some(c) => {
            lemma_line_push(resumed(m), tail);
            lemma_skip_twice(rest, n + 1, c);
        },
        None => {},
    }
}

/// A discarding buffer that meets no end of line drops the whole input.
pub proof fn lemma_discard_all(m: RingModel, rest: Seq<u8>)
    requires
        m.wf(),
        m.discarding,
        first_newline(rest, 0) is None,
    ensures
        m.push(rest) == m,
{
    lemma_nothing(m.content);
    lemma_add_nothing(rest);
}

/// What fits is appended in full.
pub proof fn lemma_append_step(m: RingModel, rest: Seq<u8>)
    requires
        m.wf(),
        !m.discarding,
        m.content.len() + rest.len() <= m.max_size,
    ensures
        m.push(rest) == extended(m, rest),
{
    lemma_skip_nothing(m.content + rest);
}

/// Where the input alone fills the buffer, the character cut lies in the
/// input, where the input alone has it.
proof fn lemma_char_cut_past(content: Seq<u8>, rest: Seq<u8>, max_size: nat)
    requires
        valid_utf8(rest),
        content.len() > 0,
        rest.len() >= max_size,
    ensures
        char_cut(content + rest, max_size) == char_cut(rest, max_size) + content.len(),
        0 <= char_cut(rest, max_size) <= rest.len(),
{
    let text = content + rest;
    let l = content.len() as int;
    lemma_skip_past_front(content, rest, 0);
    lemma_skip_nothing(rest);
    lemma_valid_starts_on_boundary(rest);
    lemma_ceil_boundary_skip(text, l, quota(text, max_size));
    lemma_ceil_boundary_unique(rest, 0, 0);
    lemma_ceil_boundary(rest, quota(rest, max_size));
}

/// Dropping all of the content first changes nothing by characters, where
/// the input alone fills the buffer.
proof fn lemma_clear_step_char(m: RingModel, rest: Seq<u8>)
    requires
        m.wf(),
        m.granularity is Character,
        valid_utf8(rest),
        m.content.len() > 0,
        rest.len() >= m.max_size,
    ensures
        clear_step(m).push(rest) == m.push(rest),
{
    lemma_char_cut_past(m.content, rest, m.max_size);
    lemma_add_nothing(rest);
    lemma_skip_past_front(m.content, rest, char_cut(rest, m.max_size));
}

/// Where the input alone fills the buffer, the line rule on content and input
/// is the rule on the input, for a buffer that owes a line if the content did
/// not end one.
proof fn lemma_line_rule_past(content: Seq<u8>, rest: Seq<u8>, max_size: nat)
    requires
        content.len() > 0,
        rest.len() >= max_size,
    ensures
        line_rule(content + rest, max_size, false) == shifted(
            line_rule(rest, max_size, content.last() != NEWLINE),
            content.len() as int,
        ),
{
    let text = content + rest;
    let l = content.len() as int;
    lemma_skip_past_front(content, rest, 0);
    lemma_skip_nothing(rest);
    assert(text[l - 1] == content.last());
    if quota(rest, max_size) == 0 {
        if text[l - 1] != NEWLINE {
            lemma_first_newline_from(text, l - 1, l);
            lemma_first_newline_skip(text, l, l);
        }
    } else {
        lemma_first_newline_skip(text, l, quota(text, max_size) - 1);
    }
}

/// Dropping all of the content first changes nothing by lines, where the
/// input alone fills the buffer.
proof fn lemma_clear_step_line(m: RingModel, rest: Seq<u8>)
    requires
        m.wf(),
        !m.discarding,
        m.granularity is Line,
        valid_utf8(rest),
        m.content.len() > 0,
        rest.len() >= m.max_size,
    ensures
        clear_step(m).push(rest) == m.push(rest),
{
    let after = clear_step(m);
    lemma_add_nothing(rest);
    lemma_line_push(m, rest);
    lemma_line_push(after, rest);
    lemma_line_rule_past(m.content, rest, m.max_size);
    match after.cut(rest) {
        Some(c) => {
            lemma_skip_past_front(m.content, rest, c);
        },
        None => {},
    }
}

/// Dropping all of the content first changes nothing, where the input alone
/// fills the buffer.
pub proof fn lemma_clear_step(m: RingModel, rest: Seq<u8>)
    requires
        m.wf(),
        !m.discarding,
        valid_utf8(rest),
        m.content.len() > 0,
        rest.len() >= m.max_size,
    ensures
        clear_step(m).wf(),
        clear_step(m).push(rest) == m.push(rest),
{
    if m.granularity is Character {
        lemma_clear_step_char(m, rest);
    } else {
        lemma_clear_step_line(m, rest);
    }
}

/// Where the content holds more than has to go, the cut is found in the
/// content, and a line terminator after it in the content or else in the
/// input.
proof fn lemma_cut_within(m: RingModel, rest: Seq<u8>, quota: int)
    requires
        m.wf(),
        !m.discarding,
        valid_utf8(rest),
        0 < quota < m.content.len(),
        quota == m.content.len() + rest.len() - m.max_size,
    ensures
        ({
            let c = ceil_boundary(m.content, quota);
            &&& quota <= c <= m.content.len()
            &&& is_boundary(m.content, c)
            &&& m.cut(rest) == if m.granularity is Character || m.content[c - 1] == NEWLINE {
                Some(c)
            } else {
                match first_newline(m.content, c) {
                    Some(n) => Some(n + 1),
                    None => shifted(first_newline(rest, 0), m.content.len() as int + 1),
                }
            }
        }),
{
    let text = m.content + rest;
    let c = ceil_boundary(m.content, quota);
    lemma_ceil_boundary(m.content, quota);
    lemma_valid_starts_on_boundary(rest);
    lemma_ceil_boundary_append(m.content, rest, quota);
    assert(text[c - 1] == m.content[c - 1]);
    lemma_first_newline_append(m.content, rest, c);
}

/// Dropping from the content what an append drops, where that lies in the
/// content, changes nothing.
proof fn lemma_kept_from_content(m: RingModel, rest: Seq<u8>, k: int)
    requires
        m.wf(),
        !m.discarding,
        valid_utf8(rest),
        m.cut(rest) == Some(k),
        0 <= k <= m.content.len(),
        is_boundary(m.content, k),
        m.content.len() - k + rest.len() <= m.max_size,
    ensures
        m.keeping(m.content, k).wf(),
        m.keeping(m.content, k).push(rest) == m.push(rest),
{
    lemma_split_at_boundary(m.content, k);
    lemma_skip_in_front(m.content, rest, k);
    lemma_append_step(m.keeping(m.content, k), rest);
}

/// Dropping all of the content changes nothing by lines, where the content
/// holds no end of the line that goes and the input fits.
proof fn lemma_owed_step(m: RingModel, rest: Seq<u8>)
    requires
        m.wf(),
        !m.discarding,
        m.granularity is Line,
        valid_utf8(rest),
        rest.len() <= m.max_size,
        m.cut(rest) == shifted(first_newline(rest, 0), m.content.len() as int + 1),
    ensures
        m.owing().wf(),
        m.owing().push(rest) == m.push(rest),
{
    lemma_add_nothing(rest);
    lemma_first_newline(rest, 0);
    match first_newline(rest, 0) {
        Some(x) => {
            lemma_skip_nothing(rest.skip(x + 1));
            lemma_skip_past_front(m.content, rest, x + 1);
        },
        None => {},
    }
}

/// Dropping from the front of the content what has to go changes nothing,
/// where the content holds more than has to go.
pub proof fn lemma_within_step(m: RingModel, rest: Seq<u8>, quota: int)
    requires
        m.wf(),
        !m.discarding,
        valid_utf8(rest),
        0 < quota < m.content.len(),
        quota == m.content.len() + rest.len() - m.max_size,
    ensures
        within_step(m, quota).wf(),
        within_step(m, quota).push(rest) == m.push(rest),
        within_step(m, quota).content.len() + rest.len() <= m.max_size,
{
    let c = ceil_boundary(m.content, quota);
    lemma_cut_within(m, rest, quota);
    if m.granularity is Character || m.content[c - 1] == NEWLINE {
        lemma_kept_from_content(m, rest, c);
    } else {
        lemma_first_newline(m.content, c);
        match first_newline(m.content, c) {
            Some(n) => {
                lemma_boundary_after_ascii(m.content, n);
                lemma_kept_from_content(m, rest, n + 1);
            },
            None => {
                lemma_owed_step(m, rest);
            },
        }
    }
}

/// After the front of an over-long input went, what is left fits, and a line
/// terminator that follows the cut is the first of what is left.
proof fn lemma_input_cut(rest: Seq<u8>, max_size: nat)
    requires
        valid_utf8(rest),
        rest.len() > max_size,
    ensures
        ({
            let c = ceil_boundary(rest, rest.len() - max_size);
            &&& 0 < c <= rest.len()
            &&& rest.len() - c <= max_size
            &&& is_boundary(rest, c)
            &&& valid_utf8(rest.skip(c))
            &&& shifted(first_newline(rest.skip(c), 0), c) == first_newline(rest, c)
            &&& first_newline(rest.skip(c), 0) matches Some(x) ==> 0 <= x < rest.len() - c
        }),
{
    let c = ceil_boundary(rest, rest.len() - max_size);
    lemma_ceil_boundary(rest, rest.len() - max_size);
    lemma_split_at_boundary(rest, c);
    lemma_first_newline_skip(rest, c, c);
    lemma_first_newline(rest.skip(c), 0);
}

/// Dropping from the front of the input what has to go changes nothing,
/// where the buffer is empty.
pub proof fn lemma_input_step(m: RingModel, rest: Seq<u8>)
    requires
        m.wf(),
        !m.discarding,
        m.content.len() == 0,
        valid_utf8(rest),
        rest.len() > m.max_size,
    ensures
        0 < input_cut(m, rest) <= rest.len(),
        rest.len() - input_cut(m, rest) <= m.max_size,
        is_boundary(rest, input_cut(m, rest)),
        input_step(m, rest).wf(),
        input_step(m, rest).push(rest.skip(input_cut(m, rest))) == m.push(rest),
{
    let c = input_cut(m, rest);
    let tail = rest.skip(c);
    lemma_input_cut(rest, m.max_size);
    lemma_nothing(m.content);
    lemma_add_nothing(rest);
    lemma_add_nothing(tail);
    lemma_skip_nothing(tail);
    if input_step(m, rest).discarding {
        match first_newline(tail, 0) {
            Some(x) => {
                lemma_skip_nothing(tail.skip(x + 1));
                lemma_skip_twice(rest, c, x + 1);
            },
            None => {},
        }
    }
}

/// The discard move on an input that is read from `pos` on.
pub proof fn lemma_discard_step_at(m: RingModel, bytes: Seq<u8>, pos: int, n: int)
    requires
        m.wf(),
        m.discarding,
        valid_utf8(bytes),
        is_boundary(bytes, pos),
        first_newline(bytes.subrange(pos, bytes.len() as int), 0) == Some(n),
    ensures
        pos + n + 1 <= bytes.len(),
        is_boundary(bytes, pos + n + 1),
        resumed(m).wf(),
        resumed(m).push(bytes.skip(pos + n + 1)) == m.push(bytes.skip(pos)),
{
    let rest = bytes.skip(pos);
    lemma_subrange_to_end(bytes, pos);
    lemma_split_at_boundary(bytes, pos);
    lemma_discard_step(m, rest, n);
    lemma_skip_twice(bytes, pos, n + 1);
    if pos + n + 1 < bytes.len() {
        assert(rest[n + 1] == bytes[pos + n + 1]);
    }
}

/// The discard move that finds no end of line, on an input that is read from
/// `pos` on.
pub proof fn lemma_discard_all_at(m: RingModel, bytes: Seq<u8>, pos: int)
    requires
        m.wf(),
        m.discarding,
        0 <= pos <= bytes.len(),
        first_newline(bytes.subrange(pos, bytes.len() as int), 0) is None,
    ensures
        m.push(bytes.skip(pos)) == m,
{
    lemma_subrange_to_end(bytes, pos);
    lemma_discard_all(m, bytes.skip(pos));
}

/// The move that drops the front of the input, on an input that is read from
/// `pos` on.
pub proof fn lemma_input_step_at(m: RingModel, bytes: Seq<u8>, pos: int)
    requires
        m.wf(),
        !m.discarding,
        m.content.len() == 0,
        valid_utf8(bytes),
        is_boundary(bytes, pos),
        bytes.len() - pos > m.max_size,
    ensures
        ({
            let cut = ceil_boundary(bytes, bytes.len() - m.max_size);
            let rest = bytes.skip(pos);
            &&& pos < cut <= bytes.len()
            &&& bytes.len() - cut <= m.max_size
            &&& is_boundary(bytes, cut)
            &&& bytes[cut - 1] == rest[input_cut(m, rest) - 1]
            &&& input_step(m, rest).wf()
            &&& input_step(m, rest).push(bytes.skip(cut)) == m.push(rest)
        }),
{
    let cut = ceil_boundary(bytes, bytes.len() - m.max_size);
    let rest = bytes.skip(pos);
    lemma_split_at_boundary(bytes, pos);
    lemma_input_step(m, rest);
    lemma_ceil_boundary_skip(bytes, pos, bytes.len() - m.max_size);
    lemma_ceil_boundary(bytes, bytes.len() - m.max_size);
    lemma_skip_twice(bytes, pos, cut - pos);
    assert(bytes[cut - 1] == rest[cut - pos - 1]);
}

} // verus!
