//! The mathematical model of the buffer: what it holds, and what an append
//! makes of it.

use crate::boundary::{
    ceil_boundary, is_boundary, lemma_boundary_after_ascii, lemma_ceil_boundary,
    lemma_ceil_boundary_least, lemma_ceil_boundary_unique, lemma_split_at_boundary,
    lemma_valid_starts_on_boundary,
};
use crate::lines::{
    first_newline, lemma_first_newline, lemma_first_newline_between, lemma_first_newline_from,
    lemma_first_newline_skip, no_newline, shifted, NEWLINE,
};
use vstd::prelude::*;
use vstd::utf8::*;

verus! {

/// The level of precision used for removing old content from a
/// [`StringRing`](crate::StringRing).
pub enum Granularity {
    /// Remove as few characters as possible (may leave a partial line at the beginning).
    Character,
    /// Remove entire lines at a time, but always as few lines as possible.
    Line,
}

/// The abstract state of a buffer.
pub struct RingModel {
    /// The stored bytes, oldest first.
    pub content: Seq<u8>,
    /// The capacity in bytes.
    pub max_size: nat,
    /// The unit of eviction.
    pub granularity: Granularity,
    /// True while the buffer is empty and owes the rest of a line that it has
    /// begun to drop.
    pub discarding: bool,
}

/// The number of bytes that have to go from the front of `text` for the rest
/// to fit in `max_size` bytes.
pub open spec fn quota(text: Seq<u8>, max_size: nat) -> int {
    if text.len() <= max_size {
        0
    } else {
        text.len() - max_size
    }
}

/// Where the retained text starts in `text` under character granularity: at
/// the first boundary that leaves no more than `max_size` bytes.
pub open spec fn char_cut(text: Seq<u8>, max_size: nat) -> int {
    if quota(text, max_size) == 0 {
        0
    } else {
        ceil_boundary(text, quota(text, max_size))
    }
}

/// Where the retained text starts in `text` under line granularity, for a
/// buffer that is not discarding: at the character cut if a line ends there,
/// else after the next line terminator. `None` when the line that is being
/// dropped has not ended yet.
pub open spec fn line_cut(text: Seq<u8>, max_size: nat) -> Option<int> {
    if quota(text, max_size) == 0 {
        Some(0)
    } else {
        let c = char_cut(text, max_size);
        if text[c - 1] == NEWLINE {
            Some(c)
        } else {
            shifted(first_newline(text, c), 1)
        }
    }
}

/// Where the retained text starts in `text` for a discarding buffer: the rest
/// of the dropped line goes first, and what follows it is cut as usual.
pub open spec fn discard_cut(text: Seq<u8>, max_size: nat) -> Option<int> {
    match first_newline(text, 0) {
        Some(n) => shifted(line_cut(text.skip(n + 1), max_size), n + 1),
        None => None,
    }
}

/// The line rule in one formula: the retained text starts after the first line
/// terminator that leaves no more than `max_size` bytes behind it. A buffer
/// that is not discarding keeps everything while it fits.
pub open spec fn line_rule(text: Seq<u8>, max_size: nat, discarding: bool) -> Option<int> {
    if quota(text, max_size) == 0 {
        if discarding {
            shifted(first_newline(text, 0), 1)
        } else {
            Some(0)
        }
    } else {
        shifted(first_newline(text, quota(text, max_size) - 1), 1)
    }
}

impl RingModel {
    /// The invariant of a buffer.
    pub open spec fn wf(self) -> bool {
        &&& valid_utf8(self.content)
        &&& self.content.len() <= self.max_size
        &&& self.discarding ==> self.content.len() == 0 && self.granularity is Line
    }

    /// A new, empty buffer.
    pub open spec fn fresh(max_size: nat, granularity: Granularity) -> RingModel {
        RingModel { content: Seq::empty(), max_size, granularity, discarding: false }
    }

    /// The buffer after `clear`.
    pub open spec fn cleared(self) -> RingModel {
        RingModel::fresh(self.max_size, self.granularity)
    }

    /// The position in `self.content + s` at which the text retained by an
    /// append of `s` starts; `None` when nothing is retained and the buffer
    /// is left discarding.
    pub open spec fn cut(self, s: Seq<u8>) -> Option<int> {
        let text = self.content + s;
        match self.granularity {
            Granularity::Character => Some(char_cut(text, self.max_size)),
            Granularity::Line => if self.discarding {
                discard_cut(text, self.max_size)
            } else {
                line_cut(text, self.max_size)
            },
        }
    }

    /// The number of leading bytes of `self.content + s` that an append of
    /// `s` drops.
    pub open spec fn dropped(self, s: Seq<u8>) -> int {
        match self.cut(s) {
            Some(c) => c,
            None => (self.content + s).len() as int,
        }
    }

    /// The buffer that holds `text` from `from` on.
    pub open spec fn keeping(self, text: Seq<u8>, from: int) -> RingModel {
        RingModel {
            content: text.skip(from),
            max_size: self.max_size,
            granularity: self.granularity,
            discarding: false,
        }
    }

    /// The buffer that holds nothing and owes the rest of a line.
    pub open spec fn owing(self) -> RingModel {
        RingModel {
            content: Seq::empty(),
            max_size: self.max_size,
            granularity: self.granularity,
            discarding: true,
        }
    }

    /// The buffer after an append of `s`.
    pub open spec fn push(self, s: Seq<u8>) -> RingModel {
        match self.cut(s) {
            Some(c) => self.keeping(self.content + s, c),
            None => self.owing(),
        }
    }

    /// The buffer after an append of each chunk in turn.
    pub open spec fn push_all(self, chunks: Seq<Seq<u8>>) -> RingModel
        decreases chunks.len(),
    {
        if chunks.len() == 0 {
            self
        } else {
            self.push_all(chunks.drop_last()).push(chunks.last())
        }
    }
}

/// The chunks of a stream, joined.
pub open spec fn joined(chunks: Seq<Seq<u8>>) -> Seq<u8>
    decreases chunks.len(),
{
    if chunks.len() == 0 {
        Seq::empty()
    } else {
        joined(chunks.drop_last()) + chunks.last()
    }
}

/// True when every chunk is valid UTF-8.
pub open spec fn all_valid(chunks: Seq<Seq<u8>>) -> bool {
    forall|i: int| 0 <= i < chunks.len() ==> valid_utf8(#[trigger] chunks[i])
}

/// The character cut is a boundary that leaves at most `max_size` bytes, and
/// no earlier boundary does.
pub proof fn lemma_char_cut(text: Seq<u8>, max_size: nat)
    requires
        valid_utf8(text),
    ensures
        is_boundary(text, char_cut(text, max_size)),
        text.len() - char_cut(text, max_size) <= max_size,
        forall|b: int|
            is_boundary(text, b) && text.len() - b <= max_size ==> char_cut(text, max_size) <= b,
{
    if text.len() > max_size {
        let q = text.len() - max_size;
        lemma_ceil_boundary(text, q);
        assert forall|b: int| is_boundary(text, b) && text.len() - b <= max_size implies char_cut(
            text,
            max_size,
        ) <= b by {
            lemma_ceil_boundary_least(text, q, b);
        }
    } else {
        lemma_valid_starts_on_boundary(text);
    }
}

/// In valid UTF-8 the line cut obeys the line rule.
pub proof fn lemma_line_cut_rule(text: Seq<u8>, max_size: nat)
    requires
        valid_utf8(text),
    ensures
        line_cut(text, max_size) == line_rule(text, max_size, false),
{
    if text.len() > max_size {
        let q = text.len() - max_size;
        let c = ceil_boundary(text, q);
        lemma_ceil_boundary(text, q);
        if text[q - 1] == NEWLINE {
            lemma_boundary_after_ascii(text, q - 1);
            lemma_ceil_boundary_unique(text, q, q);
        } else {
            assert(no_newline(text, q - 1, c)) by {
                assert forall|j: int| q - 1 <= j < c implies #[trigger] text[j] != NEWLINE by {
                    if j >= q {
                        assert(is_continuation_byte(text[j]));
                    }
                }
            }
            lemma_first_newline_from(text, q - 1, c);
            if c > q {
                assert(is_continuation_byte(text[c - 1]));
            }
        }
    }
}

/// In valid UTF-8 the cut of a discarding buffer obeys the line rule.
pub proof fn lemma_discard_cut_rule(text: Seq<u8>, max_size: nat)
    requires
        valid_utf8(text),
    ensures
        discard_cut(text, max_size) == line_rule(text, max_size, true),
{
    let low: int = if text.len() <= max_size {
        0
    } else {
        text.len() - max_size - 1
    };
    lemma_first_newline(text, 0);
    match first_newline(text, 0) {
        Some(n) => {
            lemma_boundary_after_ascii(text, n);
            lemma_split_at_boundary(text, n + 1);
            let rest = text.skip(n + 1);
            lemma_line_cut_rule(rest, max_size);
            if rest.len() <= max_size {
                lemma_first_newline_between(text, 0, low);
            } else {
                lemma_first_newline_skip(text, n + 1, low);
            }
        },
        None => {
            lemma_first_newline_between(text, 0, low);
        },
    }
}

/// What holds of the cut that an append makes.
pub proof fn lemma_cut(m: RingModel, s: Seq<u8>)
    requires
        m.wf(),
        valid_utf8(s),
    ensures
        valid_utf8(m.content + s),
        0 <= m.dropped(s) <= (m.content + s).len(),
        is_boundary(m.content + s, m.dropped(s)),
        (m.content + s).len() - m.dropped(s) <= m.max_size,
        m.cut(s) is None ==> m.granularity is Line,
        m.granularity is Line ==> m.cut(s) == line_rule(m.content + s, m.max_size, m.discarding),
        m.granularity is Line && m.dropped(s) > 0 && m.cut(s) is Some ==> (m.content + s)[m.dropped(
            s,
        ) - 1] == NEWLINE,
{
    let text = m.content + s;
    valid_utf8_concat(m.content, s);
    match m.granularity {
        Granularity::Character => {
            lemma_char_cut(text, m.max_size);
        },
        Granularity::Line => {
            if m.discarding {
                lemma_discard_cut_rule(text, m.max_size);
            } else {
                lemma_line_cut_rule(text, m.max_size);
            }
            let low: int = if text.len() <= m.max_size {
                0
            } else {
                text.len() - m.max_size - 1
            };
            lemma_first_newline(text, low);
            match first_newline(text, low) {
                Some(n) => {
                    lemma_boundary_after_ascii(text, n);
                },
                None => {},
            }
            lemma_valid_starts_on_boundary(text);
        },
    }
}

/// By lines an append cuts where the line rule says.
pub proof fn lemma_line_push(m: RingModel, s: Seq<u8>)
    requires
        m.wf(),
        m.granularity is Line,
        valid_utf8(s),
    ensures
        m.cut(s) == line_rule(m.content + s, m.max_size, m.discarding),
        m.cut(s) matches Some(c) ==> 0 <= c <= (m.content + s).len(),
{
    lemma_cut(m, s);
}

/// An append keeps the invariant.
pub proof fn lemma_push_wf(m: RingModel, s: Seq<u8>)
    requires
        m.wf(),
        valid_utf8(s),
    ensures
        m.push(s).wf(),
{
    lemma_cut(m, s);
    lemma_split_at_boundary(m.content + s, m.dropped(s));
}

} // verus!
