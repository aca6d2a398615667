//! The buffer itself.

use crate::boundary::{
    ceil_boundary, ceil_char_boundary_offset, is_boundary, lemma_boundary_within_three,
    lemma_ceil_boundary, lemma_split_at_boundary, lemma_valid_starts_on_boundary,
};
use crate::lines::{
    first_newline, lemma_first_newline_append, lemma_first_newline_is, lemma_first_newline_none,
    lemma_first_newline_skip, NEWLINE,
};
use crate::model::{lemma_push_wf, Granularity, RingModel};
use crate::seqs::{lemma_skip_nothing, lemma_skip_twice};
use crate::steps::{
    clear_step, extended, fits, input_step, lemma_append_step, lemma_clear_step,
    lemma_discard_all_at, lemma_discard_step_at, lemma_input_step_at, lemma_window,
    lemma_within_step, resumed, window, within_step,
};
use crate::trusted::{deque_runs, deque_single_run};
use std::collections::VecDeque;
use vstd::prelude::*;
use vstd::string::StringSliceAdditionalSpecFns;
use vstd::utf8::*;

verus! {

/// A circular string buffer with a set maximum size.
///
/// Strings can be pushed onto the end of the buffer. If the maximum size would
/// be exceeded, the oldest content is removed to make space. The strategy for
/// removing old content is defined by [`Granularity`].
pub struct StringRing {
    content: VecDeque<u8>,
    max_size: usize,
    granularity: Granularity,
    discarding: bool,
}

impl View for StringRing {
    type V = RingModel;

    closed spec fn view(&self) -> RingModel {
        RingModel {
            content: self.content@,
            max_size: self.max_size as nat,
            granularity: self.granularity,
            discarding: self.discarding,
        }
    }
}

/// Finds the first line terminator of `haystack`.
fn find_newline(haystack: &[u8]) -> (found: Option<usize>)
    ensures
        match found {
            Some(n) => n < haystack@.len() && first_newline(haystack@, 0) == Some(n as int),
            None => first_newline(haystack@, 0) is None,
        },
{
    let found = memchr::memchr(NEWLINE, haystack);
    proof {
        match found {
            Some(n) => {
                lemma_first_newline_is(haystack@, 0, n as int);
            },
            None => {
                lemma_first_newline_none(haystack@, 0);
            },
        }
    }
    found
}

/// Finds the first line terminator of `content`, in its first run or else in
/// its second.
fn find_newline_in_deque(content: &VecDeque<u8>) -> (found: Option<usize>)
    ensures
        match found {
            Some(n) => n < content@.len() && first_newline(content@, 0) == Some(n as int),
            None => first_newline(content@, 0) is None,
        },
{
    let (a, b) = deque_runs(content);
    proof {
        lemma_first_newline_append(a@, b@, 0);
        assert(a@.len() + b@.len() == content.len());
    }
    match find_newline(a) {
        Some(n) => Some(n),
        None => match find_newline(b) {
            Some(n) => Some(a.len() + n),
            None => None,
        },
    }
}

/// Copies the first bytes of `content` from `from` on, four at most.
fn deque_window(content: &VecDeque<u8>, from: usize) -> (w: Vec<u8>)
    requires
        from <= content@.len(),
    ensures
        w@ == window(content@, from as int),
{
    let mut w: Vec<u8> = Vec::new();
    let mut i: usize = from;
    while i < content.len() && w.len() < 4
        invariant
            from <= i <= content@.len(),
            i - from <= 4,
            w@ =~= content@.subrange(from as int, i as int),
        decreases content@.len() - i,
    {
        w.push(content[i]);
        i = i + 1;
    }
    assert(w@ =~= window(content@, from as int));
    w
}

/// Copies the first bytes of `bytes` from `from` on, four at most.
fn slice_window(bytes: &[u8], from: usize) -> (w: Vec<u8>)
    requires
        from <= bytes@.len(),
    ensures
        w@ == window(bytes@, from as int),
{
    let mut w: Vec<u8> = Vec::new();
    let mut i: usize = from;
    while i < bytes.len() && w.len() < 4
        invariant
            from <= i <= bytes@.len(),
            i - from <= 4,
            w@ =~= bytes@.subrange(from as int, i as int),
        decreases bytes@.len() - i,
    {
        w.push(bytes[i]);
        i = i + 1;
    }
    assert(w@ =~= window(bytes@, from as int));
    w
}

/// Rounds `from` up to the next character boundary, given the bytes that
/// stand there.
fn round_up(from: usize, w: Vec<u8>, Ghost(src): Ghost<Seq<u8>>) -> (c: usize)
    requires
        valid_utf8(src),
        from <= src.len() <= usize::MAX,
        w@ == window(src, from as int),
    ensures
        c == ceil_boundary(src, from as int),
        from <= c <= src.len(),
        is_boundary(src, c as int),
{
    proof {
        lemma_boundary_within_three(src, from as int);
        lemma_window(src, from as int);
        lemma_ceil_boundary(src, from as int);
    }
    let delta = ceil_char_boundary_offset(w.into_iter());
    from + delta
}

/// Removes the first `n` bytes of `content`.
fn drop_front(content: &mut VecDeque<u8>, n: usize)
    requires
        n <= old(content)@.len(),
    ensures
        final(content)@ == old(content)@.skip(n as int),
{
    let mut i: usize = 0;
    while i < n
        invariant
            i <= n <= old(content)@.len(),
            content@ =~= old(content)@.skip(i as int),
        decreases n - i,
    {
        content.pop_front();
        i = i + 1;
    }
}

/// Appends the bytes of `bytes` from `from` on to `content`.
fn append_from(content: &mut VecDeque<u8>, bytes: &[u8], from: usize)
    requires
        from <= bytes@.len(),
    ensures
        final(content)@ == old(content)@ + bytes@.skip(from as int),
{
    let mut i: usize = from;
    while i < bytes.len()
        invariant
            from <= i <= bytes@.len(),
            content@ =~= old(content)@ + bytes@.subrange(from as int, i as int),
        decreases bytes@.len() - i,
    {
        content.push_back(bytes[i]);
        i = i + 1;
    }
}

impl StringRing {
    /// The invariant of the buffer: its content is valid UTF-8 within the
    /// capacity, and it discards only while empty and by lines.
    pub open spec fn wf(&self) -> bool {
        self@.wf()
    }

    /// Creates a new, empty [`StringRing`] with the given settings.
    pub fn new(max_size: usize, granularity: Granularity) -> (ring: Self)
        ensures
            ring.wf(),
            ring@ == RingModel::fresh(max_size as nat, granularity),
    {
        StringRing { content: VecDeque::new(), max_size, granularity, discarding: false }
    }

    /// Gets the current size of the stored string.
    pub fn len(&self) -> (n: usize)
        ensures
            n == self@.content.len(),
    {
        self.content.len()
    }

    /// Checks if the buffer is empty.
    pub fn is_empty(&self) -> (empty: bool)
        ensures
            empty == (self@.content.len() == 0),
    {
        self.content.len() == 0
    }

    /// Removes all content from the buffer and resets it to the initial state.
    pub fn clear(&mut self)
        ensures
            final(self).wf(),
            final(self)@ == old(self)@.cleared(),
    {
        self.content.clear();
        self.discarding = false;
    }

    /// Gets a reference to the raw stored data.
    ///
    /// Because this is a circular buffer of bytes, the content may be in two
    /// distinct pieces which may not independently be valid UTF-8 sequences.
    /// The two slices together, in the returned order, are the content.
    pub fn as_slices(&self) -> (runs: (&[u8], &[u8]))
        ensures
            runs.0@ + runs.1@ == self@.content,
    {
        deque_runs(&self.content)
    }

    /// Makes the content of the circular buffer contiguous and returns it as
    /// a mutable string slice.
    ///
    /// The slice is the buffer's own storage: text written through it is what
    /// the buffer holds afterwards.
    pub fn make_contiguous(&mut self) -> (text: &mut str)
        requires
            old(self).wf(),
        ensures
            text.spec_bytes() == old(self)@.content,
            final(self).wf(),
            final(self)@ == (RingModel {
                content: final(text).spec_bytes(),
                max_size: old(self)@.max_size,
                granularity: old(self)@.granularity,
                discarding: old(self)@.discarding,
            }),
    {
        let run = deque_single_run(&mut self.content);
        let text = core::str::from_utf8_mut(run).unwrap();
        proof {
            encode_utf8_valid_utf8(final(text)@);
        }
        text
    }

    /// Drops the front of the content, of which more is held than has to go
    /// to make room for `rest`.
    fn evict_within(&mut self, quota: usize, Ghost(rest): Ghost<Seq<u8>>)
        requires
            old(self).wf(),
            !old(self)@.discarding,
            valid_utf8(rest),
            0 < quota < old(self)@.content.len(),
            quota == old(self)@.content.len() + rest.len() - old(self)@.max_size,
        ensures
            final(self).wf(),
            final(self)@.push(rest) == old(self)@.push(rest),
            final(self)@.content.len() < old(self)@.content.len(),
            final(self)@.content.len() + rest.len() <= old(self)@.max_size,
    {
        let w = deque_window(&self.content, quota);
        let c = round_up(quota, w, Ghost(self.content@));
        let last_removed = self.content[c - 1];
        drop_front(&mut self.content, c);
        match self.granularity {
            Granularity::Character => {},
            Granularity::Line => {
                if last_removed != NEWLINE {
                    proof {
                        lemma_first_newline_skip(old(self).content@, c as int, c as int);
                    }
                    match find_newline_in_deque(&self.content) {
                        Some(n) => {
                            drop_front(&mut self.content, n + 1);
                            proof {
                                lemma_skip_twice(old(self).content@, c as int, n + 1);
                            }
                        },
                        None => {
                            self.discarding = true;
                            self.content.clear();
                        },
                    }
                }
            },
        }
        assert(self@ == within_step(old(self)@, quota as int));
        proof {
            lemma_within_step(old(self)@, rest, quota as int);
        }
    }

    /// The move of a discarding buffer: it looks for the end of the line that
    /// it is dropping in what is left of the input, from `pos` on. Gives the
    /// position that follows that line, or `None` where the input holds no end
    /// of line and is dropped whole.
    fn skip_line(&mut self, bytes: &[u8], pos: usize) -> (next: Option<usize>)
        requires
            old(self).wf(),
            old(self)@.discarding,
            valid_utf8(bytes@),
            is_boundary(bytes@, pos as int),
        ensures
            final(self).wf(),
            match next {
                Some(p) => {
                    &&& pos < p <= bytes@.len()
                    &&& is_boundary(bytes@, p as int)
                    &&& final(self)@ == resumed(old(self)@)
                    &&& final(self)@.push(bytes@.skip(p as int)) == old(self)@.push(
                        bytes@.skip(pos as int),
                    )
                },
                None => {
                    &&& final(self)@ == old(self)@
                    &&& old(self)@.push(bytes@.skip(pos as int)) == old(self)@
                },
            },
    {
        match find_newline(&bytes[pos..bytes.len()]) {
            Some(n) => {
                proof {
                    lemma_discard_step_at(self@, bytes@, pos as int, n as int);
                }
                self.discarding = false;
                Some(pos + n + 1)
            },
            None => {
                proof {
                    lemma_discard_all_at(self@, bytes@, pos as int);
                }
                None
            },
        }
    }

    /// Drops all of the content, where `rest` alone fills the buffer.
    fn evict_all(&mut self, Ghost(rest): Ghost<Seq<u8>>)
        requires
            old(self).wf(),
            !old(self)@.discarding,
            valid_utf8(rest),
            old(self)@.content.len() > 0,
            rest.len() >= old(self)@.max_size,
        ensures
            final(self).wf(),
            final(self)@.push(rest) == old(self)@.push(rest),
            final(self)@.content.len() == 0,
    {
        let len = self.content.len();
        match self.granularity {
            Granularity::Character => {},
            Granularity::Line => {
                self.discarding = self.content[len - 1] != NEWLINE;
            },
        }
        self.content.clear();
        assert(self@ == clear_step(old(self)@));
        proof {
            lemma_clear_step(old(self)@, rest);
        }
    }

    /// Drops the front of the input, where the buffer is empty and the input
    /// from `pos` on is `quota` bytes too long for it. Gives the position at
    /// which what is left begins.
    fn evict_input(&mut self, bytes: &[u8], pos: usize, quota: usize) -> (next: usize)
        requires
            old(self).wf(),
            !old(self)@.discarding,
            old(self)@.content.len() == 0,
            valid_utf8(bytes@),
            is_boundary(bytes@, pos as int),
            quota > 0,
            pos + quota + old(self)@.max_size == bytes@.len(),
        ensures
            final(self).wf(),
            pos < next <= bytes@.len(),
            is_boundary(bytes@, next as int),
            final(self)@.push(bytes@.skip(next as int)) == old(self)@.push(bytes@.skip(pos as int)),
            final(self)@.content.len() == 0,
            bytes@.len() - next <= old(self)@.max_size,
    {
        proof {
            assert(bytes@.len() == bytes.len());
            lemma_input_step_at(self@, bytes@, pos as int);
        }
        let w = slice_window(bytes, pos + quota);
        let cut = round_up(pos + quota, w, Ghost(bytes@));
        let last_removed = bytes[cut - 1];
        match self.granularity {
            Granularity::Character => {},
            Granularity::Line => {
                self.discarding = last_removed != NEWLINE;
            },
        }
        assert(self@ == input_step(old(self)@, bytes@.skip(pos as int)));
        cut
    }

    /// Appends the input from `pos` on, which fits.
    fn append_rest(&mut self, bytes: &[u8], pos: usize)
        requires
            old(self).wf(),
            !old(self)@.discarding,
            valid_utf8(bytes@),
            is_boundary(bytes@, pos as int),
            old(self)@.content.len() + bytes@.len() - pos <= old(self)@.max_size,
        ensures
            final(self).wf(),
            final(self)@ == old(self)@.push(bytes@.skip(pos as int)),
    {
        proof {
            lemma_split_at_boundary(bytes@, pos as int);
            lemma_append_step(self@, bytes@.skip(pos as int));
            lemma_push_wf(self@, bytes@.skip(pos as int));
        }
        append_from(&mut self.content, bytes, pos);
        assert(self@ == extended(old(self)@, bytes@.skip(pos as int)));
    }

    /// The move of a buffer that is not discarding. It appends what is left
    /// of the input, from `pos` on, if that fits, and gives `None`: the append
    /// is done. Else it drops what has to go, from the content or, where there
    /// is none, from the input, and gives the position at which what is left
    /// of the input begins. What is left then fits, unless the move emptied
    /// a buffer that the input alone overfills.
    fn settle(&mut self, bytes: &[u8], pos: usize) -> (next: Option<usize>)
        requires
            old(self).wf(),
            !old(self)@.discarding,
            valid_utf8(bytes@),
            is_boundary(bytes@, pos as int),
        ensures
            final(self).wf(),
            match next {
                Some(p) => {
                    &&& pos <= p <= bytes@.len()
                    &&& is_boundary(bytes@, p as int)
                    &&& final(self)@.push(bytes@.skip(p as int)) == old(self)@.push(
                        bytes@.skip(pos as int),
                    )
                    &&& final(self)@.content.len() - p < old(self)@.content.len() - pos
                    &&& !fits(old(self)@, bytes@.len() - pos)
                    &&& fits(final(self)@, bytes@.len() - p) || (old(self)@.content.len() > 0
                        && final(self)@.content.len() == 0)
                },
                None => final(self)@ == old(self)@.push(bytes@.skip(pos as int)),
            },
    {
        proof {
            lemma_split_at_boundary(bytes@, pos as int);
        }
        let len = self.content.len();
        let quota = (bytes.len() - pos).saturating_sub(self.max_size - len);
        if quota == 0 {
            self.append_rest(bytes, pos);
            return None;
        }
        if len == 0 {
            let cut = self.evict_input(bytes, pos, quota);
            Some(cut)
        } else if quota >= len {
            self.evict_all(Ghost(bytes@.skip(pos as int)));
            Some(pos)
        } else {
            self.evict_within(quota, Ghost(bytes@.skip(pos as int)));
            Some(pos)
        }
    }

    /// Appends content to the end of the buffer. If this would cause the
    /// buffer to exceed its maximum size, old content is removed to make room
    /// (as defined by [`Granularity`]).
    ///
    /// Pushing `a` followed by `b` is equivalent to pushing `a + b`. By
    /// lines, bytes may have to go from the beginning of `b` to reach the end
    /// of a line that is being removed; the buffer remembers that it owes
    /// them.
    pub fn push(&mut self, s: &str)
        requires
            old(self).wf(),
        ensures
            final(self).wf(),
            final(self)@ == old(self)@.push(s.spec_bytes()),
    {
        let bytes = s.as_bytes();
        let mut pos: usize = 0;
        proof {
            encode_utf8_valid_utf8(s@);
            lemma_valid_starts_on_boundary(bytes@);
            lemma_skip_nothing(bytes@);
        }
        // Three rounds at most: one that empties the buffer, one that cuts
        // the input to what fits, one that appends it.
        let ghost mut rounds: nat = 0;
        loop
            invariant
                self.wf(),
                valid_utf8(bytes@),
                bytes@ == s.spec_bytes(),
                is_boundary(bytes@, pos as int),
                self@.push(bytes@.skip(pos as int)) == old(self)@.push(bytes@),
                rounds <= 2,
                rounds == 1 ==> fits(self@, bytes@.len() - pos) || self@.content.len() == 0,
                rounds == 2 ==> fits(self@, bytes@.len() - pos),
            decreases self@.content.len() + bytes@.len() - pos,
        {
            if self.discarding {
                match self.skip_line(bytes, pos) {
                    Some(p) => {
                        pos = p;
                    },
                    None => {
                        return ;
                    },
                }
            }
            match self.settle(bytes, pos) {
                Some(p) => {
                    pos = p;
                    proof {
                        rounds = rounds + 1;
                    }
                },
                None => {
                    return ;
                },
            }
        }
    }
}

} // verus!
