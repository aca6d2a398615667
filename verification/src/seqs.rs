//! Plain facts about joining sequences and dropping their front.

use vstd::prelude::*;

verus! {

/// A sequence of no elements is the empty sequence.
pub proof fn lemma_nothing(s: Seq<u8>)
    requires
        s.len() == 0,
    ensures
        s == Seq::<u8>::empty(),
{
    assert(s =~= Seq::<u8>::empty());
}

/// Joining with the empty sequence changes nothing.
pub proof fn lemma_add_nothing(s: Seq<u8>)
    ensures
        Seq::<u8>::empty() + s == s,
        s + Seq::<u8>::empty() == s,
{
    assert(Seq::<u8>::empty() + s =~= s);
    assert(s + Seq::<u8>::empty() =~= s);
}

/// Joining is associative.
pub proof fn lemma_add_add(u: Seq<u8>, v: Seq<u8>, w: Seq<u8>)
    ensures
        u + (v + w) == (u + v) + w,
{
    assert(u + (v + w) =~= (u + v) + w);
}

/// Dropping nothing changes nothing.
pub proof fn lemma_skip_nothing(s: Seq<u8>)
    ensures
        s.skip(0) == s,
{
    assert(s.skip(0) =~= s);
}

/// Dropping everything leaves nothing.
pub proof fn lemma_skip_all(s: Seq<u8>)
    ensures
        s.skip(s.len() as int) == Seq::<u8>::empty(),
{
    assert(s.skip(s.len() as int) =~= Seq::<u8>::empty());
}

/// Dropping `a` elements and then `b` drops `a + b`.
pub proof fn lemma_skip_twice(s: Seq<u8>, a: int, b: int)
    requires
        0 <= a,
        0 <= b,
        a + b <= s.len(),
    ensures
        s.skip(a).skip(b) == s.skip(a + b),
{
    assert(s.skip(a).skip(b) =~= s.skip(a + b));
}

/// Dropping from a joined sequence no more than its first part holds drops
/// from the first part.
pub proof fn lemma_skip_in_front(u: Seq<u8>, v: Seq<u8>, k: int)
    requires
        0 <= k <= u.len(),
    ensures
        (u + v).skip(k) == u.skip(k) + v,
{
    assert((u + v).skip(k) =~= u.skip(k) + v);
}

/// Dropping from a joined sequence its first part and more drops the rest
/// from the second part.
pub proof fn lemma_skip_past_front(u: Seq<u8>, v: Seq<u8>, k: int)
    requires
        0 <= k <= v.len(),
    ensures
        (u + v).skip(u.len() + k) == v.skip(k),
{
    assert((u + v).skip(u.len() + k) =~= v.skip(k));
}

/// The range from `from` to the end is what dropping `from` elements leaves.
pub proof fn lemma_subrange_to_end(s: Seq<u8>, from: int)
    requires
        0 <= from <= s.len(),
    ensures
        s.subrange(from, s.len() as int) == s.skip(from),
{
    assert(s.subrange(from, s.len() as int) =~= s.skip(from));
}

} // verus!
