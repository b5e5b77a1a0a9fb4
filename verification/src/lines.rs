//! Byte regions as sequences of lines, and the search for a byte.

use crate::temperature::NEWLINE;
use vstd::prelude::*;

verus! {

/// Whether `needle` occurs nowhere in `s`.
pub open spec fn absent(s: Seq<u8>, needle: u8) -> bool {
    forall|j: int| 0 <= j < s.len() ==> s[j] != needle
}

/// Whether `i` is the first place in `s` that holds `needle`.
pub open spec fn is_first(s: Seq<u8>, needle: u8, i: int) -> bool {
    &&& 0 <= i < s.len()
    &&& s[i] == needle
    &&& absent(s.take(i), needle)
}

/// Whether `i` is the last place in `s` that holds `needle`.
pub open spec fn is_last(s: Seq<u8>, needle: u8, i: int) -> bool {
    &&& 0 <= i < s.len()
    &&& s[i] == needle
    &&& absent(s.skip(i + 1), needle)
}

/// Whether `found` is what a search for the first `needle` in `s` owes.
pub open spec fn finds_first(s: Seq<u8>, needle: u8, found: Option<usize>) -> bool {
    match found {
        Some(i) => is_first(s, needle, i as int),
        None => absent(s, needle),
    }
}

/// Whether `found` is what a search for the last `needle` in `s` owes.
pub open spec fn finds_last(s: Seq<u8>, needle: u8, found: Option<usize>) -> bool {
    match found {
        Some(i) => is_last(s, needle, i as int),
        None => absent(s, needle),
    }
}

/// `memchr::memchr`: the index of the first `needle` in `haystack`, or `None`
/// if the haystack holds none.
#[verifier::external_body]
pub(crate) fn first_index_of(needle: u8, haystack: &[u8]) -> (found: Option<usize>)
    ensures
        finds_first(haystack@, needle, found),
{
    memchr::memchr(needle, haystack)
}

/// `memchr::memrchr`: the index of the last `needle` in `haystack`, or `None`
/// if the haystack holds none.
#[verifier::external_body]
pub(crate) fn last_index_of(needle: u8, haystack: &[u8]) -> (found: Option<usize>)
    ensures
        finds_last(haystack@, needle, found),
{
    memchr::memrchr(needle, haystack)
}

/// The lines of a region: the pieces between its newlines.  A region with `n`
/// newlines has `n + 1` lines, some of which may be empty.
pub open spec fn lines(s: Seq<u8>) -> Seq<Seq<u8>>
    decreases s.len(),
{
    if s.len() == 0 {
        seq![Seq::<u8>::empty()]
    } else {
        let before = lines(s.drop_last());
        if s.last() == NEWLINE {
            before.push(Seq::<u8>::empty())
        } else {
            before.update(before.len() - 1, before.last().push(s.last()))
        }
    }
}

/// The pieces put together again, with a newline between neighbours.
pub open spec fn join(pieces: Seq<Seq<u8>>) -> Seq<u8>
    decreases pieces.len(),
{
    if pieces.len() == 0 {
        Seq::<u8>::empty()
    } else if pieces.len() == 1 {
        pieces[0]
    } else {
        join(pieces.drop_last()) + seq![NEWLINE] + pieces.last()
    }
}

/// The lines of all the pieces, one piece after the other.
pub open spec fn all_lines(pieces: Seq<Seq<u8>>) -> Seq<Seq<u8>>
    decreases pieces.len(),
{
    if pieces.len() == 0 {
        Seq::<Seq<u8>>::empty()
    } else {
        all_lines(pieces.drop_last()) + lines(pieces.last())
    }
}

/// A region has at least one line.
pub proof fn lemma_lines_nonempty(s: Seq<u8>)
    ensures
        lines(s).len() >= 1,
    decreases s.len(),
{
    if s.len() > 0 {
        lemma_lines_nonempty(s.drop_last());
    }
}

/// A region without a newline is its own single line.
pub proof fn lemma_lines_single(s: Seq<u8>)
    requires
        absent(s, NEWLINE),
    ensures
        lines(s) == seq![s],
    decreases s.len(),
{
    if s.len() == 0 {
        assert(s =~= Seq::<u8>::empty());
        assert(lines(s) =~= seq![s]);
    } else {
        assert(s[s.len() - 1] != NEWLINE);
        assert forall|j: int| 0 <= j < s.drop_last().len() implies s.drop_last()[j] != NEWLINE by {
            assert(s.drop_last()[j] == s[j]);
        }
        lemma_lines_single(s.drop_last());
        let before = lines(s.drop_last());
        assert(before.last().push(s.last()) =~= s);
        assert(lines(s) =~= seq![s]);
    }
}

/// The lines of two regions put together with a newline are the lines of the
/// first followed by the lines of the second: no line spans the newline.
pub proof fn lemma_lines_concat(a: Seq<u8>, b: Seq<u8>)
    ensures
        lines(a + seq![NEWLINE] + b) == lines(a) + lines(b),
    decreases b.len(),
{
    let whole = a + seq![NEWLINE] + b;
    lemma_lines_nonempty(a);
    if b.len() == 0 {
        assert(whole.drop_last() =~= a);
        assert(lines(whole) =~= lines(a) + lines(b));
    } else {
        lemma_lines_concat(a, b.drop_last());
        lemma_lines_nonempty(b.drop_last());
        assert(whole.drop_last() =~= a + seq![NEWLINE] + b.drop_last());
        assert(whole.last() == b.last());
        assert(lines(whole) =~= lines(a) + lines(b));
    }
}

/// Joining the lines of a region gives the region back.
pub proof fn lemma_join_lines(s: Seq<u8>)
    ensures
        join(lines(s)) == s,
    decreases s.len(),
{
    if s.len() == 0 {
        assert(join(lines(s)) =~= s);
    } else {
        let before = lines(s.drop_last());
        lemma_join_lines(s.drop_last());
        lemma_lines_nonempty(s.drop_last());
        if s.last() == NEWLINE {
            assert(lines(s).drop_last() =~= before);
            assert(join(lines(s)) =~= s);
        } else {
            let after = lines(s);
            if before.len() == 1 {
                assert(join(before) == before[0]);
                assert(after[0] == before[0].push(s.last()));
                assert(s.drop_last().push(s.last()) =~= s);
                assert(join(after) =~= s);
            } else {
                assert(after.drop_last() =~= before.drop_last());
                assert(after.last() == before.last().push(s.last()));
                assert(join(before) == join(before.drop_last()) + seq![NEWLINE] + before.last());
                assert(join(after) == join(before.drop_last()) + seq![NEWLINE] + after.last());
                assert(s.drop_last().push(s.last()) =~= s);
                assert(join(after) =~= join(before).push(s.last()));
            }
        }
    }
}

/// The lines of joined pieces are the lines of the pieces in turn.
pub proof fn lemma_lines_of_join(pieces: Seq<Seq<u8>>)
    requires
        pieces.len() >= 1,
    ensures
        lines(join(pieces)) == all_lines(pieces),
    decreases pieces.len(),
{
    if pieces.len() == 1 {
        assert(pieces.drop_last() =~= Seq::<Seq<u8>>::empty());
        assert(all_lines(pieces.drop_last()) =~= Seq::<Seq<u8>>::empty());
        assert(all_lines(pieces) =~= lines(pieces[0]));
    } else {
        lemma_lines_of_join(pieces.drop_last());
        lemma_lines_concat(join(pieces.drop_last()), pieces.last());
    }
}

} // verus!
