//! Cutting a region into partitions that end at newlines.

use crate::lines::{absent, all_lines, finds_last, join, last_index_of, lemma_lines_of_join, lines};
use crate::temperature::NEWLINE;
use vstd::prelude::*;
use vstd::slice::slice_subrange;

verus! {

/// The number of partitions that a region is cut into by default.
pub const PARALLELISM: usize = 8;

/// The place of the last newline in `s` from `from` up to, not including,
/// `to`, if there is one.
pub open spec fn last_newline(s: Seq<u8>, from: int, to: int) -> Option<int>
    decreases to - from,
{
    if to <= from {
        None
    } else if s[to - 1] == NEWLINE {
        Some(to - 1)
    } else {
        last_newline(s, from, to - 1)
    }
}

/// The partitions of `s` from `start` on, `parts` of them.  Each but the last
/// ends before the last newline among the `size` bytes that follow its start,
/// and the next starts after that newline; the last takes the rest.  There is
/// no such cut if one of those windows holds no newline.
pub open spec fn chunks_from(s: Seq<u8>, size: int, start: int, parts: nat) -> Option<
    Seq<Seq<u8>>,
>
    decreases parts,
{
    if parts == 0 {
        None
    } else if parts == 1 {
        Some(seq![s.skip(start)])
    } else {
        match last_newline(s, start, start + size) {
            None => None,
            Some(end) => match chunks_from(s, size, end + 1, (parts - 1) as nat) {
                None => None,
                Some(rest) => Some(seq![s.subrange(start, end)] + rest),
            },
        }
    }
}

/// The cut of a region into `parts` partitions with windows of equal size.
pub open spec fn chunking(s: Seq<u8>, parts: nat) -> Option<Seq<Seq<u8>>> {
    if parts == 0 {
        None
    } else {
        chunks_from(s, s.len() as int / parts as int, 0, parts)
    }
}

/// The byte sequences that the slices stand for.
pub open spec fn slices_view(v: Seq<&[u8]>) -> Seq<Seq<u8>> {
    Seq::new(v.len(), |i: int| v[i]@)
}

/// The view of what `chunk_at_newlines` hands back.
pub open spec fn chunks_view(r: Option<Vec<&[u8]>>) -> Option<Seq<Seq<u8>>> {
    match r {
        Some(v) => Some(slices_view(v@)),
        None => None,
    }
}

/// The partitions cut so far, followed by those still to come.
pub open spec fn followed_by(done: Seq<Seq<u8>>, rest: Option<Seq<Seq<u8>>>) -> Option<
    Seq<Seq<u8>>,
> {
    match rest {
        Some(r) => Some(done + r),
        None => None,
    }
}

/// What a search for the last newline in a window of `s` found is what
/// `last_newline` says of that window.
proof fn lemma_last_newline_found(s: Seq<u8>, from: int, to: int, found: Option<usize>)
    requires
        0 <= from <= to <= s.len(),
        finds_last(s.subrange(from, to), NEWLINE, found),
    ensures
        last_newline(s, from, to) == match found {
            Some(k) => Some(from + k),
            None => None,
        },
    decreases to - from,
{
    let window = s.subrange(from, to);
    if to > from {
        let top = to - 1 - from;
        assert(window[top] == s[to - 1]);
        match found {
            Some(k) => {
                if k < top {
                    assert(window.skip(k + 1)[top - k - 1] == window[top]);
                }
            },
            None => {},
        }
        if s[to - 1] != NEWLINE {
            let shorter = s.subrange(from, to - 1);
            match found {
                Some(k) => {
                    assert(shorter[k as int] == window[k as int]);
                    let tail = shorter.skip(k + 1);
                    let longer = window.skip(k + 1);
                    assert forall|j: int| 0 <= j < tail.len() implies tail[j] != NEWLINE by {
                        assert(tail[j] == longer[j]);
                    }
                },
                None => {
                    assert forall|j: int| 0 <= j < shorter.len() implies shorter[j]
                        != NEWLINE by {
                        assert(shorter[j] == window[j]);
                    }
                },
            }
            lemma_last_newline_found(s, from, to - 1, found);
        }
    }
}

/// Where `last_newline` finds one, it lies in the window and holds a newline.
pub proof fn lemma_last_newline_within(s: Seq<u8>, from: int, to: int)
    ensures
        last_newline(s, from, to) matches Some(end) ==> from <= end < to && s[end] == NEWLINE,
    decreases to - from,
{
    if to > from && s[to - 1] != NEWLINE {
        lemma_last_newline_within(s, from, to - 1);
    }
}

/// Cuts a region into `parts` partitions, none of which splits a record.
///
/// The window of a partition is `to_chunk.len() / parts` bytes from its
/// start; the partition ends before the last newline in its window, and the
/// last partition runs to the end of the region.  Returns `None` if `parts`
/// is zero or if a window holds no newline.
pub fn chunk_at_newlines<'a>(to_chunk: &'a [u8], parts: usize) -> (r: Option<Vec<&'a [u8]>>)
    ensures
        chunks_view(r) == chunking(to_chunk@, parts as nat),
        r matches Some(chunks) ==> chunks@.len() == parts && join(slices_view(chunks@))
            == to_chunk@ && all_lines(slices_view(chunks@)) == lines(to_chunk@),
{
    if parts == 0 {
        return None;
    }
    let len = to_chunk.len();
    let size = len / parts;
    let mut chunks: Vec<&[u8]> = Vec::new();
    let mut start: usize = 0;
    let mut left: usize = parts;
    proof {
        assert(parts * size <= len) by (nonlinear_arith)
            requires
                size == len as int / parts as int,
                parts > 0,
        ;
        assert(slices_view(chunks@) =~= Seq::<Seq<u8>>::empty());
        assert(followed_by(
            Seq::<Seq<u8>>::empty(),
            chunks_from(to_chunk@, size as int, 0, parts as nat),
        ) =~= chunking(to_chunk@, parts as nat)) by {
            match chunks_from(to_chunk@, size as int, 0, parts as nat) {
                Some(r) => {
                    assert(Seq::<Seq<u8>>::empty() + r =~= r);
                },
                None => {},
            }
        }
    }
    while left > 1
        invariant
            1 <= left <= parts,
            len == to_chunk@.len(),
            size == len as int / parts as int,
            start + left * size <= len,
            chunking(to_chunk@, parts as nat) == followed_by(
                slices_view(chunks@),
                chunks_from(to_chunk@, size as int, start as int, left as nat),
            ),
        decreases left,
    {
        assert(start + size <= len) by (nonlinear_arith)
            requires
                start + left * size <= len,
                left >= 2,
                size >= 0,
        ;
        let window = slice_subrange(to_chunk, start, start + size);
        let found = last_index_of(NEWLINE, window);
        proof {
            lemma_last_newline_found(to_chunk@, start as int, start + size, found);
        }
        match found {
            None => {
                return None;
            },
            Some(k) => {
                let end = start + k;
                let ghost done = slices_view(chunks@);
                let ghost rest = chunks_from(
                    to_chunk@,
                    size as int,
                    end + 1,
                    (left - 1) as nat,
                );
                chunks.push(slice_subrange(to_chunk, start, end));
                proof {
                    assert(slices_view(chunks@) =~= done.push(
                        to_chunk@.subrange(start as int, end as int),
                    ));
                    match rest {
                        Some(r) => {
                            assert(done + (seq![to_chunk@.subrange(start as int, end as int)] + r)
                                =~= done.push(to_chunk@.subrange(start as int, end as int)) + r);
                        },
                        None => {},
                    }
                    assert(end + 1 + (left - 1) * size <= len) by (nonlinear_arith)
                        requires
                            start + left * size <= len,
                            end < start + size,
                    ;
                }
                start = end + 1;
                left = left - 1;
            },
        }
    }
    let ghost done = slices_view(chunks@);
    chunks.push(slice_subrange(to_chunk, start, len));
    proof {
        assert(to_chunk@.subrange(start as int, len as int) =~= to_chunk@.skip(start as int));
        assert(slices_view(chunks@) =~= done + seq![to_chunk@.skip(start as int)]);
        lemma_chunking_lossless(to_chunk@, parts as nat);
    }
    Some(chunks)
}

/// The partitions that a region is scanned in: its cut into `parts`
/// partitions where there is one, else the region as a single partition.
pub open spec fn partitioning(s: Seq<u8>, parts: nat) -> Seq<Seq<u8>> {
    match chunking(s, parts) {
        Some(chunks) => chunks,
        None => seq![s],
    }
}

/// Cuts a region into `parts` partitions as `chunk_at_newlines` does, or,
/// where it cannot be cut so, hands the region back as one partition.
/// Either way no record is split and none is lost.
pub fn partition<'a>(region: &'a [u8], parts: usize) -> (chunks: Vec<&'a [u8]>)
    ensures
        slices_view(chunks@) == partitioning(region@, parts as nat),
        chunks@.len() >= 1,
        chunks@.len() == parts || chunks@.len() == 1,
        join(slices_view(chunks@)) == region@,
        all_lines(slices_view(chunks@)) == lines(region@),
{
    match chunk_at_newlines(region, parts) {
        Some(chunks) => chunks,
        None => {
            let mut chunks: Vec<&[u8]> = Vec::new();
            chunks.push(region);
            proof {
                let pieces = slices_view(chunks@);
                assert(pieces =~= seq![region@]);
                assert(join(pieces) == region@);
                lemma_lines_of_join(pieces);
            }
            chunks
        },
    }
}

/// Where a region is some bytes, a newline and a rest without newline, that
/// newline is its last one.
pub proof fn lemma_last_newline_split(s: Seq<u8>, before: Seq<u8>, after: Seq<u8>)
    requires
        s == before + seq![NEWLINE] + after,
        absent(after, NEWLINE),
    ensures
        last_newline(s, 0, s.len() as int) == Some(before.len() as int),
    decreases after.len(),
{
    if after.len() > 0 {
        assert(s.last() == after.last());
        assert(after[after.len() - 1] != NEWLINE);
        let shorter = s.drop_last();
        assert(shorter =~= before + seq![NEWLINE] + after.drop_last());
        assert forall|j: int| 0 <= j < after.drop_last().len() implies after.drop_last()[j]
            != NEWLINE by {
            assert(after.drop_last()[j] == after[j]);
        }
        lemma_last_newline_split(shorter, before, after.drop_last());
        lemma_last_newline_shorter(s, 0, s.len() as int - 1);
    } else {
        assert(s[s.len() - 1] == NEWLINE);
    }
}

/// The last newline of a window is looked for in the bytes of the window
/// only: what follows the window does not matter.
pub proof fn lemma_last_newline_shorter(s: Seq<u8>, from: int, to: int)
    requires
        0 <= from <= to <= s.len(),
    ensures
        last_newline(s.take(to), from, to) == last_newline(s, from, to),
    decreases to - from,
{
    if to > from {
        assert(s.take(to)[to - 1] == s[to - 1]);
        if s[to - 1] != NEWLINE {
            lemma_last_newline_shorter(s, from, to - 1);
            lemma_last_newline_shorter(s.take(to), from, to - 1);
            assert(s.take(to).take(to - 1) =~= s.take(to - 1));
        }
    }
}

/// Where a region has no newline, none is found in it.
pub proof fn lemma_last_newline_absent(s: Seq<u8>, to: int)
    requires
        absent(s, NEWLINE),
        0 <= to <= s.len(),
    ensures
        last_newline(s, 0, to) is None,
    decreases to,
{
    if to > 0 {
        assert(s[to - 1] != NEWLINE);
        lemma_last_newline_absent(s, to - 1);
    }
}

/// Joining one piece in front of others puts a newline after it.
pub proof fn lemma_join_front(first: Seq<u8>, rest: Seq<Seq<u8>>)
    requires
        rest.len() >= 1,
    ensures
        join(seq![first] + rest) == first + seq![NEWLINE] + join(rest),
    decreases rest.len(),
{
    let all = seq![first] + rest;
    assert(all.last() == rest.last());
    if rest.len() == 1 {
        assert(all.drop_last() =~= seq![first]);
        assert(join(seq![first]) == first);
        assert(join(rest) == rest[0]);
        assert(join(all) =~= first + seq![NEWLINE] + join(rest));
    } else {
        assert(all.drop_last() =~= seq![first] + rest.drop_last());
        lemma_join_front(first, rest.drop_last());
        assert(join(all) =~= first + seq![NEWLINE] + join(rest));
    }
}

/// Joining two runs of pieces puts a newline between the two joins.
pub proof fn lemma_join_concat(a: Seq<Seq<u8>>, b: Seq<Seq<u8>>)
    requires
        a.len() >= 1,
        b.len() >= 1,
    ensures
        join(a + b) == join(a) + seq![NEWLINE] + join(b),
    decreases b.len(),
{
    let all = a + b;
    assert(all.last() == b.last());
    if b.len() == 1 {
        assert(all.drop_last() =~= a);
    } else {
        assert(all.drop_last() =~= a + b.drop_last());
        lemma_join_concat(a, b.drop_last());
        assert(join(all) =~= join(a) + seq![NEWLINE] + join(b));
    }
}

/// The partitions from `start` on are as many as asked for, and joined with
/// newlines they are the region from `start` on.
pub proof fn lemma_chunks_from_lossless(s: Seq<u8>, size: int, start: int, parts: nat)
    requires
        0 <= start <= s.len(),
        0 <= size,
        start + (parts - 1) * size <= s.len(),
    ensures
        chunks_from(s, size, start, parts) matches Some(chunks) ==> chunks.len() == parts && join(
            chunks,
        ) == s.skip(start),
    decreases parts,
{
    if parts >= 2 {
        lemma_last_newline_within(s, start, start + size);
        match last_newline(s, start, start + size) {
            Some(end) => {
                assert(end + 1 + (parts - 2) * size <= s.len()) by (nonlinear_arith)
                    requires
                        start + (parts - 1) * size <= s.len(),
                        end < start + size,
                ;
                assert(start + size <= s.len()) by (nonlinear_arith)
                    requires
                        start + (parts - 1) * size <= s.len(),
                        parts >= 2,
                        size >= 0,
                ;
                lemma_chunks_from_lossless(s, size, end + 1, (parts - 1) as nat);
                match chunks_from(s, size, end + 1, (parts - 1) as nat) {
                    Some(rest) => {
                        lemma_join_front(s.subrange(start, end), rest);
                        assert(s.subrange(start, end) + seq![NEWLINE] + s.skip(end + 1) =~= s.skip(
                            start,
                        ));
                    },
                    None => {},
                }
            },
            None => {},
        }
    }
}

/// Every partition but the last is shorter than the window: the partitions
/// differ in length, but none but the last is longer than an equal share.
pub proof fn lemma_chunk_lengths(s: Seq<u8>, size: int, start: int, parts: nat, k: int)
    requires
        chunks_from(s, size, start, parts) is Some,
        0 <= start,
        0 <= size,
        start + (parts - 1) * size <= s.len(),
        0 <= k < parts - 1,
    ensures
        chunks_from(s, size, start, parts).unwrap()[k].len() < size,
    decreases parts,
{
    lemma_last_newline_within(s, start, start + size);
    let end = last_newline(s, start, start + size).unwrap();
    let rest = chunks_from(s, size, end + 1, (parts - 1) as nat).unwrap();
    assert(end + 1 + (parts - 2) * size <= s.len()) by (nonlinear_arith)
        requires
            start + (parts - 1) * size <= s.len(),
            end < start + size,
    ;
    assert(start + size <= s.len()) by (nonlinear_arith)
        requires
            start + (parts - 1) * size <= s.len(),
            parts >= 2,
            size >= 0,
    ;
    lemma_chunks_from_lossless(s, size, end + 1, (parts - 1) as nat);
    if k > 0 {
        lemma_chunk_lengths(s, size, end + 1, (parts - 1) as nat, k - 1);
        assert((seq![s.subrange(start, end)] + rest)[k] == rest[k - 1]);
    } else {
        assert((seq![s.subrange(start, end)] + rest)[0] == s.subrange(start, end));
    }
}

/// Partitioning is lossless: the partitions are as many as asked for, joined
/// with newlines they are the region byte for byte, and the records of the
/// region are the records of the partitions in turn.
pub proof fn lemma_chunking_lossless(s: Seq<u8>, parts: nat)
    ensures
        chunking(s, parts) matches Some(chunks) ==> chunks.len() == parts && join(chunks) == s
            && all_lines(chunks) == lines(s),
{
    if parts > 0 {
        let size = s.len() as int / parts as int;
        assert(0 <= size && (parts - 1) * size <= s.len()) by (nonlinear_arith)
            requires
                size == s.len() as int / parts as int,
                parts > 0,
        ;
        lemma_chunks_from_lossless(s, size, 0, parts);
        match chunking(s, parts) {
            Some(chunks) => {
                assert(s.skip(0) =~= s);
                lemma_lines_of_join(chunks);
            },
            None => {},
        }
    }
}

/// A region without any newline cannot be cut into two partitions or more.
pub proof fn lemma_chunking_needs_newline(s: Seq<u8>, parts: nat)
    requires
        absent(s, NEWLINE),
        parts >= 2,
    ensures
        chunking(s, parts) is None,
{
    let size = s.len() as int / parts as int;
    assert(0 <= size <= s.len()) by (nonlinear_arith)
        requires
            size == s.len() as int / parts as int,
            parts >= 2,
    ;
    lemma_last_newline_absent(s, size);
}

/// Every partition of a region but the last is shorter than an equal share
/// of the region.
pub proof fn lemma_chunking_lengths(s: Seq<u8>, parts: nat, k: int)
    requires
        chunking(s, parts) is Some,
        0 <= k < parts - 1,
    ensures
        chunking(s, parts).unwrap()[k].len() < s.len() as int / parts as int,
{
    let size = s.len() as int / parts as int;
    assert(0 <= size && (parts - 1) * size <= s.len()) by (nonlinear_arith)
        requires
            size == s.len() as int / parts as int,
            parts > 0,
    ;
    lemma_chunk_lengths(s, size, 0, parts, k);
}

/// Every partition after the first starts right after a newline of the
/// region: the region is what comes before the partition, a newline, and the
/// partition with what follows it.
pub proof fn lemma_chunking_boundaries(s: Seq<u8>, parts: nat, k: int)
    requires
        chunking(s, parts) is Some,
        0 < k < parts,
    ensures
        ({
            let chunks = chunking(s, parts).unwrap();
            let before = join(chunks.take(k));
            &&& s == before + seq![NEWLINE] + join(chunks.skip(k))
            &&& s[before.len() as int] == NEWLINE
        }),
{
    lemma_chunking_lossless(s, parts);
    let chunks = chunking(s, parts).unwrap();
    assert(chunks.take(k) + chunks.skip(k) =~= chunks);
    lemma_join_concat(chunks.take(k), chunks.skip(k));
}

} // verus!
