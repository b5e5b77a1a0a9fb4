//! Ingestion: from the bytes of a file, round by round or as a whole, to the
//! registries and the report.

use crate::aggregation::Stats;
use crate::chunker::{
    last_newline, lemma_last_newline_absent, lemma_last_newline_split, partition, partitioning,
    slices_view,
};
use crate::lines::{absent, all_lines, join, lemma_lines_concat, lemma_lines_of_join, lines};
use crate::registry::{
    all_wf, entries_view, lemma_within_merged_all, merged_all, reduce_registries,
    registry_views, scan_chunk, ReduceError, Registry, ScanError,
};
use crate::report::{format_report, report_of};
use crate::tally::{
    is_light, lemma_listing_of, lemma_merge_maps_empty, lemma_tally_concat,
    lemma_tally_is_merge, lemma_tally_ok_prefix, lemma_within_light, lemma_within_tally,
    line_fault, merge_maps, no_stats, tally, tally_ok, LineError,
};
use crate::temperature::{parse_record, NEWLINE};
use itertools::Itertools;
use vstd::prelude::*;
use vstd::slice::{slice_subrange, slice_to_vec};

verus! {

/// The region without the one newline that may end it.
pub open spec fn trimmed(s: Seq<u8>) -> Seq<u8> {
    if s.len() > 0 && s.last() == NEWLINE {
        s.drop_last()
    } else {
        s
    }
}

/// The lines of the records of a whole file: none for an empty file, else
/// the lines of the file without the newline that may end it.
pub open spec fn region_lines(s: Seq<u8>) -> Seq<Seq<u8>> {
    if s.len() == 0 {
        Seq::<Seq<u8>>::empty()
    } else {
        lines(trimmed(s))
    }
}

/// The bytes that a round scans, if any.  The last round scans what is left,
/// without the newline that may end it; a round before it scans up to the
/// last newline of the working buffer.
pub open spec fn round_piece(working: Seq<u8>, at_end: bool) -> Option<Seq<u8>> {
    if at_end {
        if working.len() == 0 {
            None
        } else {
            Some(trimmed(working))
        }
    } else {
        match last_newline(working, 0, working.len() as int) {
            Some(i) => Some(working.take(i)),
            None => None,
        }
    }
}

/// The lines that a round scans.
pub open spec fn round_lines(working: Seq<u8>, at_end: bool) -> Seq<Seq<u8>> {
    match round_piece(working, at_end) {
        Some(piece) => lines(piece),
        None => Seq::<Seq<u8>>::empty(),
    }
}

/// The number of bytes of the working buffer that a round is done with; what
/// follows them is carried over into the next round.
pub open spec fn round_consumed(working: Seq<u8>, at_end: bool) -> int {
    if at_end {
        working.len() as int
    } else {
        match last_newline(working, 0, working.len() as int) {
            Some(i) => i + 1,
            None => 0,
        }
    }
}

/// Whether every line is a record.
pub open spec fn all_records(ls: Seq<Seq<u8>>) -> bool {
    forall|i: int| 0 <= i < ls.len() ==> parse_record(#[trigger] ls[i]) is Some
}

/// Why bytes could not be ingested.
#[derive(Clone, Debug, PartialEq, Eq)]
pub enum IngestError {
    /// A working buffer that is not the last one holds no newline.
    NoNewline,
    /// A line is no record; `line` holds its bytes.
    Malformed { line: Vec<u8> },
    /// The sum or the count of some station has no room left.
    Overflow,
}

/// What a round has to do.
#[derive(Clone, Copy, Debug, PartialEq, Eq)]
pub enum Round<'a> {
    /// Scan `to_process`, and carry `remainder` over into the next round.
    Scan { to_process: &'a [u8], remainder: &'a [u8] },
    /// Nothing is left to scan.
    Done,
}

/// Whether the byte is a newline.
pub fn is_newline(b: &u8) -> (r: bool)
    ensures
        r == (*b == NEWLINE),
{
    *b == NEWLINE
}

/// The byte sequences that a pair of slices stands for.
pub open spec fn pair_view(pair: Option<(&[u8], &[u8])>) -> Option<(Seq<u8>, Seq<u8>)> {
    match pair {
        Some((first, second)) => Some((first@, second@)),
        None => None,
    }
}

/// Whether `pair` is what follows the last newline of `s` and what comes
/// before it, in this order, or `None` for an `s` without newline.
pub open spec fn splits_at_last_newline(s: Seq<u8>, pair: Option<(Seq<u8>, Seq<u8>)>) -> bool {
    match pair {
        Some((after, before)) => s == before + seq![NEWLINE] + after && absent(after, NEWLINE),
        None => absent(s, NEWLINE),
    }
}

/// `slice::rsplitn` into at most two pieces at newlines, from the right, taken
/// as a pair by `itertools::Itertools::collect_tuple`: what follows the last
/// newline and what comes before it.  A buffer without newline gives one
/// piece only, of which `collect_tuple` makes `None`.
#[verifier::external_body]
fn rsplit_at_newline<'a>(buffer: &'a [u8]) -> (pair: Option<(&'a [u8], &'a [u8])>)
    ensures
        splits_at_last_newline(buffer@, pair_view(pair)),
{
    buffer.rsplitn(2, is_newline).collect_tuple()
}

/// Plans one round on the working buffer.  `at_end` says that nothing will be
/// read after what the buffer holds.
///
/// Before the end the buffer is split at its last newline: what comes before
/// is to be scanned, what follows is carried over.  At the end the whole
/// buffer is to be scanned, without the newline that may end it, and an
/// empty buffer leaves nothing to do.
pub fn plan_round<'a>(working: &'a [u8], at_end: bool) -> (r: Result<Round<'a>, IngestError>)
    ensures
        match r {
            Ok(Round::Scan { to_process, remainder }) => {
                &&& round_piece(working@, at_end) == Some(to_process@)
                &&& working@.len() - remainder@.len() == round_consumed(working@, at_end)
                &&& remainder@ == working@.skip(round_consumed(working@, at_end))
                &&& if at_end {
                    working@.len() > 0 && to_process@ == trimmed(working@)
                } else {
                    working@ == to_process@ + seq![NEWLINE] + remainder@ && absent(
                        remainder@,
                        NEWLINE,
                    )
                }
            },
            Ok(Round::Done) => at_end && working@.len() == 0,
            Err(e) => e is NoNewline && !at_end && absent(working@, NEWLINE) && round_piece(
                working@,
                at_end,
            ) is None,
        },
{
    let len = working.len();
    if at_end {
        if len == 0 {
            return Ok(Round::Done);
        }
        let end = if working[len - 1] == NEWLINE {
            len - 1
        } else {
            len
        };
        let to_process = slice_subrange(working, 0, end);
        let remainder = slice_subrange(working, len, len);
        proof {
            assert(to_process@ =~= trimmed(working@));
            assert(remainder@ =~= working@.skip(len as int));
        }
        Ok(Round::Scan { to_process, remainder })
    } else {
        match rsplit_at_newline(working) {
            Some((remainder, to_process)) => {
                proof {
                    lemma_last_newline_split(working@, to_process@, remainder@);
                    assert(working@.take(to_process@.len() as int) =~= to_process@);
                    assert(working@.skip(to_process@.len() as int + 1) =~= remainder@);
                }
                Ok(Round::Scan { to_process, remainder })
            },
            None => {
                proof {
                    lemma_last_newline_absent(working@, working@.len() as int);
                }
                Err(IngestError::NoNewline)
            },
        }
    }
}

/// A chunk with a line that could not be folded in.
#[derive(Clone, Copy, Debug, PartialEq, Eq, Structural)]
pub struct PartitionError {
    /// The number of chunks before the chunk.
    pub chunk: usize,
    /// The line, and where it stands in the chunk.
    pub error: ScanError,
}

/// Whether `after` is `before` with chunk `i` scanned into registry `i`, for
/// each of the first `n` chunks.
pub open spec fn scanned_upto(
    before: Seq<Map<Seq<u8>, Stats>>,
    chunks: Seq<Seq<u8>>,
    n: int,
    after: Seq<Map<Seq<u8>, Stats>>,
) -> bool {
    &&& after.len() == before.len()
    &&& forall|i: int|
        0 <= i < after.len() ==> #[trigger] after[i] == if i < n {
            tally(before[i], lines(chunks[i]))
        } else {
            before[i]
        }
}

/// Whether each of the first `n` chunks can be scanned into its registry.
pub open spec fn scannable_upto(
    before: Seq<Map<Seq<u8>, Stats>>,
    chunks: Seq<Seq<u8>>,
    n: int,
) -> bool {
    forall|i: int| 0 <= i < n ==> tally_ok(#[trigger] before[i], lines(chunks[i]))
}

/// Scans chunk `i` into registry `i`, for every chunk, and stops at the first
/// chunk with a line that cannot be folded in.  This is what the workers of
/// one round do, each on its own chunk and registry.
pub fn scan_partitions(registries: &mut Vec<Registry>, chunks: &Vec<&[u8]>) -> (r: Result<
    (),
    PartitionError,
>)
    requires
        all_wf(old(registries)@),
        chunks@.len() <= old(registries)@.len(),
    ensures
        all_wf(final(registries)@),
        final(registries)@.len() == old(registries)@.len(),
        match r {
            Ok(()) => {
                &&& scannable_upto(
                    registry_views(old(registries)@),
                    slices_view(chunks@),
                    chunks@.len() as int,
                )
                &&& scanned_upto(
                    registry_views(old(registries)@),
                    slices_view(chunks@),
                    chunks@.len() as int,
                    registry_views(final(registries)@),
                )
            },
            Err(e) => {
                let before = registry_views(old(registries)@);
                let ls = lines(chunks@[e.chunk as int]@);
                &&& e.chunk < chunks@.len()
                &&& scannable_upto(before, slices_view(chunks@), e.chunk as int)
                &&& e.error.line < ls.len()
                &&& e.error.start <= e.error.end <= chunks@[e.chunk as int]@.len()
                &&& ls[e.error.line as int] == chunks@[e.chunk as int]@.subrange(
                    e.error.start as int,
                    e.error.end as int,
                )
                &&& line_fault(
                    tally(before[e.chunk as int], ls.take(e.error.line as int)),
                    ls[e.error.line as int],
                ) == Some(e.error.cause)
                &&& !tally_ok(before[e.chunk as int], ls)
                &&& e.error.cause == LineError::Overflow ==> !is_light(
                    tally(before[e.chunk as int], ls),
                )
                &&& scanned_upto(
                    before,
                    slices_view(chunks@),
                    e.chunk as int,
                    registry_views(final(registries)@).update(
                        e.chunk as int,
                        before[e.chunk as int],
                    ),
                )
                &&& registry_views(final(registries)@)[e.chunk as int] == tally(
                    before[e.chunk as int],
                    ls.take(e.error.line as int),
                )
            },
        },
{
    let mut i: usize = 0;
    while i < chunks.len()
        invariant
            i <= chunks@.len(),
            chunks@.len() <= registries@.len(),
            registries@.len() == old(registries)@.len(),
            all_wf(registries@),
            scannable_upto(registry_views(old(registries)@), slices_view(chunks@), i as int),
            scanned_upto(
                registry_views(old(registries)@),
                slices_view(chunks@),
                i as int,
                registry_views(registries@),
            ),
        decreases chunks@.len() - i,
    {
        let ghost before = registries@;
        assert(registries@[i as int].wf());
        assert(registry_views(registries@)[i as int] == registry_views(old(registries)@)[i as int]);
        let outcome = scan_chunk(&mut registries[i], chunks[i]);
        proof {
            assert(forall|j: int|
                0 <= j < registries@.len() && j != i ==> registries@[j] == before[j]);
            assert forall|j: int| 0 <= j < registries@.len() implies (
            #[trigger] registries@[j]).wf() by {
                if j != i {
                    assert(before[j].wf());
                }
            }
        }
        match outcome {
            Ok(()) => {},
            Err(error) => {
                proof {
                    let olds = registry_views(old(registries)@);
                    let now = registry_views(registries@).update(i as int, olds[i as int]);
                    assert forall|j: int| 0 <= j < now.len() implies #[trigger] now[j] == if j
                        < i {
                        tally(olds[j], lines(slices_view(chunks@)[j]))
                    } else {
                        olds[j]
                    } by {
                        if j != i {
                            assert(registry_views(registries@)[j] == registry_views(before)[j]);
                        }
                    }
                }
                return Err(PartitionError { chunk: i, error });
            },
        }
        proof {
            assert forall|j: int| 0 <= j < registries@.len() implies #[trigger] registry_views(
                registries@,
            )[j] == if j < i + 1 {
                tally(
                    registry_views(old(registries)@)[j],
                    lines(slices_view(chunks@)[j]),
                )
            } else {
                registry_views(old(registries)@)[j]
            } by {
                if j != i {
                    assert(registry_views(registries@)[j] == registry_views(before)[j]);
                }
            }
        }
        i = i + 1;
    }
    Ok(())
}

/// The maps with maps of no record put behind them until they are `n`.
pub open spec fn padded(ms: Seq<Map<Seq<u8>, Stats>>, n: int) -> Seq<Map<Seq<u8>, Stats>> {
    if ms.len() >= n {
        ms
    } else {
        ms + Seq::new((n - ms.len()) as nat, |i: int| no_stats())
    }
}

/// Maps of no record put behind the others change nothing of what they all
/// merge to.
pub proof fn lemma_padded_merged(ms: Seq<Map<Seq<u8>, Stats>>, n: int)
    ensures
        merged_all(padded(ms, n)) == merged_all(ms),
    decreases n - ms.len(),
{
    if ms.len() < n {
        let longer = padded(ms, n);
        lemma_padded_merged(ms, n - 1);
        assert(longer.drop_last() =~= padded(ms, n - 1));
        assert(longer.last() == no_stats());
        lemma_merge_maps_empty(merged_all(longer.drop_last()));
    }
}

/// Puts fresh registries behind the others until there are `n` of them.
pub fn ensure_registries(registries: &mut Vec<Registry>, n: usize)
    requires
        all_wf(old(registries)@),
    ensures
        all_wf(final(registries)@),
        final(registries)@.len() >= n,
        registry_views(final(registries)@) == padded(registry_views(old(registries)@), n as int),
{
    if registries.len() >= n {
        return ;
    }
    let ghost start = registries@.len();
    while registries.len() < n
        invariant
            start == old(registries)@.len(),
            start < n,
            start <= registries@.len() <= n,
            all_wf(registries@),
            registry_views(registries@) == padded(
                registry_views(old(registries)@),
                registries@.len() as int,
            ),
        decreases n - registries@.len(),
    {
        let ghost before = registries@;
        registries.push(Registry::new());
        proof {
            assert forall|j: int| 0 <= j < registries@.len() implies (
            #[trigger] registries@[j]).wf() by {
                if j < before.len() {
                    assert(before[j].wf());
                }
            }
            let olds = registry_views(old(registries)@);
            let now = registry_views(registries@);
            let goal = padded(olds, registries@.len() as int);
            assert(registries@[before.len() as int]@ == no_stats());
            assert(goal.len() == now.len());
            assert forall|j: int| 0 <= j < now.len() implies now[j] == goal[j] by {
                if j < before.len() {
                    assert(registries@[j] == before[j]);
                    assert(now[j] == registry_views(before)[j]);
                    assert(padded(olds, before.len() as int)[j] == goal[j]);
                }
            }
            assert(now =~= goal);
        }
    }
}

/// Where every line can be folded in, every line is a record.
pub proof fn lemma_tally_ok_records(m: Map<Seq<u8>, Stats>, ls: Seq<Seq<u8>>)
    requires
        tally_ok(m, ls),
    ensures
        all_records(ls),
{
    assert forall|i: int| 0 <= i < ls.len() implies parse_record(#[trigger] ls[i]) is Some by {
        lemma_tally_ok_prefix(m, ls, i);
    }
}

/// Where the lines of every piece are records, so are the lines of them all.
pub proof fn lemma_all_lines_records(pieces: Seq<Seq<u8>>)
    requires
        forall|k: int| 0 <= k < pieces.len() ==> all_records(lines(#[trigger] pieces[k])),
    ensures
        all_records(all_lines(pieces)),
    decreases pieces.len(),
{
    if pieces.len() > 0 {
        let front = pieces.drop_last();
        assert forall|k: int| 0 <= k < front.len() implies all_records(
            lines(#[trigger] front[k]),
        ) by {
            assert(front[k] == pieces[k]);
        }
        lemma_all_lines_records(front);
        assert(all_records(lines(pieces[pieces.len() - 1])));
    }
}

/// A line of one of the pieces is a line of them all.
pub proof fn lemma_all_lines_contains(pieces: Seq<Seq<u8>>, k: int, line: Seq<u8>)
    requires
        0 <= k < pieces.len(),
        lines(pieces[k]).contains(line),
    ensures
        all_lines(pieces).contains(line),
    decreases pieces.len(),
{
    let front = all_lines(pieces.drop_last());
    let back = lines(pieces.last());
    if k == pieces.len() - 1 {
        let i = choose|i: int| 0 <= i < back.len() && back[i] == line;
        assert((front + back)[front.len() + i] == line);
    } else {
        lemma_all_lines_contains(pieces.drop_last(), k, line);
        let i = choose|i: int| 0 <= i < front.len() && front[i] == line;
        assert((front + back)[i] == line);
    }
}

/// Registries that each scanned its own chunk merge to what one registry
/// holds that scanned all the chunks in turn.
pub proof fn lemma_scanned_merge(
    before: Seq<Map<Seq<u8>, Stats>>,
    chunks: Seq<Seq<u8>>,
    after: Seq<Map<Seq<u8>, Stats>>,
)
    requires
        chunks.len() <= before.len(),
        scanned_upto(before, chunks, chunks.len() as int, after),
    ensures
        merged_all(after) == tally(merged_all(before), all_lines(chunks)),
    decreases before.len(),
{
    if before.len() == 0 {
        assert(after =~= before);
    } else {
        let b = before.last();
        let mb = merged_all(before.drop_last());
        assert(after[after.len() - 1] == after.last());
        if chunks.len() == before.len() {
            let front = all_lines(chunks.drop_last());
            let back = lines(chunks.last());
            assert(scanned_upto(
                before.drop_last(),
                chunks.drop_last(),
                chunks.len() - 1,
                after.drop_last(),
            )) by {
                assert forall|i: int| 0 <= i < after.drop_last().len() implies
                    #[trigger] after.drop_last()[i] == if i < chunks.len() - 1 {
                        tally(before.drop_last()[i], lines(chunks.drop_last()[i]))
                    } else {
                        before.drop_last()[i]
                    } by {
                    assert(after.drop_last()[i] == after[i]);
                }
            }
            lemma_scanned_merge(before.drop_last(), chunks.drop_last(), after.drop_last());
            let t1 = tally(no_stats(), front);
            let t2 = tally(no_stats(), back);
            lemma_tally_is_merge(mb, front);
            lemma_tally_is_merge(b, back);
            lemma_tally_concat(no_stats(), front, back);
            lemma_tally_is_merge(t1, back);
            lemma_tally_is_merge(merged_all(before), front + back);
            assert(merge_maps(merge_maps(mb, t1), merge_maps(b, t2)) =~= merge_maps(
                merge_maps(mb, b),
                merge_maps(t1, t2),
            ));
        } else {
            assert(scanned_upto(
                before.drop_last(),
                chunks,
                chunks.len() as int,
                after.drop_last(),
            )) by {
                assert forall|i: int| 0 <= i < after.drop_last().len() implies
                    #[trigger] after.drop_last()[i] == if i < chunks.len() {
                        tally(before.drop_last()[i], lines(chunks[i]))
                    } else {
                        before.drop_last()[i]
                    } by {
                    assert(after.drop_last()[i] == after[i]);
                }
            }
            lemma_scanned_merge(before.drop_last(), chunks, after.drop_last());
            let t = tally(no_stats(), all_lines(chunks));
            lemma_tally_is_merge(mb, all_lines(chunks));
            lemma_tally_is_merge(merged_all(before), all_lines(chunks));
            assert(merge_maps(merge_maps(mb, t), b) =~= merge_maps(merge_maps(mb, b), t));
        }
    }
}

/// What the registries would hold with each of the chunks scanned into its
/// own registry.
pub open spec fn scanned_states(
    before: Seq<Map<Seq<u8>, Stats>>,
    chunks: Seq<Seq<u8>>,
) -> Seq<Map<Seq<u8>, Stats>> {
    Seq::new(
        before.len(),
        |i: int|
            if i < chunks.len() {
                tally(before[i], lines(chunks[i]))
            } else {
                before[i]
            },
    )
}

/// Where one registry is not light with its chunk scanned into it, one
/// registry with all the chunks scanned into it is not light either.
pub proof fn lemma_scan_overflow_is_heavy(
    before: Seq<Map<Seq<u8>, Stats>>,
    chunks: Seq<Seq<u8>>,
    c: int,
)
    requires
        chunks.len() <= before.len(),
        0 <= c < chunks.len(),
        !is_light(tally(before[c], lines(chunks[c]))),
    ensures
        !is_light(tally(merged_all(before), all_lines(chunks))),
{
    let after = scanned_states(before, chunks);
    lemma_scanned_merge(before, chunks, after);
    lemma_within_merged_all(after, c);
    if is_light(merged_all(after)) {
        lemma_within_light(after[c], merged_all(after));
    }
}

/// Whether a round on the working buffer goes through: there is something
/// to scan, or nothing is left at the end, and every partition of what is to
/// be scanned can be scanned into its registry.
pub open spec fn round_ok(
    before: Seq<Map<Seq<u8>, Stats>>,
    working: Seq<u8>,
    at_end: bool,
    parts: nat,
) -> bool {
    match round_piece(working, at_end) {
        Some(piece) => {
            let chunks = partitioning(piece, parts);
            scannable_upto(padded(before, chunks.len() as int), chunks, chunks.len() as int)
        },
        None => at_end,
    }
}

/// The error that a fault in a line of `chunk` comes to.
fn line_error(chunk: &[u8], error: ScanError) -> (e: IngestError)
    requires
        error.start <= error.end <= chunk@.len(),
    ensures
        match e {
            IngestError::Malformed { line } => error.cause == LineError::Malformed && line@
                == chunk@.subrange(error.start as int, error.end as int),
            IngestError::Overflow => error.cause == LineError::Overflow,
            IngestError::NoNewline => false,
        },
{
    match error.cause {
        LineError::Malformed => IngestError::Malformed {
            line: slice_to_vec(slice_subrange(chunk, error.start, error.end)),
        },
        LineError::Overflow => IngestError::Overflow,
    }
}

/// One round: plans it on the working buffer, cuts what is to be scanned
/// into partitions and scans partition `i` into registry `i`, with fresh
/// registries put behind the others where there are more partitions than
/// registries.  Returns the number of bytes of the working buffer that are
/// done with; the bytes after them are to be carried over.
pub fn scan_round(
    registries: &mut Vec<Registry>,
    working: &[u8],
    at_end: bool,
    parts: usize,
) -> (r: Result<usize, IngestError>)
    requires
        all_wf(old(registries)@),
    ensures
        all_wf(final(registries)@),
        final(registries)@.len() >= old(registries)@.len(),
        r is Ok <==> round_ok(registry_views(old(registries)@), working@, at_end, parts as nat),
        match r {
            Ok(consumed) => {
                &&& consumed == round_consumed(working@, at_end)
                &&& all_records(round_lines(working@, at_end))
                &&& match round_piece(working@, at_end) {
                    Some(piece) => {
                        let chunks = partitioning(piece, parts as nat);
                        scanned_upto(
                            padded(registry_views(old(registries)@), chunks.len() as int),
                            chunks,
                            chunks.len() as int,
                            registry_views(final(registries)@),
                        )
                    },
                    None => registry_views(final(registries)@) == registry_views(
                        old(registries)@,
                    ),
                }
                &&& merged_all(registry_views(final(registries)@)) == tally(
                    merged_all(registry_views(old(registries)@)),
                    round_lines(working@, at_end),
                )
            },
            Err(IngestError::NoNewline) => !at_end && absent(working@, NEWLINE),
            Err(IngestError::Malformed { line }) => parse_record(line@) is None && round_lines(
                working@,
                at_end,
            ).contains(line@),
            Err(IngestError::Overflow) => round_piece(working@, at_end) is Some && !is_light(
                tally(merged_all(registry_views(old(registries)@)), round_lines(working@, at_end)),
            ),
        },
{
    let (to_process, remainder) = match plan_round(working, at_end) {
        Ok(Round::Scan { to_process, remainder }) => (to_process, remainder),
        Ok(Round::Done) => {
            return Ok(0);
        },
        Err(_) => {
            return Err(IngestError::NoNewline);
        },
    };
    let chunks = partition(to_process, parts);
    let ghost olds = registry_views(registries@);
    ensure_registries(registries, chunks.len());
    let ghost before = registry_views(registries@);
    let ghost pieces = slices_view(chunks@);
    proof {
        lemma_padded_merged(olds, chunks@.len() as int);
        assert(before =~= padded(olds, pieces.len() as int)) by {
            if olds.len() >= chunks@.len() {
                assert(padded(olds, chunks@.len() as int) == olds);
            }
        }
    }
    match scan_partitions(registries, &chunks) {
        Ok(()) => {
            proof {
                let after = registry_views(registries@);
                lemma_scanned_merge(before, pieces, after);
                assert forall|k: int| 0 <= k < pieces.len() implies all_records(
                    lines(#[trigger] pieces[k]),
                ) by {
                    assert(tally_ok(before[k], lines(pieces[k])));
                    lemma_tally_ok_records(before[k], lines(pieces[k]));
                }
                lemma_all_lines_records(pieces);
            }
            Ok(working.len() - remainder.len())
        },
        Err(e) => {
            proof {
                let ls = lines(pieces[e.chunk as int]);
                assert(pieces[e.chunk as int] == chunks@[e.chunk as int]@);
                assert(!tally_ok(before[e.chunk as int], ls));
                assert(ls.contains(ls[e.error.line as int]));
                lemma_all_lines_contains(pieces, e.chunk as int, ls[e.error.line as int]);
                if e.error.cause == LineError::Overflow {
                    lemma_scan_overflow_is_heavy(before, pieces, e.chunk as int);
                }
            }
            Err(line_error(chunks[e.chunk], e.error))
        },
    }
}

/// The report of what the registries hold together.
pub fn report_registries(registries: Vec<Registry>) -> (r: Result<Vec<u8>, ReduceError>)
    requires
        all_wf(registries@),
    ensures
        match r {
            Ok(text) => registries@.len() > 0 && crate::registry::reducible(
                registry_views(registries@),
            ) && text@ == report_of(merged_all(registry_views(registries@))),
            Err(ReduceError::Empty) => registries@.len() == 0,
            Err(ReduceError::Overflow) => registries@.len() > 0 && !crate::registry::reducible(
                registry_views(registries@),
            ) && !is_light(merged_all(registry_views(registries@))),
        },
{
    let merged = match reduce_registries(registries) {
        Ok(merged) => merged,
        Err(e) => {
            return Err(e);
        },
    };
    let ghost m = merged@;
    let entries = merged.into_sorted();
    proof {
        let view = entries_view(entries@);
        lemma_listing_of(m, view);
        assert forall|i: int| 0 <= i < entries@.len() implies (
        #[trigger] entries@[i]).1@.is_live() by {
            assert(m.contains_key((#[trigger] view[i]).0) && m[view[i].0] == view[i].1);
        }
    }
    Ok(format_report(&entries))
}

/// The report of a whole file held in memory.  The region is scanned in
/// `parts` partitions, each into a registry of its own, and the registries
/// are merged; the report is that of one pass over the lines of the region.
/// A region that cannot be cut into `parts` partitions is scanned as one.
pub fn report_region(region: &[u8], parts: usize) -> (r: Result<Vec<u8>, IngestError>)
    ensures
        all_records(region_lines(region@)) && is_light(tally(no_stats(), region_lines(region@)))
            ==> r is Ok,
        match r {
            Ok(text) => all_records(region_lines(region@)) && text@ == report_of(
                tally(no_stats(), region_lines(region@)),
            ),
            Err(IngestError::Malformed { line }) => parse_record(line@) is None && region_lines(
                region@,
            ).contains(line@),
            Err(IngestError::Overflow) => !is_light(tally(no_stats(), region_lines(region@))),
            Err(IngestError::NoNewline) => false,
        },
{
    let mut registries: Vec<Registry> = Vec::new();
    assert(registry_views(registries@) =~= Seq::<Map<Seq<u8>, Stats>>::empty());
    match scan_round(&mut registries, region, true, parts) {
        Ok(_) => {},
        Err(e) => {
            return Err(e);
        },
    }
    let ghost scanned = registry_views(registries@);
    ensure_registries(&mut registries, 1);
    proof {
        lemma_padded_merged(scanned, 1);
        assert(round_lines(region@, true) == region_lines(region@));
        assert(merged_all(Seq::<Map<Seq<u8>, Stats>>::empty()) == no_stats());
        assert(merged_all(registry_views(registries@)) == tally(
            no_stats(),
            region_lines(region@),
        ));
        if region@.len() == 0 {
            assert(scanned.len() == 0);
            assert(registry_views(registries@).len() == 1);
            assert(crate::registry::reducible(registry_views(registries@)));
        }
    }
    match report_registries(registries) {
        Ok(text) => Ok(text),
        Err(_) => Err(IngestError::Overflow),
    }
}

/// What a file holds before the working buffer once the pieces are scanned:
/// the pieces, each followed by a newline.
pub open spec fn scanned_prefix(pieces: Seq<Seq<u8>>) -> Seq<u8> {
    if pieces.len() == 0 {
        Seq::<u8>::empty()
    } else {
        join(pieces) + seq![NEWLINE]
    }
}

/// Whether the `block` bytes of the region from `from` on hold no newline,
/// with more bytes after them.
pub open spec fn gap_at(region: Seq<u8>, block: int, from: int) -> bool {
    0 <= from && from + block < region.len() && absent(
        region.subrange(from, from + block),
        NEWLINE,
    )
}

/// The lines of the pieces with one more piece are the lines of the pieces
/// followed by the lines of that piece.
pub proof fn lemma_all_lines_push(pieces: Seq<Seq<u8>>, piece: Seq<u8>)
    ensures
        all_lines(pieces.push(piece)) == all_lines(pieces) + lines(piece),
        scanned_prefix(pieces) + piece == join(pieces.push(piece)),
{
    let more = pieces.push(piece);
    assert(more.drop_last() =~= pieces);
    assert(more.last() == piece);
    if pieces.len() == 0 {
        assert(scanned_prefix(pieces) + piece =~= join(more));
    }
}

/// A round before the end scans the next piece of the file: with it, the
/// pieces reach up to the bytes that the round is done with.
pub proof fn lemma_round_extends(
    region: Seq<u8>,
    start: int,
    filled: int,
    pieces: Seq<Seq<u8>>,
)
    requires
        0 <= start <= filled <= region.len(),
        region.take(start) == scanned_prefix(pieces),
        round_piece(region.subrange(start, filled), false) is Some,
    ensures
        ({
            let working = region.subrange(start, filled);
            let piece = round_piece(working, false).unwrap();
            let consumed = round_consumed(working, false);
            &&& 1 <= consumed <= filled - start
            &&& region.take(start + consumed) == scanned_prefix(pieces.push(piece))
            &&& region.take(start + consumed) == join(pieces.push(piece)) + seq![NEWLINE]
        }),
{
    let working = region.subrange(start, filled);
    let piece = round_piece(working, false).unwrap();
    let consumed = round_consumed(working, false);
    crate::chunker::lemma_last_newline_within(working, 0, working.len() as int);
    lemma_all_lines_push(pieces, piece);
    assert(region.take(start + consumed) =~= region.take(start) + piece + seq![NEWLINE]);
    assert(scanned_prefix(pieces) + piece + seq![NEWLINE] =~= join(pieces.push(piece)) + seq![
        NEWLINE,
    ]);
}

/// At the end of a file, its lines are the lines of the pieces scanned before
/// followed by the lines of the last round.
pub proof fn lemma_stream_end(region: Seq<u8>, start: int, pieces: Seq<Seq<u8>>)
    requires
        0 <= start <= region.len(),
        region.take(start) == scanned_prefix(pieces),
    ensures
        region_lines(region) == all_lines(pieces) + round_lines(region.skip(start), true),
{
    let working = region.skip(start);
    assert(region =~= region.take(start) + working);
    if working.len() == 0 {
        assert(region =~= scanned_prefix(pieces));
        if pieces.len() > 0 {
            assert(trimmed(region) =~= join(pieces));
            lemma_lines_of_join(pieces);
        }
        assert(region_lines(region) =~= all_lines(pieces) + round_lines(working, true));
    } else {
        let piece = trimmed(working);
        assert(region.last() == working.last());
        assert(trimmed(region) =~= scanned_prefix(pieces) + piece);
        lemma_all_lines_push(pieces, piece);
        lemma_lines_of_join(pieces.push(piece));
    }
}

/// The lines that the rounds have scanned up to a round before the end are
/// the first lines of the file.
pub proof fn lemma_round_lines_prefix(
    region: Seq<u8>,
    start: int,
    filled: int,
    pieces: Seq<Seq<u8>>,
)
    requires
        0 <= start <= filled <= region.len(),
        region.take(start) == scanned_prefix(pieces),
        round_piece(region.subrange(start, filled), false) is Some,
    ensures
        ({
            let scanned = all_lines(pieces) + round_lines(region.subrange(start, filled), false);
            &&& scanned.len() <= region_lines(region).len()
            &&& region_lines(region).take(scanned.len() as int) == scanned
        }),
{
    let working = region.subrange(start, filled);
    let piece = round_piece(working, false).unwrap();
    let consumed = round_consumed(working, false);
    lemma_round_extends(region, start, filled, pieces);
    let done = join(pieces.push(piece));
    let rest = region.skip(start + consumed);
    assert(region =~= done + seq![NEWLINE] + rest) by {
        assert(region =~= region.take(start + consumed) + rest);
    }
    lemma_lines_of_join(pieces.push(piece));
    lemma_all_lines_push(pieces, piece);
    let scanned = all_lines(pieces) + lines(piece);
    if rest.len() == 0 {
        assert(trimmed(region) =~= done);
        assert(region_lines(region).take(scanned.len() as int) =~= scanned);
    } else {
        assert(region.last() == rest.last());
        assert(trimmed(region) =~= done + seq![NEWLINE] + trimmed(rest));
        lemma_lines_concat(done, trimmed(rest));
        assert(region_lines(region).take(scanned.len() as int) =~= scanned);
    }
}

/// Where the first lines of a file make a map that is not light, so do all
/// its lines.
pub proof fn lemma_prefix_is_heavy(scanned: Seq<Seq<u8>>, all: Seq<Seq<u8>>)
    requires
        scanned.len() <= all.len(),
        all.take(scanned.len() as int) == scanned,
        !is_light(tally(no_stats(), scanned)),
    ensures
        !is_light(tally(no_stats(), all)),
{
    let more = all.skip(scanned.len() as int);
    assert(scanned + more =~= all);
    lemma_tally_concat(no_stats(), scanned, more);
    lemma_within_tally(tally(no_stats(), scanned), more);
    if is_light(tally(no_stats(), all)) {
        lemma_within_light(tally(no_stats(), scanned), tally(no_stats(), all));
    }
}

/// The report of a file that is read block by block.  The working buffer
/// holds `block` bytes, or what is left of the file; each round scans it up
/// to its last newline and carries the rest over to the front of the next
/// buffer.  The report is that of one pass over the lines of the region,
/// whatever the size of the blocks, as long as every buffer before the last
/// holds a newline.
pub fn stream_report(region: &[u8], block: usize, parts: usize) -> (r: Result<
    Vec<u8>,
    IngestError,
>)
    ensures
        all_records(region_lines(region@)) && is_light(tally(no_stats(), region_lines(region@)))
            && !(exists|from: int| gap_at(region@, block as int, from)) ==> r is Ok,
        match r {
            Ok(text) => all_records(region_lines(region@)) && text@ == report_of(
                tally(no_stats(), region_lines(region@)),
            ),
            Err(IngestError::Malformed { line }) => parse_record(line@) is None && region_lines(
                region@,
            ).contains(line@),
            Err(IngestError::Overflow) => !is_light(tally(no_stats(), region_lines(region@))),
            Err(IngestError::NoNewline) => exists|from: int| gap_at(region@, block as int, from),
        },
{
    let len = region.len();
    let mut registries: Vec<Registry> = Vec::new();
    let mut start: usize = 0;
    let ghost mut pieces: Seq<Seq<u8>> = Seq::empty();
    proof {
        assert(registry_views(registries@) =~= Seq::<Map<Seq<u8>, Stats>>::empty());
        assert(merged_all(registry_views(registries@)) == no_stats());
        assert(region@.take(0) =~= scanned_prefix(pieces));
    }
    loop
        invariant
            len == region@.len(),
            start <= len,
            all_wf(registries@),
            region@.take(start as int) == scanned_prefix(pieces),
            merged_all(registry_views(registries@)) == tally(no_stats(), all_lines(pieces)),
            all_records(all_lines(pieces)),
            len == 0 ==> registries@.len() == 0,
        decreases len - start,
    {
        let filled = if len - start <= block {
            len
        } else {
            start + block
        };
        let at_end = filled == len;
        let working = slice_subrange(region, start, filled);
        let ghost before = merged_all(registry_views(registries@));
        proof {
            if at_end {
                assert(working@ =~= region@.skip(start as int));
                lemma_stream_end(region@, start as int, pieces);
            }
        }
        match scan_round(&mut registries, working, at_end, parts) {
            Err(e) => {
                proof {
                    match &e {
                        IngestError::Malformed { line } => {
                            let ls = round_lines(working@, at_end);
                            let scanned = all_lines(pieces) + ls;
                            let i = choose|i: int| 0 <= i < ls.len() && ls[i] == line@;
                            assert(scanned[all_lines(pieces).len() + i] == line@);
                            if !at_end {
                                lemma_round_lines_prefix(
                                    region@,
                                    start as int,
                                    filled as int,
                                    pieces,
                                );
                                assert(region_lines(region@).take(scanned.len() as int)[all_lines(
                                    pieces,
                                ).len() + i] == line@);
                            }
                        },
                        IngestError::NoNewline => {
                            assert(gap_at(region@, block as int, start as int));
                        },
                        IngestError::Overflow => {
                            let ls = round_lines(working@, at_end);
                            lemma_tally_concat(no_stats(), all_lines(pieces), ls);
                            if !at_end {
                                lemma_round_lines_prefix(
                                    region@,
                                    start as int,
                                    filled as int,
                                    pieces,
                                );
                                lemma_prefix_is_heavy(
                                    all_lines(pieces) + ls,
                                    region_lines(region@),
                                );
                            }
                        },
                    }
                }
                return Err(e);
            },
            Ok(consumed) => {
                proof {
                    let ls = round_lines(working@, at_end);
                    lemma_tally_concat(no_stats(), all_lines(pieces), ls);
                    assert(all_records(all_lines(pieces) + ls));
                }
                if at_end {
                    let ghost scanned = registry_views(registries@);
                    ensure_registries(&mut registries, 1);
                    proof {
                        lemma_padded_merged(scanned, 1);
                        assert(region_lines(region@) == all_lines(pieces) + round_lines(
                            working@,
                            true,
                        ));
                        assert(merged_all(registry_views(registries@)) == tally(
                            no_stats(),
                            region_lines(region@),
                        ));
                        if len == 0 {
                            assert(scanned.len() == 0);
                            assert(registry_views(registries@).len() == 1);
                            assert(crate::registry::reducible(registry_views(registries@)));
                        }
                    }
                    return match report_registries(registries) {
                        Ok(text) => Ok(text),
                        Err(_) => Err(IngestError::Overflow),
                    };
                }
                proof {
                    lemma_round_extends(region@, start as int, filled as int, pieces);
                    let piece = round_piece(working@, false).unwrap();
                    lemma_all_lines_push(pieces, piece);
                    pieces = pieces.push(piece);
                }
                start = start + consumed;
            },
        }
    }
}

} // verus!
