//! What a registry stands for: a map from station names to statistics, and
//! how records and other registries are folded into it.

use crate::aggregation::{
    lemma_merge_live, lemma_merge_order_free, lemma_unfit_is_heavy, lemma_update_is_merge,
    lemma_update_live, Stats,
};
use crate::lines::{all_lines, join, lemma_lines_of_join, lines};
use crate::sorter::{lemma_lex_antisymmetric, lemma_lex_total, lex_le, lex_lt};
use crate::temperature::{parse_record, MAX_TENTHS};
use vstd::prelude::*;

verus! {

/// Why a line could not be folded into a registry.
#[derive(Clone, Copy, Debug, PartialEq, Eq, Structural)]
pub enum LineError {
    /// The line is no record.
    Malformed,
    /// The sum or the count of the station of the record has no room left.
    Overflow,
}

/// The map after a temperature `v` for station `name`: the first one of a
/// station makes its statistics, a later one is folded into them.
pub open spec fn record(m: Map<Seq<u8>, Stats>, name: Seq<u8>, v: int) -> Map<Seq<u8>, Stats> {
    if m.contains_key(name) {
        m.insert(name, m[name].update(v))
    } else {
        m.insert(name, Stats::single(v))
    }
}

/// Whether the statistics of `name` after one more temperature `v` still fit
/// the machine integers.
pub open spec fn recordable(m: Map<Seq<u8>, Stats>, name: Seq<u8>, v: int) -> bool {
    m.contains_key(name) ==> m[name].update(v).fits()
}

/// What stands in the way of folding `line` into `m`, if anything.
pub open spec fn line_fault(m: Map<Seq<u8>, Stats>, line: Seq<u8>) -> Option<LineError> {
    match parse_record(line) {
        None => Some(LineError::Malformed),
        Some((name, v)) => if recordable(m, name, v) {
            None
        } else {
            Some(LineError::Overflow)
        },
    }
}

/// The map after `line`; a line that is no record changes nothing.
pub open spec fn apply_line(m: Map<Seq<u8>, Stats>, line: Seq<u8>) -> Map<Seq<u8>, Stats> {
    match parse_record(line) {
        Some((name, v)) => record(m, name, v),
        None => m,
    }
}

/// The map after all the lines of `ls`, in their order.
pub open spec fn tally(m: Map<Seq<u8>, Stats>, ls: Seq<Seq<u8>>) -> Map<Seq<u8>, Stats>
    decreases ls.len(),
{
    if ls.len() == 0 {
        m
    } else {
        apply_line(tally(m, ls.drop_last()), ls.last())
    }
}

/// Whether every line of `ls` can be folded into what the lines before it
/// made of `m`: each is a record, and none finds its station without room.
pub open spec fn tally_ok(m: Map<Seq<u8>, Stats>, ls: Seq<Seq<u8>>) -> bool
    decreases ls.len(),
{
    ls.len() == 0 || (tally_ok(m, ls.drop_last()) && line_fault(
        tally(m, ls.drop_last()),
        ls.last(),
    ) is None)
}

/// The map that stands for the records of both `a` and `b`: a station of both
/// has its statistics merged, a station of one keeps them.
pub open spec fn merge_maps(a: Map<Seq<u8>, Stats>, b: Map<Seq<u8>, Stats>) -> Map<
    Seq<u8>,
    Stats,
> {
    Map::new(
        |k: Seq<u8>| a.contains_key(k) || b.contains_key(k),
        |k: Seq<u8>|
            if a.contains_key(k) && b.contains_key(k) {
                a[k].merge(b[k])
            } else if a.contains_key(k) {
                a[k]
            } else {
                b[k]
            },
    )
}

/// Whether the merged statistics of every station of both maps fit the
/// machine integers.
pub open spec fn mergeable(a: Map<Seq<u8>, Stats>, b: Map<Seq<u8>, Stats>) -> bool {
    forall|k: Seq<u8>|
        a.contains_key(k) && b.contains_key(k) ==> (#[trigger] a[k]).merge(b[k]).fits()
}

/// Whether all statistics of the map are those of at least one temperature.
pub open spec fn all_live(m: Map<Seq<u8>, Stats>) -> bool {
    forall|k: Seq<u8>| m.contains_key(k) ==> (#[trigger] m[k]).is_live()
}

/// Whether all statistics of the map fit the machine integers.
pub open spec fn all_fit(m: Map<Seq<u8>, Stats>) -> bool {
    forall|k: Seq<u8>| m.contains_key(k) ==> (#[trigger] m[k]).fits()
}

/// What folding `line` into `m` comes to: done, or the fault that stops it.
pub open spec fn line_outcome(m: Map<Seq<u8>, Stats>, line: Seq<u8>) -> Result<(), LineError> {
    match line_fault(m, line) {
        None => Ok(()),
        Some(e) => Err(e),
    }
}

/// Whether `es` lists the map: every station once, with its statistics, in
/// the strict byte-wise order of the names.
pub open spec fn is_listing(m: Map<Seq<u8>, Stats>, es: Seq<(Seq<u8>, Stats)>) -> bool {
    &&& forall|i: int, j: int| 0 <= i < j < es.len() ==> lex_lt(es[i].0, es[j].0)
    &&& forall|i: int|
        0 <= i < es.len() ==> m.contains_key((#[trigger] es[i]).0) && m[es[i].0] == es[i].1
    &&& forall|k: Seq<u8>| #[trigger]
        m.contains_key(k) ==> exists|i: int| 0 <= i < es.len() && (#[trigger] es[i]).0 == k
}

/// The map that stands for no record.
pub open spec fn no_stats() -> Map<Seq<u8>, Stats> {
    Map::empty()
}

/// The maps of the pieces, each tallied alone from nothing, merged in turn.
pub open spec fn merged_tallies(pieces: Seq<Seq<u8>>) -> Map<Seq<u8>, Stats>
    decreases pieces.len(),
{
    if pieces.len() == 0 {
        no_stats()
    } else {
        merge_maps(merged_tallies(pieces.drop_last()), tally(no_stats(), lines(pieces.last())))
    }
}

/// Merging maps does not depend on their order.
pub proof fn lemma_merge_maps_commutative(a: Map<Seq<u8>, Stats>, b: Map<Seq<u8>, Stats>)
    ensures
        merge_maps(a, b) == merge_maps(b, a),
{
    assert forall|k: Seq<u8>| a.contains_key(k) && b.contains_key(k) implies a[k].merge(b[k])
        == b[k].merge(a[k]) by {
        lemma_merge_order_free(a[k], b[k], a[k]);
    }
    assert(merge_maps(a, b) =~= merge_maps(b, a));
}

/// Merging maps does not depend on how they are grouped.
pub proof fn lemma_merge_maps_associative(
    a: Map<Seq<u8>, Stats>,
    b: Map<Seq<u8>, Stats>,
    c: Map<Seq<u8>, Stats>,
)
    ensures
        merge_maps(merge_maps(a, b), c) == merge_maps(a, merge_maps(b, c)),
{
    assert(merge_maps(merge_maps(a, b), c) =~= merge_maps(a, merge_maps(b, c)));
}

/// Merging with the map of no record changes nothing.
pub proof fn lemma_merge_maps_empty(a: Map<Seq<u8>, Stats>)
    ensures
        merge_maps(a, no_stats()) == a,
        merge_maps(no_stats(), a) == a,
{
    assert(merge_maps(a, no_stats()) =~= a);
    assert(merge_maps(no_stats(), a) =~= a);
}

/// Merging live maps gives a live map.
pub proof fn lemma_merge_maps_live(a: Map<Seq<u8>, Stats>, b: Map<Seq<u8>, Stats>)
    requires
        all_live(a),
        all_live(b),
    ensures
        all_live(merge_maps(a, b)),
{
    assert forall|k: Seq<u8>| merge_maps(a, b).contains_key(k) implies (#[trigger] merge_maps(
        a,
        b,
    )[k]).is_live() by {
        if a.contains_key(k) && b.contains_key(k) {
            lemma_merge_live(a[k], b[k]);
        }
    }
}

/// A record folded into a live map leaves it live.
pub proof fn lemma_apply_line_live(m: Map<Seq<u8>, Stats>, line: Seq<u8>)
    requires
        all_live(m),
    ensures
        all_live(apply_line(m, line)),
{
    match parse_record(line) {
        Some((name, v)) => {
            crate::temperature::lemma_parse_in_range(line);
            if m.contains_key(name) {
                lemma_update_live(m[name], v);
            } else {
                lemma_update_live(Stats::empty(), v);
                lemma_update_is_merge(Stats::empty(), v);
            }
            assert forall|k: Seq<u8>| record(m, name, v).contains_key(k) implies (
            #[trigger] record(m, name, v)[k]).is_live() by {
                if k != name {
                    assert(m.contains_key(k));
                    assert(record(m, name, v)[k] == m[k]);
                }
            }
        },
        None => {},
    }
}

/// Lines folded into a live map leave it live.
pub proof fn lemma_tally_live(m: Map<Seq<u8>, Stats>, ls: Seq<Seq<u8>>)
    requires
        all_live(m),
    ensures
        all_live(tally(m, ls)),
    decreases ls.len(),
{
    if ls.len() > 0 {
        lemma_tally_live(m, ls.drop_last());
        lemma_apply_line_live(tally(m, ls.drop_last()), ls.last());
    }
}

/// Tallying two runs of lines one after the other is tallying them as one.
pub proof fn lemma_tally_concat(m: Map<Seq<u8>, Stats>, a: Seq<Seq<u8>>, b: Seq<Seq<u8>>)
    ensures
        tally(m, a + b) == tally(tally(m, a), b),
        tally_ok(m, a + b) == (tally_ok(m, a) && tally_ok(tally(m, a), b)),
    decreases b.len(),
{
    if b.len() == 0 {
        assert(a + b =~= a);
    } else {
        assert((a + b).drop_last() =~= a + b.drop_last());
        assert((a + b).last() == b.last());
        lemma_tally_concat(m, a, b.drop_last());
    }
}

/// One more line after `ls` is folded into the tally of `ls`, and can be if
/// the lines of `ls` can and the line finds no fault.
pub proof fn lemma_tally_push(m: Map<Seq<u8>, Stats>, ls: Seq<Seq<u8>>, line: Seq<u8>)
    ensures
        tally(m, ls.push(line)) == apply_line(tally(m, ls), line),
        tally_ok(m, ls.push(line)) == (tally_ok(m, ls) && line_fault(tally(m, ls), line) is None),
{
    assert(ls.push(line).drop_last() =~= ls);
    assert(ls.push(line).last() == line);
}

/// Where all lines can be folded in, so can any first few of them, and the
/// line after those finds no fault.
pub proof fn lemma_tally_ok_prefix(m: Map<Seq<u8>, Stats>, ls: Seq<Seq<u8>>, k: int)
    requires
        tally_ok(m, ls),
        0 <= k < ls.len(),
    ensures
        tally_ok(m, ls.take(k)),
        line_fault(tally(m, ls.take(k)), ls[k]) is None,
{
    assert(ls.take(k + 1) + ls.skip(k + 1) =~= ls);
    lemma_tally_concat(m, ls.take(k + 1), ls.skip(k + 1));
    assert(ls.take(k + 1).drop_last() =~= ls.take(k));
    assert(ls.take(k + 1).last() == ls[k]);
}

/// Folding a line into a merged map is merging with the map that the line
/// was folded into.
pub proof fn lemma_apply_line_merge(a: Map<Seq<u8>, Stats>, b: Map<Seq<u8>, Stats>, line: Seq<u8>)
    ensures
        apply_line(merge_maps(a, b), line) == merge_maps(a, apply_line(b, line)),
{
    match parse_record(line) {
        Some((name, v)) => {
            if a.contains_key(name) {
                if b.contains_key(name) {
                    lemma_update_is_merge(a[name].merge(b[name]), v);
                    lemma_update_is_merge(b[name], v);
                    lemma_merge_order_free(a[name], b[name], Stats::single(v));
                } else {
                    lemma_update_is_merge(a[name], v);
                }
            }
            assert(apply_line(merge_maps(a, b), line) =~= merge_maps(a, apply_line(b, line)));
        },
        None => {},
    }
}

/// Tallying lines into a map is merging the map with the tally of the lines
/// alone.
pub proof fn lemma_tally_is_merge(m: Map<Seq<u8>, Stats>, ls: Seq<Seq<u8>>)
    ensures
        tally(m, ls) == merge_maps(m, tally(no_stats(), ls)),
    decreases ls.len(),
{
    if ls.len() == 0 {
        lemma_merge_maps_empty(m);
    } else {
        lemma_tally_is_merge(m, ls.drop_last());
        lemma_apply_line_merge(m, tally(no_stats(), ls.drop_last()), ls.last());
    }
}

/// The tallies of the pieces, merged, are the tally of the lines of all the
/// pieces in one pass.
pub proof fn lemma_merged_tallies(pieces: Seq<Seq<u8>>)
    ensures
        merged_tallies(pieces) == tally(no_stats(), all_lines(pieces)),
    decreases pieces.len(),
{
    if pieces.len() > 0 {
        lemma_merged_tallies(pieces.drop_last());
        lemma_tally_concat(no_stats(), all_lines(pieces.drop_last()), lines(pieces.last()));
        lemma_tally_is_merge(
            tally(no_stats(), all_lines(pieces.drop_last())),
            lines(pieces.last()),
        );
    }
}

/// Partitions scanned apart and merged give what one pass over the region
/// gives: for pieces that joined with newlines make a region, the merged
/// tallies of the pieces are the tally of the region.
pub proof fn lemma_partitioned_scan(pieces: Seq<Seq<u8>>)
    requires
        pieces.len() >= 1,
    ensures
        merged_tallies(pieces) == tally(no_stats(), lines(join(pieces))),
{
    lemma_merged_tallies(pieces);
    lemma_lines_of_join(pieces);
}

/// Whether no station of the map has more temperatures than the largest sum
/// can hold at their highest.  The statistics of such a map fit the machine
/// integers whatever the temperatures are.
pub open spec fn is_light(m: Map<Seq<u8>, Stats>) -> bool {
    forall|k: Seq<u8>| m.contains_key(k) ==> MAX_TENTHS * (#[trigger] m[k]).count <= i32::MAX
}

/// Whether every station of `a` is a station of `b` with at least as many
/// temperatures.
pub open spec fn within(a: Map<Seq<u8>, Stats>, b: Map<Seq<u8>, Stats>) -> bool {
    forall|k: Seq<u8>| #[trigger]
        a.contains_key(k) ==> b.contains_key(k) && a[k].count <= b[k].count
}

/// A map is within what another line makes of it.
pub proof fn lemma_within_apply_line(m: Map<Seq<u8>, Stats>, line: Seq<u8>)
    ensures
        within(m, apply_line(m, line)),
{
}

/// A map is within what it is merged into, on either side.
pub proof fn lemma_within_merge(a: Map<Seq<u8>, Stats>, b: Map<Seq<u8>, Stats>)
    ensures
        within(a, merge_maps(a, b)),
        within(b, merge_maps(a, b)),
{
}

/// A map is within what more lines make of it.
pub proof fn lemma_within_tally(m: Map<Seq<u8>, Stats>, ls: Seq<Seq<u8>>)
    ensures
        within(m, tally(m, ls)),
    decreases ls.len(),
{
    if ls.len() > 0 {
        lemma_within_tally(m, ls.drop_last());
        lemma_within_apply_line(tally(m, ls.drop_last()), ls.last());
    }
}

/// A map within a light map is light.
pub proof fn lemma_within_light(a: Map<Seq<u8>, Stats>, b: Map<Seq<u8>, Stats>)
    requires
        within(a, b),
        is_light(b),
    ensures
        is_light(a),
{
    assert forall|k: Seq<u8>| a.contains_key(k) implies MAX_TENTHS * (#[trigger] a[k]).count
        <= i32::MAX by {
        assert(b.contains_key(k));
        assert(MAX_TENTHS * b[k].count <= i32::MAX);
    }
}

/// What is within a map is within what that map is within.
pub proof fn lemma_within_transitive(
    a: Map<Seq<u8>, Stats>,
    b: Map<Seq<u8>, Stats>,
    c: Map<Seq<u8>, Stats>,
)
    requires
        within(a, b),
        within(b, c),
    ensures
        within(a, c),
{
    assert forall|k: Seq<u8>| #[trigger] a.contains_key(k) implies c.contains_key(k) && a[k].count
        <= c[k].count by {
        assert(b.contains_key(k));
    }
}

/// The statistics of a live and light map fit the machine integers.
pub proof fn lemma_light_fits(m: Map<Seq<u8>, Stats>)
    requires
        all_live(m),
        is_light(m),
    ensures
        all_fit(m),
{
    assert forall|k: Seq<u8>| m.contains_key(k) implies (#[trigger] m[k]).fits() by {
        if !m[k].fits() {
            lemma_unfit_is_heavy(m[k]);
        }
    }
}

/// A line finds no room only where the map with the line folded in is not
/// light, and so only where nothing that this map is within is light.
pub proof fn lemma_overflow_is_heavy(
    m: Map<Seq<u8>, Stats>,
    line: Seq<u8>,
    bigger: Map<Seq<u8>, Stats>,
)
    requires
        all_live(m),
        line_fault(m, line) == Some(LineError::Overflow),
        within(apply_line(m, line), bigger),
    ensures
        !is_light(bigger),
{
    lemma_apply_line_live(m, line);
    if is_light(bigger) {
        lemma_within_light(apply_line(m, line), bigger);
        lemma_light_fits(apply_line(m, line));
        let (name, v) = parse_record(line).unwrap();
        assert(apply_line(m, line).contains_key(name));
        assert(apply_line(m, line)[name].fits());
    }
}

/// Maps cannot be merged only where the merged map is not light, and so only
/// where nothing that the merged map is within is light.
pub proof fn lemma_unmergeable_is_heavy(
    a: Map<Seq<u8>, Stats>,
    b: Map<Seq<u8>, Stats>,
    bigger: Map<Seq<u8>, Stats>,
)
    requires
        all_live(a),
        all_live(b),
        !mergeable(a, b),
        within(merge_maps(a, b), bigger),
    ensures
        !is_light(bigger),
{
    lemma_merge_maps_live(a, b);
    if is_light(bigger) {
        lemma_within_light(merge_maps(a, b), bigger);
        lemma_light_fits(merge_maps(a, b));
        assert forall|k: Seq<u8>| a.contains_key(k) && b.contains_key(k) implies (
        #[trigger] a[k]).merge(b[k]).fits() by {
            assert(merge_maps(a, b).contains_key(k));
            assert(merge_maps(a, b)[k].fits());
        }
    }
}

/// Where lines are folded in up to a line that finds no room, the map with
/// all the lines folded in is not light.
pub proof fn lemma_tally_overflow_is_heavy(m: Map<Seq<u8>, Stats>, ls: Seq<Seq<u8>>, k: int)
    requires
        all_live(m),
        0 <= k < ls.len(),
        line_fault(tally(m, ls.take(k)), ls[k]) == Some(LineError::Overflow),
    ensures
        !is_light(tally(m, ls)),
{
    let upto = tally(m, ls.take(k));
    lemma_tally_live(m, ls.take(k));
    lemma_tally_push(m, ls.take(k), ls[k]);
    assert(ls.take(k).push(ls[k]) =~= ls.take(k + 1));
    assert(ls.take(k + 1) + ls.skip(k + 1) =~= ls);
    lemma_tally_concat(m, ls.take(k + 1), ls.skip(k + 1));
    lemma_within_tally(tally(m, ls.take(k + 1)), ls.skip(k + 1));
    lemma_overflow_is_heavy(upto, ls[k], tally(m, ls));
}

/// Whether no station of the map has more than `n` temperatures.
pub open spec fn counts_upto(m: Map<Seq<u8>, Stats>, n: nat) -> bool {
    forall|k: Seq<u8>| m.contains_key(k) ==> (#[trigger] m[k]).count <= n
}

/// Lines add at most one temperature each to a station.
pub proof fn lemma_tally_counts(m: Map<Seq<u8>, Stats>, n: nat, ls: Seq<Seq<u8>>)
    requires
        counts_upto(m, n),
    ensures
        counts_upto(tally(m, ls), n + ls.len()),
    decreases ls.len(),
{
    if ls.len() > 0 {
        lemma_tally_counts(m, n, ls.drop_last());
        let before = tally(m, ls.drop_last());
        let after = tally(m, ls);
        assert forall|k: Seq<u8>| after.contains_key(k) implies (#[trigger] after[k]).count <= n
            + ls.len() by {
            if before.contains_key(k) {
                assert(before[k].count <= n + ls.len() - 1);
            }
        }
    }
}

/// The map of few enough lines is light: a file of no more lines than the
/// largest sum holds temperatures at their highest never runs out of room.
pub proof fn lemma_few_lines_are_light(ls: Seq<Seq<u8>>)
    requires
        MAX_TENTHS * ls.len() <= i32::MAX,
    ensures
        is_light(tally(no_stats(), ls)),
{
    lemma_tally_counts(no_stats(), 0, ls);
    let m = tally(no_stats(), ls);
    assert forall|k: Seq<u8>| m.contains_key(k) implies MAX_TENTHS * (#[trigger] m[k]).count
        <= i32::MAX by {
        assert(m[k].count <= ls.len());
        assert(MAX_TENTHS * m[k].count <= MAX_TENTHS * ls.len()) by (nonlinear_arith)
            requires
                m[k].count <= ls.len(),
        ;
    }
}

/// The one listing of a map.
pub open spec fn listing_of(m: Map<Seq<u8>, Stats>) -> Seq<(Seq<u8>, Stats)> {
    choose|es: Seq<(Seq<u8>, Stats)>| is_listing(m, es)
}

/// The last name of one listing of a map comes no later than the last name of
/// another.
proof fn lemma_last_name_le(
    m: Map<Seq<u8>, Stats>,
    a: Seq<(Seq<u8>, Stats)>,
    b: Seq<(Seq<u8>, Stats)>,
)
    requires
        is_listing(m, a),
        is_listing(m, b),
        a.len() > 0,
    ensures
        b.len() > 0,
        lex_le(a.last().0, b.last().0),
{
    let key = a.last().0;
    assert(m.contains_key((#[trigger] a[a.len() - 1]).0));
    assert(m.contains_key(key));
    let j = choose|j: int| 0 <= j < b.len() && (#[trigger] b[j]).0 == key;
    if j < b.len() - 1 {
        assert(lex_lt(b[j].0, b[b.len() - 1].0));
    } else {
        lemma_lex_total(key, key);
    }
}

/// A map has one listing only: what is listed depends on the map alone, not
/// on how it came about.
pub proof fn lemma_listing_unique(
    m: Map<Seq<u8>, Stats>,
    a: Seq<(Seq<u8>, Stats)>,
    b: Seq<(Seq<u8>, Stats)>,
)
    requires
        is_listing(m, a),
        is_listing(m, b),
    ensures
        a == b,
    decreases a.len(),
{
    if a.len() == 0 {
        if b.len() > 0 {
            lemma_last_name_le(m, b, a);
        }
        assert(a =~= b);
    } else {
        lemma_last_name_le(m, a, b);
        lemma_last_name_le(m, b, a);
        lemma_lex_antisymmetric(a.last().0, b.last().0);
        let key = a.last().0;
        assert(m[(#[trigger] a[a.len() - 1]).0] == a[a.len() - 1].1);
        assert(m[(#[trigger] b[b.len() - 1]).0] == b[b.len() - 1].1);
        assert(a.last() == b.last());
        let rest = m.remove(key);
        lemma_listing_rest(m, a);
        lemma_listing_rest(m, b);
        lemma_listing_unique(rest, a.drop_last(), b.drop_last());
        assert(a =~= a.drop_last().push(a.last()));
        assert(b =~= b.drop_last().push(b.last()));
    }
}

/// A listing of a map is the listing of the map.
pub proof fn lemma_listing_of(m: Map<Seq<u8>, Stats>, a: Seq<(Seq<u8>, Stats)>)
    requires
        is_listing(m, a),
    ensures
        listing_of(m) == a,
{
    lemma_listing_unique(m, listing_of(m), a);
}

/// A listing without its last entry lists the map without that station.
proof fn lemma_listing_rest(m: Map<Seq<u8>, Stats>, a: Seq<(Seq<u8>, Stats)>)
    requires
        is_listing(m, a),
        a.len() > 0,
    ensures
        is_listing(m.remove(a.last().0), a.drop_last()),
{
    let key = a.last().0;
    let rest = m.remove(key);
    let front = a.drop_last();
    assert forall|i: int, j: int| 0 <= i < j < front.len() implies lex_lt(
        front[i].0,
        front[j].0,
    ) by {
        assert(lex_lt(a[i].0, a[j].0));
    }
    assert forall|i: int| 0 <= i < front.len() implies rest.contains_key((#[trigger] front[i]).0)
        && rest[front[i].0] == front[i].1 by {
        assert(m.contains_key((#[trigger] a[i]).0));
        assert(lex_lt(a[i].0, a[a.len() - 1].0));
    }
    assert forall|k: Seq<u8>| #[trigger] rest.contains_key(k) implies exists|i: int|
        0 <= i < front.len() && (#[trigger] front[i]).0 == k by {
        assert(m.contains_key(k));
        let i = choose|i: int| 0 <= i < a.len() && (#[trigger] a[i]).0 == k;
        assert(front[i].0 == k);
    }
}

} // verus!
