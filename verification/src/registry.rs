//! The registry: one accumulator per station name, in a hash table.

use crate::aggregation::{Aggregation, Stats};
use crate::lines::{finds_first, first_index_of, lemma_lines_concat, lemma_lines_single, lines};
use crate::sorter::{lex_le, sort_by_name, sorted_by_name};
use crate::tally::{
    all_fit, all_live, apply_line, is_light, is_listing, lemma_apply_line_live,
    lemma_merge_maps_live, lemma_tally_ok_prefix, lemma_tally_overflow_is_heavy,
    lemma_tally_push, lemma_unmergeable_is_heavy, lemma_within_light, lemma_within_merge,
    lemma_within_transitive, line_fault, line_outcome, merge_maps, mergeable, no_stats, tally,
    tally_ok, within, LineError,
};
use crate::temperature::{parse_line, NEWLINE};
use std::hash::BuildHasherDefault;
use vstd::prelude::*;
use vstd::slice::{slice_subrange, slice_to_vec};

verus! {

/// `fxhash::FxHasher`, the hasher of the registry's table.  Nothing is
/// claimed of it but that the type exists.
#[verifier::external_type_specification]
#[verifier::external_body]
pub struct ExFxHasher(fxhash::FxHasher);

/// `std::hash::BuildHasherDefault`, which makes the table's hashers.  Nothing
/// is claimed of it but that the type exists.
#[verifier::external_type_specification]
#[verifier::external_body]
#[verifier::reject_recursive_types(H)]
pub struct ExBuildHasherDefault<H>(BuildHasherDefault<H>);

/// The table under a registry: a hash map from names to accumulators that
/// hashes with `fxhash::FxHasher`.
pub type Table = fxhash::FxHashMap<Vec<u8>, Aggregation>;

/// What a table holds: the accumulator stored under each name, names taken as
/// byte sequences.
pub uninterp spec fn table_entries(table: Table) -> Map<Seq<u8>, Aggregation>;

/// The entries of a table that holds nothing.
pub open spec fn no_entries() -> Map<Seq<u8>, Aggregation> {
    Map::empty()
}

/// Whether `es` hands out what the table entries `m` are: every pair of `es`
/// is an entry of `m`, no name comes twice, and no entry of `m` is missing.
/// Nothing is said of the order.
pub open spec fn holds_exactly(
    m: Map<Seq<u8>, Aggregation>,
    es: Seq<(Vec<u8>, Aggregation)>,
) -> bool {
    &&& forall|i: int|
        0 <= i < es.len() ==> m.contains_key((#[trigger] es[i]).0@) && m[es[i].0@] == es[i].1
    &&& forall|i: int, j: int|
        0 <= i < j < es.len() ==> (#[trigger] es[i]).0@ != (#[trigger] es[j]).0@
    &&& forall|k: Seq<u8>| #[trigger]
        m.contains_key(k) ==> exists|i: int| 0 <= i < es.len() && (#[trigger] es[i]).0@ == k
}

/// `FxHashMap::default`: a table that holds nothing.
#[verifier::external_body]
fn table_new() -> (table: Table)
    ensures
        table_entries(table) == no_entries(),
{
    fxhash::FxHashMap::default()
}

/// `HashMap::get_mut` with a borrowed name: the accumulator stored under
/// `name`, to be changed in place, or `None` if there is none.  Whatever is
/// written through the reference is what the table then holds under `name`,
/// and nothing else changes.
#[verifier::external_body]
fn table_get_mut<'a>(table: &'a mut Table, name: &[u8]) -> (slot: Option<&'a mut Aggregation>)
    ensures
        match slot {
            Some(a) => table_entries(*old(table)).contains_key(name@) && *a == table_entries(
                *old(table),
            )[name@] && table_entries(*final(table)) == table_entries(*old(table)).insert(
                name@,
                *final(a),
            ),
            None => !table_entries(*old(table)).contains_key(name@) && table_entries(
                *final(table),
            ) == table_entries(*old(table)),
        },
{
    table.get_mut(name)
}

/// `HashMap::insert`: afterwards the table holds `value` under `name`, and
/// what it held under other names is unchanged.
#[verifier::external_body]
fn table_insert(table: &mut Table, name: Vec<u8>, value: Aggregation)
    ensures
        table_entries(*final(table)) == table_entries(*old(table)).insert(name@, value),
{
    table.insert(name, value);
}

/// `Vec::from_iter` on the table, which walks it as `HashMap::into_iter`
/// does: the entries of the table, each once, in an order that is not said.
#[verifier::external_body]
fn table_into_entries(table: Table) -> (entries: Vec<(Vec<u8>, Aggregation)>)
    ensures
        holds_exactly(table_entries(table), entries@),
{
    Vec::from_iter(table)
}

/// The statistics that table entries stand for.
pub open spec fn stats_of(m: Map<Seq<u8>, Aggregation>) -> Map<Seq<u8>, Stats> {
    Map::new(|k: Seq<u8>| m.contains_key(k), |k: Seq<u8>| m[k]@)
}

/// The names and statistics that entries stand for.
pub open spec fn entries_view(es: Seq<(Vec<u8>, Aggregation)>) -> Seq<(Seq<u8>, Stats)> {
    Seq::new(es.len(), |i: int| (es[i].0@, es[i].1@))
}

/// A line that could not be folded in, and where it stands in its chunk.
#[derive(Clone, Copy, Debug, PartialEq, Eq, Structural)]
pub struct ScanError {
    /// What stood in the way.
    pub cause: LineError,
    /// The number of lines before the line, in its chunk.
    pub line: usize,
    /// Where the line starts in the chunk.
    pub start: usize,
    /// Where the line ends in the chunk, its newline not included.
    pub end: usize,
}

/// Two registries that have a station whose merged sum or count has no room.
#[derive(Clone, Copy, Debug, PartialEq, Eq, Structural)]
pub struct MergeOverflow {}

/// One accumulator per station name.
pub struct Registry {
    table: Table,
}

impl View for Registry {
    type V = Map<Seq<u8>, Stats>;

    closed spec fn view(&self) -> Map<Seq<u8>, Stats> {
        stats_of(table_entries(self.table))
    }
}

impl Registry {
    /// Whether every accumulator holds at least one temperature.
    pub open spec fn wf(&self) -> bool {
        all_live(self@)
    }

    /// A registry of no station.
    pub fn new() -> (r: Self)
        ensures
            r@ == no_stats(),
            r.wf(),
    {
        let r = Registry { table: table_new() };
        assert(r@ =~= no_stats());
        r
    }

    /// What a registry holds fits the machine integers.
    pub proof fn lemma_fits(&self)
        ensures
            all_fit(self@),
    {
        assert forall|k: Seq<u8>| self@.contains_key(k) implies (#[trigger] self@[k]).fits() by {
            assert(self@[k] == table_entries(self.table)[k]@);
        }
    }

    /// The stations with their accumulators, sorted by name.
    pub fn into_sorted(self) -> (r: Vec<(Vec<u8>, Aggregation)>)
        ensures
            is_listing(self@, entries_view(r@)),
    {
        let entries = table_into_entries(self.table);
        let sorted = sort_by_name(entries);
        proof {
            lemma_sorted_listing(table_entries(self.table), entries@, sorted@);
        }
        sorted
    }
}

/// Entries handed out by a table, once sorted, list what the table stands for.
proof fn lemma_sorted_listing(
    m: Map<Seq<u8>, Aggregation>,
    es: Seq<(Vec<u8>, Aggregation)>,
    sorted: Seq<(Vec<u8>, Aggregation)>,
)
    requires
        holds_exactly(m, es),
        sorted_by_name(sorted),
        sorted.to_multiset() == es.to_multiset(),
    ensures
        is_listing(stats_of(m), entries_view(sorted)),
{
    let view = entries_view(sorted);
    let stats = stats_of(m);
    es.to_multiset_ensures();
    sorted.to_multiset_ensures();
    assert forall|i: int| 0 <= i < view.len() implies stats.contains_key((#[trigger] view[i]).0)
        && stats[view[i].0] == view[i].1 by {
        assert(sorted.contains(sorted[i]));
        assert(es.to_multiset().count(sorted[i]) > 0);
        assert(es.contains(sorted[i]));
        let j = choose|j: int| 0 <= j < es.len() && es[j] == sorted[i];
        assert(m.contains_key(es[j].0@));
    }
    assert forall|k: Seq<u8>| #[trigger] stats.contains_key(k) implies exists|i: int|
        0 <= i < view.len() && (#[trigger] view[i]).0 == k by {
        assert(m.contains_key(k));
        let j = choose|j: int| 0 <= j < es.len() && (#[trigger] es[j]).0@ == k;
        assert(es.contains(es[j]));
        assert(sorted.to_multiset().count(es[j]) > 0);
        assert(sorted.contains(es[j]));
        let i = choose|i: int| 0 <= i < sorted.len() && sorted[i] == es[j];
        assert(view[i].0 == k);
    }
    assert forall|i: int, j: int| 0 <= i < j < view.len() implies view[i].0 != view[j].0 by {
        lemma_no_twin(m, es, sorted, i, j);
    }
    assert forall|i: int, j: int| 0 <= i < j < view.len() implies crate::sorter::lex_lt(
        view[i].0,
        view[j].0,
    ) by {
        assert(lex_le(sorted[i].0@, sorted[j].0@));
        assert(view[i].0 != view[j].0);
    }
}

/// A sequence with the entries of a table, each as often as the table hands
/// it out, has no name at two places.
proof fn lemma_no_twin(
    m: Map<Seq<u8>, Aggregation>,
    es: Seq<(Vec<u8>, Aggregation)>,
    sorted: Seq<(Vec<u8>, Aggregation)>,
    i: int,
    j: int,
)
    requires
        holds_exactly(m, es),
        sorted.to_multiset() == es.to_multiset(),
        0 <= i < j < sorted.len(),
    ensures
        sorted[i].0@ != sorted[j].0@,
{
    es.to_multiset_ensures();
    sorted.to_multiset_ensures();
    let a = sorted[i];
    let b = sorted[j];
    assert(sorted.contains(a) && sorted.contains(b));
    assert(sorted.to_multiset().count(a) > 0 && sorted.to_multiset().count(b) > 0);
    assert(es.to_multiset().count(a) > 0 && es.to_multiset().count(b) > 0);
    assert(es.contains(a) && es.contains(b));
    let p = choose|p: int| 0 <= p < es.len() && es[p] == a;
    let q = choose|q: int| 0 <= q < es.len() && es[q] == b;
    if sorted[i].0@ != sorted[j].0@ {
    } else if p != q {
        assert(es[p].0@ == es[q].0@);
        if p < q {
            assert((#[trigger] es[p]).0@ != (#[trigger] es[q]).0@);
        } else {
            assert((#[trigger] es[q]).0@ != (#[trigger] es[p]).0@);
        }
    } else {
        // the same entry at two places of `sorted` would have to come twice in `es`
        assert(a == b);
        let rest = sorted.remove(j);
        assert(rest[i] == a);
        assert(rest.contains(a));
        rest.to_multiset_ensures();
        assert(rest.to_multiset().count(a) > 0);
        assert(sorted.to_multiset().count(a) >= 2) by {
            assert(rest.to_multiset() =~= sorted.to_multiset().remove(sorted[j]));
        }
        lemma_count_once(es, p);
    }
}

/// An entry of a sequence without twin names comes once in it.
proof fn lemma_count_once(es: Seq<(Vec<u8>, Aggregation)>, p: int)
    requires
        0 <= p < es.len(),
        forall|i: int, j: int|
            0 <= i < j < es.len() ==> (#[trigger] es[i]).0@ != (#[trigger] es[j]).0@,
    ensures
        es.to_multiset().count(es[p]) == 1,
{
    let rest = es.remove(p);
    es.to_multiset_ensures();
    rest.to_multiset_ensures();
    assert(rest.to_multiset() =~= es.to_multiset().remove(es[p]));
    if rest.contains(es[p]) {
        let q = choose|q: int| 0 <= q < rest.len() && rest[q] == es[p];
        if q < p {
            assert(rest[q] == es[q]);
            assert((#[trigger] es[q]).0@ != (#[trigger] es[p]).0@);
        } else {
            assert(rest[q] == es[q + 1]);
            assert((#[trigger] es[p]).0@ != (#[trigger] es[q + 1]).0@);
        }
    }
    assert(rest.to_multiset().count(es[p]) == 0);
    assert(es.to_multiset().count(es[p]) > 0) by {
        assert(es.contains(es[p]));
    }
}

/// Folds one line into the registry: the first record of a station makes
/// its accumulator, a later one updates it.  A line that is no record, and a
/// record whose station has no room left, leave the registry as it was.
pub fn process_line(registry: &mut Registry, line: &[u8]) -> (r: Result<(), LineError>)
    requires
        old(registry).wf(),
    ensures
        final(registry).wf(),
        r == line_outcome(old(registry)@, line@),
        final(registry)@ == (if r is Ok {
            apply_line(old(registry)@, line@)
        } else {
            old(registry)@
        }),
{
    let (name, temp) = match parse_line(line) {
        Some(parsed) => parsed,
        None => {
            return Err(LineError::Malformed);
        },
    };
    let ghost before = table_entries(registry.table);
    match table_get_mut(&mut registry.table, name) {
        Some(aggregation) => {
            if !aggregation.can_update(temp) {
                assert(table_entries(registry.table) =~= before);
                return Err(LineError::Overflow);
            }
            aggregation.update(temp);
        },
        None => {
            let mut aggregation = Aggregation::new();
            aggregation.update(temp);
            table_insert(&mut registry.table, slice_to_vec(name), aggregation);
        },
    }
    proof {
        assert(registry@ =~= apply_line(old(registry)@, line@));
        lemma_apply_line_live(old(registry)@, line@);
    }
    Ok(())
}

/// Scans one chunk: folds its lines into the registry, one after the other,
/// and stops at the first line that cannot be folded in.
pub fn scan_chunk(registry: &mut Registry, chunk: &[u8]) -> (r: Result<(), ScanError>)
    requires
        old(registry).wf(),
    ensures
        final(registry).wf(),
        match r {
            Ok(()) => tally_ok(old(registry)@, lines(chunk@)) && final(registry)@ == tally(
                old(registry)@,
                lines(chunk@),
            ),
            Err(e) => {
                let ls = lines(chunk@);
                &&& e.line < ls.len()
                &&& e.start <= e.end <= chunk@.len()
                &&& ls[e.line as int] == chunk@.subrange(e.start as int, e.end as int)
                &&& tally_ok(old(registry)@, ls.take(e.line as int))
                &&& line_fault(tally(old(registry)@, ls.take(e.line as int)), ls[e.line as int])
                    == Some(e.cause)
                &&& final(registry)@ == tally(old(registry)@, ls.take(e.line as int))
                &&& !tally_ok(old(registry)@, ls)
                &&& e.cause == LineError::Overflow ==> !is_light(tally(old(registry)@, ls))
            },
        },
{
    let len = chunk.len();
    let mut start: usize = 0;
    let mut index: usize = 0;
    let ghost mut done: Seq<Seq<u8>> = Seq::empty();
    proof {
        assert(chunk@.skip(0) =~= chunk@);
        assert(done + lines(chunk@) =~= lines(chunk@));
    }
    loop
        invariant
            len == chunk@.len(),
            start <= len,
            index == done.len(),
            index <= start,
            lines(chunk@) == done + lines(chunk@.skip(start as int)),
            tally_ok(old(registry)@, done),
            registry@ == tally(old(registry)@, done),
            registry.wf(),
            all_live(old(registry)@),
        decreases len - start,
    {
        let rest = slice_subrange(chunk, start, len);
        let found = first_index_of(NEWLINE, rest);
        let end = match found {
            Some(k) => start + k,
            None => len,
        };
        let line = slice_subrange(chunk, start, end);
        proof {
            assert(rest@ =~= chunk@.skip(start as int));
            lemma_next_line(chunk@, start as int, found, done);
            lemma_tally_push(old(registry)@, done, line@);
        }
        match process_line(registry, line) {
            Err(cause) => {
                proof {
                    if tally_ok(old(registry)@, lines(chunk@)) {
                        lemma_tally_ok_prefix(old(registry)@, lines(chunk@), index as int);
                    }
                    if cause == LineError::Overflow {
                        lemma_tally_overflow_is_heavy(
                            old(registry)@,
                            lines(chunk@),
                            index as int,
                        );
                    }
                }
                return Err(ScanError { cause, line: index, start, end });
            },
            Ok(()) => {},
        }
        proof {
            done = done.push(line@);
        }
        match found {
            None => {
                return Ok(());
            },
            Some(_) => {
                start = end + 1;
                index = index + 1;
            },
        }
    }
}

/// The line that starts at `start` runs to the first newline from there on,
/// or to the end of the chunk; it is the next line of the chunk after those
/// that came before `start`.
proof fn lemma_next_line(chunk: Seq<u8>, start: int, found: Option<usize>, done: Seq<Seq<u8>>)
    requires
        0 <= start <= chunk.len(),
        finds_first(chunk.skip(start), NEWLINE, found),
        lines(chunk) == done + lines(chunk.skip(start)),
    ensures
        ({
            let end = match found {
                Some(k) => start + k,
                None => chunk.len() as int,
            };
            let line = chunk.subrange(start, end);
            &&& lines(chunk).len() > done.len()
            &&& lines(chunk).take(done.len() as int) == done
            &&& lines(chunk)[done.len() as int] == line
            &&& match found {
                Some(_) => lines(chunk) == done.push(line) + lines(chunk.skip(end + 1)),
                None => lines(chunk) == done.push(line),
            }
        }),
{
    let rest = chunk.skip(start);
    let end = match found {
        Some(k) => start + k,
        None => chunk.len() as int,
    };
    let line = chunk.subrange(start, end);
    match found {
        Some(k) => {
            assert(line =~= rest.take(k as int));
            assert(rest =~= line + seq![NEWLINE] + chunk.skip(end + 1));
            lemma_lines_concat(line, chunk.skip(end + 1));
            lemma_lines_single(line);
            assert(lines(chunk) =~= done.push(line) + lines(chunk.skip(end + 1)));
        },
        None => {
            assert(line =~= rest);
            lemma_lines_single(line);
            assert(lines(chunk) =~= done.push(line));
        },
    }
    assert(lines(chunk).take(done.len() as int) =~= done);
}

/// Whether `key` is the name of one of the entries from place `from` on.
pub open spec fn named_from(es: Seq<(Vec<u8>, Aggregation)>, from: int, key: Seq<u8>) -> bool {
    exists|j: int| from <= j < es.len() && (#[trigger] es[j]).0@ == key
}

/// Whether the entry can be merged into what `ours` holds under its name.
pub open spec fn fits_into(ours: Map<Seq<u8>, Aggregation>, e: (Vec<u8>, Aggregation)) -> bool {
    ours.contains_key(e.0@) ==> ours[e.0@]@.merge(e.1@).fits()
}

/// Whether `cur` is `ours` with the entries of `all` from place `from` on
/// merged in, and nothing else changed.
pub open spec fn merged_from(
    ours: Map<Seq<u8>, Aggregation>,
    all: Seq<(Vec<u8>, Aggregation)>,
    from: int,
    cur: Map<Seq<u8>, Aggregation>,
) -> bool {
    forall|key: Seq<u8>|
        if #[trigger] named_from(all, from, key) {
            let j = choose|j: int| from <= j < all.len() && (#[trigger] all[j]).0@ == key;
            cur.contains_key(key) && cur[key]@ == (if ours.contains_key(key) {
                ours[key]@.merge(all[j].1@)
            } else {
                all[j].1@
            })
        } else {
            cur.contains_key(key) == ours.contains_key(key) && (ours.contains_key(key)
                ==> cur[key] == ours[key])
        }
}

/// One more entry merged in, the one right before place `from`.
proof fn lemma_merge_step(
    ours: Map<Seq<u8>, Aggregation>,
    all: Seq<(Vec<u8>, Aggregation)>,
    from: int,
    cur: Map<Seq<u8>, Aggregation>,
    value: Aggregation,
)
    requires
        0 < from <= all.len(),
        forall|i: int, j: int|
            0 <= i < j < all.len() ==> (#[trigger] all[i]).0@ != (#[trigger] all[j]).0@,
        merged_from(ours, all, from, cur),
        value@ == (if ours.contains_key(all[from - 1].0@) {
            ours[all[from - 1].0@]@.merge(all[from - 1].1@)
        } else {
            all[from - 1].1@
        }),
    ensures
        merged_from(ours, all, from - 1, cur.insert(all[from - 1].0@, value)),
        !named_from(all, from, all[from - 1].0@),
{
    let name = all[from - 1].0@;
    let next = cur.insert(name, value);
    if named_from(all, from, name) {
        let j = choose|j: int| from <= j < all.len() && (#[trigger] all[j]).0@ == name;
        assert((#[trigger] all[from - 1]).0@ != (#[trigger] all[j]).0@);
    }
    assert forall|key: Seq<u8>|
        if #[trigger] named_from(all, from - 1, key) {
            let j = choose|j: int| from - 1 <= j < all.len() && (#[trigger] all[j]).0@ == key;
            next.contains_key(key) && next[key]@ == (if ours.contains_key(key) {
                ours[key]@.merge(all[j].1@)
            } else {
                all[j].1@
            })
        } else {
            next.contains_key(key) == ours.contains_key(key) && (ours.contains_key(key)
                ==> next[key] == ours[key])
        } by {
        if named_from(all, from - 1, key) {
            let j = choose|j: int| from - 1 <= j < all.len() && (#[trigger] all[j]).0@ == key;
            if key == name {
                if j != from - 1 {
                    assert((#[trigger] all[from - 1]).0@ != (#[trigger] all[j]).0@);
                }
            } else {
                assert(j >= from);
                assert(named_from(all, from, key));
                let j2 = choose|j2: int| from <= j2 < all.len() && (#[trigger] all[j2]).0@ == key;
                if j != j2 {
                    if j < j2 {
                        assert((#[trigger] all[j]).0@ != (#[trigger] all[j2]).0@);
                    } else {
                        assert((#[trigger] all[j2]).0@ != (#[trigger] all[j]).0@);
                    }
                }
            }
        } else {
            assert(key != name) by {
                if key == name {
                    assert(all[from - 1].0@ == key);
                }
            }
            if named_from(all, from, key) {
                let j = choose|j: int| from <= j < all.len() && (#[trigger] all[j]).0@ == key;
                assert(all[j].0@ == key);
            }
        }
    }
}

/// With every entry of `theirs` merged in, the table stands for the merged
/// maps.
proof fn lemma_merge_done(
    ours: Map<Seq<u8>, Aggregation>,
    theirs: Map<Seq<u8>, Aggregation>,
    all: Seq<(Vec<u8>, Aggregation)>,
    cur: Map<Seq<u8>, Aggregation>,
)
    requires
        holds_exactly(theirs, all),
        merged_from(ours, all, 0, cur),
    ensures
        stats_of(cur) == merge_maps(stats_of(ours), stats_of(theirs)),
{
    let goal = merge_maps(stats_of(ours), stats_of(theirs));
    assert forall|key: Seq<u8>| #[trigger] named_from(all, 0, key) == theirs.contains_key(key) by {
        if theirs.contains_key(key) {
            let i = choose|i: int| 0 <= i < all.len() && (#[trigger] all[i]).0@ == key;
            assert(named_from(all, 0, key));
        }
        if named_from(all, 0, key) {
            let j = choose|j: int| 0 <= j < all.len() && (#[trigger] all[j]).0@ == key;
            assert(theirs.contains_key(all[j].0@));
        }
    }
    assert forall|key: Seq<u8>| stats_of(cur).contains_key(key) == goal.contains_key(key) by {
        assert(named_from(all, 0, key) == theirs.contains_key(key));
    }
    assert forall|key: Seq<u8>| stats_of(cur).contains_key(key) implies stats_of(cur)[key]
        == goal[key] by {
        assert(named_from(all, 0, key) == theirs.contains_key(key));
        if named_from(all, 0, key) {
            let j = choose|j: int| 0 <= j < all.len() && (#[trigger] all[j]).0@ == key;
            assert(theirs[all[j].0@] == all[j].1);
        }
    }
    assert(stats_of(cur) =~= goal);
}

/// Folds the registry `b` into `a`: a station of both has its accumulators
/// merged, a station of `b` alone moves over.  Where the merged sum or count
/// of some station has no room, nothing is merged and `a` is left as it was.
pub fn merge_registries(a: &mut Registry, b: Registry) -> (r: Result<(), MergeOverflow>)
    requires
        old(a).wf(),
        b.wf(),
    ensures
        final(a).wf(),
        r is Ok <==> mergeable(old(a)@, b@),
        r is Err ==> !is_light(merge_maps(old(a)@, b@)),
        final(a)@ == (if r is Ok {
            merge_maps(old(a)@, b@)
        } else {
            old(a)@
        }),
{
    let ghost theirs = table_entries(b.table);
    let ghost ours = table_entries(a.table);
    let mut entries = table_into_entries(b.table);
    let ghost all = entries@;
    let mut i: usize = 0;
    while i < entries.len()
        invariant
            i <= entries@.len(),
            entries@ == all,
            holds_exactly(theirs, all),
            table_entries(a.table) == ours,
            a@ == old(a)@,
            all_live(old(a)@),
            all_live(b@),
            old(a)@ == stats_of(ours),
            b@ == stats_of(theirs),
            forall|j: int| 0 <= j < i ==> fits_into(ours, #[trigger] all[j]),
        decreases entries@.len() - i,
    {
        let fits = match table_get_mut(&mut a.table, entries[i].0.as_slice()) {
            Some(existing) => existing.can_merge(&entries[i].1),
            None => true,
        };
        assert(table_entries(a.table) =~= ours);
        if !fits {
            proof {
                let key = all[i as int].0@;
                assert(theirs.contains_key(all[i as int].0@) && theirs[key] == all[i as int].1);
                assert(old(a)@.contains_key(key) && b@.contains_key(key));
                assert(!(#[trigger] old(a)@[key]).merge(b@[key]).fits());
                lemma_unmergeable_is_heavy(old(a)@, b@, merge_maps(old(a)@, b@));
            }
            return Err(MergeOverflow {  });
        }
        i = i + 1;
    }
    proof {
        assert forall|k: Seq<u8>| old(a)@.contains_key(k) && b@.contains_key(k) implies (
        #[trigger] old(a)@[k]).merge(b@[k]).fits() by {
            assert(theirs.contains_key(k));
            let j = choose|j: int| 0 <= j < all.len() && (#[trigger] all[j]).0@ == k;
            assert(fits_into(ours, all[j]));
            assert(theirs[all[j].0@] == all[j].1);
        }
        assert(merged_from(ours, all, all.len() as int, ours)) by {
            assert forall|key: Seq<u8>| !#[trigger] named_from(all, all.len() as int, key) by {}
        }
    }
    while entries.len() > 0
        invariant
            entries@ == all.take(entries@.len() as int),
            entries@.len() <= all.len(),
            holds_exactly(theirs, all),
            forall|j: int| 0 <= j < all.len() ==> fits_into(ours, #[trigger] all[j]),
            merged_from(ours, all, entries@.len() as int, table_entries(a.table)),
        decreases entries@.len(),
    {
        let ghost from = entries@.len() as int;
        let ghost cur = table_entries(a.table);
        let (name, theirs_one) = entries.pop().unwrap();
        proof {
            assert(all[from - 1] == (name, theirs_one));
            assert(entries@ =~= all.take(from - 1));
            assert(fits_into(ours, all[from - 1]));
            // the name has not been merged in yet
            if named_from(all, from, name@) {
                let j = choose|j: int| from <= j < all.len() && (#[trigger] all[j]).0@ == name@;
                assert((#[trigger] all[from - 1]).0@ != (#[trigger] all[j]).0@);
            }
            assert(!named_from(all, from, name@));
        }
        match table_get_mut(&mut a.table, name.as_slice()) {
            Some(existing) => {
                existing.merge(&theirs_one);
            },
            None => {
                table_insert(&mut a.table, name, theirs_one);
            },
        }
        proof {
            let value = table_entries(a.table)[all[from - 1].0@];
            lemma_merge_step(ours, all, from, cur, value);
            assert(table_entries(a.table) =~= cur.insert(all[from - 1].0@, value));
        }
    }
    proof {
        lemma_merge_done(ours, theirs, all, table_entries(a.table));
        lemma_merge_maps_live(old(a)@, b@);
    }
    Ok(())
}

/// The maps that the registries stand for.
pub open spec fn registry_views(rs: Seq<Registry>) -> Seq<Map<Seq<u8>, Stats>> {
    Seq::new(rs.len(), |i: int| rs[i]@)
}

/// Whether every registry is well formed.
pub open spec fn all_wf(rs: Seq<Registry>) -> bool {
    forall|i: int| 0 <= i < rs.len() ==> (#[trigger] rs[i]).wf()
}

/// The maps merged into one, from the first to the last.
pub open spec fn merged_all(ms: Seq<Map<Seq<u8>, Stats>>) -> Map<Seq<u8>, Stats>
    decreases ms.len(),
{
    if ms.len() == 0 {
        no_stats()
    } else {
        merge_maps(merged_all(ms.drop_last()), ms.last())
    }
}

/// Whether the maps can be merged from the first to the last with every
/// merged sum and count within the machine integers.
pub open spec fn reducible(ms: Seq<Map<Seq<u8>, Stats>>) -> bool
    decreases ms.len(),
{
    ms.len() <= 1 || (reducible(ms.drop_last()) && mergeable(
        merged_all(ms.drop_last()),
        ms.last(),
    ))
}

/// Why registries could not be reduced to one.
#[derive(Clone, Copy, Debug, PartialEq, Eq, Structural)]
pub enum ReduceError {
    /// There is no registry to start from.
    Empty,
    /// The merged sum or count of some station has no room.
    Overflow,
}

/// Where maps can be merged, so can any first few of them.
pub proof fn lemma_reducible_prefix(ms: Seq<Map<Seq<u8>, Stats>>, k: int)
    requires
        reducible(ms),
        0 <= k <= ms.len(),
    ensures
        reducible(ms.take(k)),
    decreases ms.len(),
{
    if k == ms.len() {
        assert(ms.take(k) =~= ms);
    } else if ms.len() > 1 {
        lemma_reducible_prefix(ms.drop_last(), k);
        assert(ms.drop_last().take(k) =~= ms.take(k));
    }
}

/// What the first few maps merge to is within what all of them merge to.
pub proof fn lemma_within_merged_prefix(ms: Seq<Map<Seq<u8>, Stats>>, k: int)
    requires
        0 <= k <= ms.len(),
    ensures
        within(merged_all(ms.take(k)), merged_all(ms)),
    decreases ms.len(),
{
    if k == ms.len() {
        assert(ms.take(k) =~= ms);
    } else {
        lemma_within_merged_prefix(ms.drop_last(), k);
        assert(ms.drop_last().take(k) =~= ms.take(k));
        lemma_within_merge(merged_all(ms.drop_last()), ms.last());
        lemma_within_transitive(
            merged_all(ms.take(k)),
            merged_all(ms.drop_last()),
            merged_all(ms),
        );
    }
}

/// Each of the maps is within what all of them merge to.
pub proof fn lemma_within_merged_all(ms: Seq<Map<Seq<u8>, Stats>>, i: int)
    requires
        0 <= i < ms.len(),
    ensures
        within(ms[i], merged_all(ms)),
{
    lemma_within_merged_prefix(ms, i + 1);
    assert(ms.take(i + 1).drop_last() =~= ms.take(i));
    assert(ms.take(i + 1).last() == ms[i]);
    lemma_within_merge(merged_all(ms.take(i)), ms[i]);
    lemma_within_transitive(ms[i], merged_all(ms.take(i + 1)), merged_all(ms));
}

/// Reduces the registries to one by merging them from the first to the last.
pub fn reduce_registries(registries: Vec<Registry>) -> (r: Result<Registry, ReduceError>)
    requires
        all_wf(registries@),
    ensures
        match r {
            Ok(merged) => registries@.len() > 0 && reducible(registry_views(registries@))
                && merged.wf() && merged@ == merged_all(registry_views(registries@)),
            Err(ReduceError::Empty) => registries@.len() == 0,
            Err(ReduceError::Overflow) => registries@.len() > 0 && !reducible(
                registry_views(registries@),
            ) && !is_light(merged_all(registry_views(registries@))),
        },
{
    let mut rest = registries;
    let ghost views = registry_views(registries@);
    if rest.len() == 0 {
        return Err(ReduceError::Empty);
    }
    let mut merged = rest.remove(0);
    let ghost mut k: int = 1;
    proof {
        assert(views.take(1).drop_last() =~= Seq::<Map<Seq<u8>, Stats>>::empty());
        assert(merged_all(views.take(1).drop_last()) == no_stats());
        crate::tally::lemma_merge_maps_empty(views[0]);
        assert(views.take(1).last() == views[0]);
        assert(merged.wf());
        assert(rest@ =~= registries@.skip(1));
    }
    while rest.len() > 0
        invariant
            1 <= k <= registries@.len(),
            views == registry_views(registries@),
            all_wf(registries@),
            rest@ == registries@.skip(k),
            merged.wf(),
            merged@ == merged_all(views.take(k)),
            reducible(views.take(k)),
        decreases rest@.len(),
    {
        let next = rest.remove(0);
        proof {
            assert(next == registries@[k]);
            assert(registries@[k].wf());
            assert(rest@ =~= registries@.skip(k + 1));
            assert(views.take(k + 1).drop_last() =~= views.take(k));
            assert(views.take(k + 1).last() == next@);
        }
        match merge_registries(&mut merged, next) {
            Ok(()) => {},
            Err(_) => {
                proof {
                    if reducible(views) {
                        lemma_reducible_prefix(views, k + 1);
                    }
                    lemma_within_merged_prefix(views, k + 1);
                    if is_light(merged_all(views)) {
                        lemma_within_light(merged_all(views.take(k + 1)), merged_all(views));
                    }
                }
                return Err(ReduceError::Overflow);
            },
        }
        proof {
            k = k + 1;
        }
    }
    assert(views.take(k) =~= views);
    Ok(merged)
}

} // verus!
