//! The list of station names that measurements are made up for.

use crate::lines::{first_index_of, is_first};
use crate::sorter::{
    lemma_lex_antisymmetric, lemma_lex_transitive, lex_le, lex_lt, name_le, sort_by_name,
    sorted_by_name,
};
use crate::temperature::SEMICOLON;
use vstd::prelude::*;
use vstd::slice::{slice_subrange, slice_to_vec};

verus! {

/// The byte that starts a comment line of a station file.
pub const HASH: u8 = 35;

/// The station name of a line of a station file: what comes before the first
/// semicolon.  A line that starts a comment and a line without semicolon
/// name no station.
pub open spec fn station_name_of(line: Seq<u8>) -> Option<Seq<u8>> {
    if line.len() > 0 && line[0] == HASH {
        None
    } else if exists|i: int| is_first(line, SEMICOLON, i) {
        Some(line.take(choose|i: int| is_first(line, SEMICOLON, i)))
    } else {
        None
    }
}

/// Whether `name` is the station name of one of the lines.
pub open spec fn names_a_line(lines: Seq<Vec<u8>>, name: Seq<u8>) -> bool {
    exists|j: int| 0 <= j < lines.len() && station_name_of((#[trigger] lines[j])@) == Some(name)
}

/// Whether `names` holds each of the station names of the lines once, in the
/// byte-wise order of the names.
pub open spec fn lists_names(lines: Seq<Vec<u8>>, names: Seq<Vec<u8>>) -> bool {
    &&& forall|a: int, b: int| 0 <= a < b < names.len() ==> lex_lt(names[a]@, names[b]@)
    &&& forall|i: int| 0 <= i < names.len() ==> names_a_line(lines, (#[trigger] names[i])@)
    &&& forall|name: Seq<u8>| #[trigger]
        names_a_line(lines, name) ==> exists|i: int|
            0 <= i < names.len() && (#[trigger] names[i])@ == name
}

/// The view of what `station_name` hands back.
pub open spec fn name_view(r: Option<&[u8]>) -> Option<Seq<u8>> {
    match r {
        Some(name) => Some(name@),
        None => None,
    }
}

/// The first place of a byte in a sequence is one place only.
proof fn lemma_first_unique(s: Seq<u8>, needle: u8, i: int, j: int)
    requires
        is_first(s, needle, i),
        is_first(s, needle, j),
    ensures
        i == j,
{
    if i < j {
        assert(s.take(j)[i] == needle);
    } else if j < i {
        assert(s.take(i)[j] == needle);
    }
}

/// The station name of one line of a station file, borrowed from the line.
pub fn station_name(line: &[u8]) -> (r: Option<&[u8]>)
    ensures
        name_view(r) == station_name_of(line@),
{
    if line.len() > 0 && line[0] == HASH {
        return None;
    }
    match first_index_of(SEMICOLON, line) {
        Some(k) => {
            proof {
                assert(is_first(line@, SEMICOLON, k as int));
                let i = choose|i: int| is_first(line@, SEMICOLON, i);
                lemma_first_unique(line@, SEMICOLON, i, k as int);
            }
            Some(slice_subrange(line, 0, k))
        },
        None => {
            proof {
                if exists|i: int| is_first(line@, SEMICOLON, i) {
                    let i = choose|i: int| is_first(line@, SEMICOLON, i);
                    assert(line@[i] == SEMICOLON);
                }
            }
            None
        },
    }
}

/// Whether one of the first `upto` entries has the name `name`.
pub open spec fn has_key(es: Seq<(Vec<u8>, ())>, upto: int, name: Seq<u8>) -> bool {
    exists|k: int| 0 <= k < upto && (#[trigger] es[k]).0@ == name
}

/// Whether `name` is one of the names.
pub open spec fn has_name(names: Seq<Vec<u8>>, name: Seq<u8>) -> bool {
    exists|a: int| 0 <= a < names.len() && (#[trigger] names[a])@ == name
}

/// Whether `names` holds the names of the first `upto` entries of the sorted
/// entries, each once and in their order.
pub open spec fn deduped_upto(es: Seq<(Vec<u8>, ())>, upto: int, names: Seq<Vec<u8>>) -> bool {
    &&& upto > 0 ==> names.len() > 0 && names.last()@ == es[upto - 1].0@
    &&& upto == 0 ==> names.len() == 0
    &&& forall|a: int, b: int| 0 <= a < b < names.len() ==> lex_lt(names[a]@, names[b]@)
    &&& forall|a: int| 0 <= a < names.len() ==> has_key(es, upto, (#[trigger] names[a])@)
    &&& forall|k: int| 0 <= k < upto ==> has_name(names, (#[trigger] es[k]).0@)
}

/// The name of the next entry is taken if it is not the name before it.
proof fn lemma_dedup_step(
    es: Seq<(Vec<u8>, ())>,
    i: int,
    before: Seq<Vec<u8>>,
    after: Seq<Vec<u8>>,
)
    requires
        0 <= i < es.len(),
        sorted_by_name(es),
        deduped_upto(es, i, before),
        if i == 0 || !lex_le(es[i].0@, es[i - 1].0@) {
            after.len() == before.len() + 1 && after.last()@ == es[i].0@ && after.drop_last()
                == before
        } else {
            after == before
        },
    ensures
        deduped_upto(es, i + 1, after),
{
    let name = es[i].0@;
    if i == 0 || !lex_le(es[i].0@, es[i - 1].0@) {
        let last = after.len() - 1;
        assert forall|a: int| 0 <= a < last implies after[a] == before[a] by {
            assert(after.drop_last()[a] == after[a]);
        }
        assert forall|a: int, b: int| 0 <= a < b < after.len() implies lex_lt(
            after[a]@,
            after[b]@,
        ) by {
            if b < last {
                assert(lex_lt(before[a]@, before[b]@));
            } else {
                let top = before.last()@;
                assert(lex_le(es[i - 1].0@, es[i].0@));
                crate::sorter::lemma_lex_total(name, top);
                if a < before.len() - 1 {
                    assert(lex_lt(before[a]@, before[before.len() - 1]@));
                    lemma_lex_transitive(before[a]@, top, name);
                    if before[a]@ == name {
                        lemma_lex_antisymmetric(top, name);
                    }
                }
            }
        }
        assert forall|a: int| 0 <= a < after.len() implies has_key(
            es,
            i + 1,
            (#[trigger] after[a])@,
        ) by {
            if a < last {
                assert(has_key(es, i, before[a]@));
                let k = choose|k: int| 0 <= k < i && (#[trigger] es[k]).0@ == before[a]@;
                assert(es[k].0@ == after[a]@);
            } else {
                assert(es[i].0@ == after[a]@);
            }
        }
        assert forall|k: int| 0 <= k < i + 1 implies has_name(after, (#[trigger] es[k]).0@) by {
            if k < i {
                assert(has_name(before, es[k].0@));
                let a = choose|a: int| 0 <= a < before.len() && (#[trigger] before[a])@ == es[k].0@;
                assert(after[a]@ == es[k].0@);
            } else {
                assert(after[last]@ == es[k].0@);
            }
        }
    } else {
        assert(lex_le(es[i - 1].0@, es[i].0@));
        lemma_lex_antisymmetric(es[i - 1].0@, name);
        assert forall|a: int| 0 <= a < after.len() implies has_key(
            es,
            i + 1,
            (#[trigger] after[a])@,
        ) by {
            assert(has_key(es, i, before[a]@));
            let k = choose|k: int| 0 <= k < i && (#[trigger] es[k]).0@ == before[a]@;
            assert(es[k].0@ == after[a]@);
        }
        assert forall|k: int| 0 <= k < i + 1 implies has_name(after, (#[trigger] es[k]).0@) by {
            if k < i {
                assert(has_name(before, es[k].0@));
            } else {
                assert(after[after.len() - 1]@ == es[k].0@);
            }
        }
    }
}

/// The station names of the lines of a station file, each once, sorted.
pub fn station_names(lines: &Vec<Vec<u8>>) -> (names: Vec<Vec<u8>>)
    ensures
        lists_names(lines@, names@),
{
    let mut found: Vec<(Vec<u8>, ())> = Vec::new();
    let mut j: usize = 0;
    while j < lines.len()
        invariant
            j <= lines@.len(),
            forall|k: int|
                0 <= k < found@.len() ==> names_a_line(lines@, (#[trigger] found@[k]).0@),
            forall|i: int|
                0 <= i < j ==> (station_name_of((#[trigger] lines@[i])@) matches Some(name)
                    ==> exists|k: int| 0 <= k < found@.len() && (#[trigger] found@[k]).0@ == name),
        decreases lines@.len() - j,
    {
        let ghost before = found@;
        match station_name(lines[j].as_slice()) {
            Some(name) => {
                found.push((slice_to_vec(name), ()));
                proof {
                    let last = found@.len() - 1;
                    assert(station_name_of(lines@[j as int]@) == Some(found@[last].0@));
                    assert forall|k: int| 0 <= k < found@.len() implies names_a_line(
                        lines@,
                        (#[trigger] found@[k]).0@,
                    ) by {
                        if k < last {
                            assert(found@[k] == before[k]);
                        }
                    }
                    assert forall|i: int| 0 <= i < j + 1 implies (station_name_of(
                        (#[trigger] lines@[i])@,
                    ) matches Some(name) ==> exists|k: int|
                        0 <= k < found@.len() && (#[trigger] found@[k]).0@ == name) by {
                        match station_name_of(lines@[i]@) {
                            Some(name) => {
                                if i < j {
                                    let k = choose|k: int|
                                        0 <= k < before.len() && (#[trigger] before[k]).0@ == name;
                                    assert(found@[k] == before[k]);
                                } else {
                                    assert(found@[last].0@ == name);
                                }
                            },
                            None => {},
                        }
                    }
                }
            },
            None => {},
        }
        j = j + 1;
    }
    let ghost unsorted = found@;
    let sorted = sort_by_name(found);
    proof {
        unsorted.to_multiset_ensures();
        sorted@.to_multiset_ensures();
    }
    let mut names: Vec<Vec<u8>> = Vec::new();
    let mut i: usize = 0;
    while i < sorted.len()
        invariant
            i <= sorted@.len(),
            sorted_by_name(sorted@),
            deduped_upto(sorted@, i as int, names@),
        decreases sorted@.len() - i,
    {
        let ghost before = names@;
        let fresh = i == 0 || !name_le(sorted[i].0.as_slice(), sorted[i - 1].0.as_slice());
        if fresh {
            names.push(slice_to_vec(sorted[i].0.as_slice()));
        }
        proof {
            if fresh {
                assert(names@.drop_last() =~= before);
            }
            lemma_dedup_step(sorted@, i as int, before, names@);
        }
        i = i + 1;
    }
    proof {
        assert forall|a: int| 0 <= a < names@.len() implies names_a_line(
            lines@,
            (#[trigger] names@[a])@,
        ) by {
            assert(has_key(sorted@, sorted@.len() as int, names@[a]@));
            let k = choose|k: int|
                0 <= k < sorted@.len() && (#[trigger] sorted@[k]).0@ == names@[a]@;
            assert(sorted@.contains(sorted@[k]));
            assert(sorted@.to_multiset().count(sorted@[k]) > 0);
            assert(unsorted.contains(sorted@[k]));
            let u = choose|u: int| 0 <= u < unsorted.len() && unsorted[u] == sorted@[k];
            assert(names_a_line(lines@, unsorted[u].0@));
        }
        assert forall|name: Seq<u8>| #[trigger] names_a_line(lines@, name) implies exists|a: int|
            0 <= a < names@.len() && (#[trigger] names@[a])@ == name by {
            let j = choose|j: int|
                0 <= j < lines@.len() && station_name_of((#[trigger] lines@[j])@) == Some(name);
            let u = choose|u: int| 0 <= u < unsorted.len() && (#[trigger] unsorted[u]).0@ == name;
            assert(unsorted.contains(unsorted[u]));
            assert(unsorted.to_multiset().count(unsorted[u]) > 0);
            assert(sorted@.contains(unsorted[u]));
            let k = choose|k: int| 0 <= k < sorted@.len() && sorted@[k] == unsorted[u];
            assert(has_name(names@, sorted@[k].0@));
        }
    }
    names
}

} // verus!
