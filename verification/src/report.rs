//! The report: the stations in order, each with minimum, mean and maximum.

use crate::aggregation::{lemma_mean_between, Aggregation, Stats};
use crate::registry::entries_view;
use crate::tally::listing_of;
use crate::temperature::{push_float, temperature_text};
use vstd::prelude::*;

verus! {

/// The byte that opens the report.
pub const OPEN: u8 = 123;

/// The byte that closes the report.
pub const CLOSE: u8 = 125;

/// The byte between a name and its temperatures.
pub const EQUALS: u8 = 61;

/// The byte between two temperatures of an entry.
pub const SLASH: u8 = 47;

/// The first byte between two entries.
pub const COMMA: u8 = 44;

/// The second byte between two entries.
pub const SPACE: u8 = 32;

/// The text of one entry: `name=min/mean/max`.
pub open spec fn entry_text(name: Seq<u8>, stats: Stats) -> Seq<u8> {
    name + seq![EQUALS] + temperature_text(stats.min) + seq![SLASH] + temperature_text(
        stats.mean(),
    ) + seq![SLASH] + temperature_text(stats.max)
}

/// The texts of the entries in their order, with a comma and a space between
/// neighbours.
pub open spec fn listing_text(es: Seq<(Seq<u8>, Stats)>) -> Seq<u8>
    decreases es.len(),
{
    if es.len() == 0 {
        Seq::<u8>::empty()
    } else if es.len() == 1 {
        entry_text(es[0].0, es[0].1)
    } else {
        listing_text(es.drop_last()) + seq![COMMA, SPACE] + entry_text(es.last().0, es.last().1)
    }
}

/// The report of the entries: their listing in braces.  No entry gives `{}`.
pub open spec fn report_text(es: Seq<(Seq<u8>, Stats)>) -> Seq<u8> {
    seq![OPEN] + listing_text(es) + seq![CLOSE]
}

/// The report of a map of statistics: that of its one listing by name.
pub open spec fn report_of(m: Map<Seq<u8>, Stats>) -> Seq<u8> {
    report_text(listing_of(m))
}

/// Whether every entry holds at least one temperature.
pub open spec fn all_entries_live(es: Seq<(Vec<u8>, Aggregation)>) -> bool {
    forall|i: int| 0 <= i < es.len() ==> (#[trigger] es[i]).1@.is_live()
}

fn push_bytes(out: &mut Vec<u8>, bytes: &[u8])
    ensures
        final(out)@ == old(out)@ + bytes@,
{
    let mut i: usize = 0;
    while i < bytes.len()
        invariant
            i <= bytes@.len(),
            out@ == old(out)@ + bytes@.take(i as int),
        decreases bytes@.len() - i,
    {
        out.push(bytes[i]);
        assert(bytes@.take(i + 1) =~= bytes@.take(i as int).push(bytes@[i as int]));
        i = i + 1;
    }
    assert(bytes@.take(i as int) =~= bytes@);
}

/// Appends the entry of one station to `out`: the name, an equals sign, and
/// minimum, mean and maximum with slashes between them.
pub fn push_aggregation(out: &mut Vec<u8>, name: &[u8], aggregation: &Aggregation)
    requires
        aggregation@.is_live(),
    ensures
        final(out)@ == old(out)@ + entry_text(name@, aggregation@),
{
    proof {
        lemma_mean_between(aggregation@);
    }
    push_bytes(out, name);
    out.push(EQUALS);
    push_float(out, aggregation.min);
    out.push(SLASH);
    push_float(out, aggregation.mean());
    out.push(SLASH);
    push_float(out, aggregation.max);
    assert(out@ =~= old(out)@ + entry_text(name@, aggregation@));
}

/// The report of the entries, in the order in which they are given.
pub fn format_report(entries: &Vec<(Vec<u8>, Aggregation)>) -> (r: Vec<u8>)
    requires
        all_entries_live(entries@),
    ensures
        r@ == report_text(entries_view(entries@)),
{
    let ghost view = entries_view(entries@);
    let mut out: Vec<u8> = Vec::new();
    out.push(OPEN);
    let mut i: usize = 0;
    assert(view.take(0) =~= Seq::<(Seq<u8>, Stats)>::empty());
    while i < entries.len()
        invariant
            i <= entries@.len(),
            view == entries_view(entries@),
            all_entries_live(entries@),
            out@ == seq![OPEN] + listing_text(view.take(i as int)),
        decreases entries@.len() - i,
    {
        if i > 0 {
            out.push(COMMA);
            out.push(SPACE);
        }
        assert(entries@[i as int].1@.is_live());
        push_aggregation(&mut out, entries[i].0.as_slice(), &entries[i].1);
        proof {
            let next = view.take(i + 1);
            assert(next.drop_last() =~= view.take(i as int));
            assert(next.last() == view[i as int]);
            assert(out@ =~= seq![OPEN] + listing_text(next));
        }
        i = i + 1;
    }
    out.push(CLOSE);
    assert(view.take(i as int) =~= view);
    out
}

} // verus!
