//! Putting the entries of a listing into the order in which they are rendered.

use crate::entry::{entry_order, lemma_entry_order_total, views, Entry, EntryView};
use crate::order::{lemma_lex_reflexive, lex_le};
use vstd::prelude::*;
use vstd::relations::{sorted_by, total_ordering};
use vstd::seq_lib::{lemma_sorted_unique, to_multiset_build, to_multiset_insert};

verus! {

/// The entries of a listing in the order in which they are rendered: the
/// same entries, each as often as the listing holds it, ascending.
pub open spec fn in_order(listing: Seq<EntryView>) -> Seq<EntryView> {
    listing.sort_by(entry_order())
}

/// The rendered order holds exactly the entries of the listing and ascends:
/// of two entries the one that comes earlier has the path that comes no
/// later in dictionary order.
pub proof fn lemma_in_order(listing: Seq<EntryView>)
    ensures
        in_order(listing).to_multiset() == listing.to_multiset(),
        in_order(listing).len() == listing.len(),
        sorted_by(in_order(listing), entry_order()),
        forall|i: int, j: int|
            0 <= i < j < listing.len() ==> lex_le(
                (#[trigger] in_order(listing)[i]).path,
                (#[trigger] in_order(listing)[j]).path,
            ),
{
    lemma_entry_order_total();
    listing.lemma_sort_by_ensures(entry_order());
    in_order(listing).to_multiset_ensures();
    listing.to_multiset_ensures();
    let sorted = in_order(listing);
    assert forall|i: int, j: int| 0 <= i < j < listing.len() implies lex_le(
        (#[trigger] sorted[i]).path,
        (#[trigger] sorted[j]).path,
    ) by {
        assert(entry_order()(sorted[i], sorted[j]));
        lemma_lex_reflexive(sorted[i].path);
    }
}

/// Only one arrangement of a listing ascends: the rendered order.
pub proof fn lemma_in_order_unique(listing: Seq<EntryView>, arranged: Seq<EntryView>)
    requires
        arranged.to_multiset() == listing.to_multiset(),
        sorted_by(arranged, entry_order()),
    ensures
        arranged == in_order(listing),
{
    lemma_entry_order_total();
    lemma_in_order(listing);
    lemma_sorted_unique(arranged, in_order(listing), entry_order());
}

/// The rendered order does not depend on the order in which a listing came
/// in: two listings that hold the same entries are rendered in one order.
pub proof fn lemma_in_order_of_rearranged(listing: Seq<EntryView>, rearranged: Seq<EntryView>)
    requires
        listing.to_multiset() == rearranged.to_multiset(),
    ensures
        in_order(listing) == in_order(rearranged),
{
    lemma_in_order(rearranged);
    lemma_in_order_unique(listing, in_order(rearranged));
}

/// A place in an ascending run at which `entry` can stand so that the run
/// still ascends.
fn place_for(sorted: &Vec<Entry>, entry: &Entry) -> (at: usize)
    requires
        sorted_by(views(sorted@), entry_order()),
    ensures
        at <= sorted.len(),
        sorted_by(views(sorted@).insert(at as int, entry@), entry_order()),
{
    let ghost run = views(sorted@);
    let ghost r = entry_order();
    let mut low: usize = 0;
    let mut high: usize = sorted.len();
    proof {
        lemma_entry_order_total();
    }
    while low < high
        invariant
            low <= high <= sorted.len(),
            run == views(sorted@),
            r == entry_order(),
            total_ordering(r),
            sorted_by(run, r),
            forall|i: int| 0 <= i < low ==> r(#[trigger] run[i], entry@),
            forall|i: int| high <= i < run.len() ==> r(entry@, #[trigger] run[i]),
        decreases high - low,
    {
        let middle = low + (high - low) / 2;
        if sorted[middle].precedes(entry) {
            proof {
                assert forall|i: int| 0 <= i < middle + 1 implies r(#[trigger] run[i], entry@) by {
                    if i < middle {
                        assert(r(run[i], run[middle as int]) && r(run[middle as int], entry@));
                    }
                }
            }
            low = middle + 1;
        } else {
            proof {
                assert(r(run[middle as int], entry@) || r(entry@, run[middle as int]));
                assert forall|i: int| middle <= i < run.len() implies r(
                    entry@,
                    #[trigger] run[i],
                ) by {
                    if middle < i {
                        assert(r(entry@, run[middle as int]) && r(run[middle as int], run[i]));
                    }
                }
            }
            high = middle;
        }
    }
    proof {
        let grown = run.insert(low as int, entry@);
        assert forall|i: int, j: int| 0 <= i < j < grown.len() implies #[trigger] r(
            grown[i],
            grown[j],
        ) by {}
    }
    low
}

/// Puts the entries of a listing into the order in which they are rendered.
pub fn sort_entries(listing: Vec<Entry>) -> (sorted: Vec<Entry>)
    ensures
        views(sorted@) == in_order(views(listing@)),
{
    let ghost given = views(listing@);
    let mut rest = listing;
    let mut sorted: Vec<Entry> = Vec::new();
    proof {
        assert(views(sorted@).to_multiset().add(views(rest@).to_multiset()) =~= given.to_multiset())
            by {
            views(sorted@).to_multiset_ensures();
        }
    }
    loop
        invariant
            sorted_by(views(sorted@), entry_order()),
            views(sorted@).to_multiset().add(views(rest@).to_multiset()) == given.to_multiset(),
        ensures
            sorted_by(views(sorted@), entry_order()),
            views(sorted@).to_multiset() == given.to_multiset(),
        decreases rest.len(),
    {
        let ghost before = views(rest@);
        let ghost run = views(sorted@);
        match rest.pop() {
            None => {
                proof {
                    before.to_multiset_ensures();
                }
                break ;
            },
            Some(entry) => {
                let at = place_for(&sorted, &entry);
                sorted.insert(at, entry);
                proof {
                    assert(views(sorted@) =~= run.insert(at as int, entry@));
                    assert(before =~= views(rest@).push(entry@));
                    to_multiset_insert(run, at as int, entry@);
                    to_multiset_build(views(rest@), entry@);
                }
            },
        }
    }
    proof {
        lemma_in_order_unique(given, views(sorted@));
    }
    sorted
}

} // verus!
