//! One entry of a directory listing, and the order in which the entries of a
//! listing are rendered.

use crate::order::{
    lemma_lex_antisymmetric, lemma_lex_reflexive, lemma_lex_total, lemma_lex_transitive, lex_le,
    text_le,
};
use vstd::prelude::*;
use vstd::relations::*;

verus! {

/// An entry of a directory listing: a file, or a directory.
#[derive(Debug)]
pub struct Entry {
    /// The full path of the entry.
    pub path: String,
    /// The last component of the path: what the entry's line shows.
    pub name: String,
    /// Whether the entry is a directory, so that it has a listing of its own.
    pub is_dir: bool,
}

/// An entry as contracts see it.
pub struct EntryView {
    pub path: Seq<char>,
    pub name: Seq<char>,
    pub is_dir: bool,
}

impl View for Entry {
    type V = EntryView;

    open spec fn view(&self) -> EntryView {
        EntryView { path: self.path@, name: self.name@, is_dir: self.is_dir }
    }
}

/// The entries of a listing as contracts see them, in the order of the listing.
pub open spec fn views(entries: Seq<Entry>) -> Seq<EntryView> {
    Seq::new(entries.len(), |i: int| entries[i]@)
}

/// Whether `a` is rendered no later than `b` when both stand in one listing.
/// Entries are ordered by their full paths. A listing read from a file system
/// holds no path twice; where a listing does, the names decide, and then a
/// file comes before a directory, so that no two different entries tie.
pub open spec fn entry_le(a: EntryView, b: EntryView) -> bool {
    if a.path != b.path {
        lex_le(a.path, b.path)
    } else if a.name != b.name {
        lex_le(a.name, b.name)
    } else {
        !a.is_dir || b.is_dir
    }
}

/// The order of the entries as a relation.
pub open spec fn entry_order() -> spec_fn(EntryView, EntryView) -> bool {
    |a: EntryView, b: EntryView| entry_le(a, b)
}

/// The order of the entries is total: any two entries compare, only an entry
/// and itself tie, and the order passes along chains.
pub proof fn lemma_entry_order_total()
    ensures
        total_ordering(entry_order()),
{
    let r = entry_order();
    assert forall|a: EntryView| #[trigger] r(a, a) by {}
    assert forall|a: EntryView, b: EntryView| #[trigger] r(a, b) && #[trigger] r(b, a) implies a
        == b by {
        if a.path != b.path {
            lemma_lex_antisymmetric(a.path, b.path);
        } else if a.name != b.name {
            lemma_lex_antisymmetric(a.name, b.name);
        }
    }
    assert forall|a: EntryView, b: EntryView| #[trigger] r(a, b) || #[trigger] r(b, a) by {
        lemma_lex_total(a.path, b.path);
        lemma_lex_total(a.name, b.name);
    }
    assert forall|a: EntryView, b: EntryView, c: EntryView| #[trigger]
        r(a, b) && #[trigger] r(b, c) implies r(a, c) by {
        lemma_entry_le_transitive(a, b, c);
    }
}

proof fn lemma_entry_le_transitive(a: EntryView, b: EntryView, c: EntryView)
    requires
        entry_le(a, b),
        entry_le(b, c),
    ensures
        entry_le(a, c),
{
    lemma_lex_reflexive(a.path);
    lemma_lex_reflexive(b.path);
    lemma_lex_transitive(a.path, b.path, c.path);
    if a.path == c.path {
        lemma_lex_antisymmetric(a.path, b.path);
        lemma_lex_reflexive(a.name);
        lemma_lex_reflexive(b.name);
        lemma_lex_transitive(a.name, b.name, c.name);
        if a.name == c.name {
            lemma_lex_antisymmetric(a.name, b.name);
        }
    }
}

impl Clone for Entry {
    fn clone(&self) -> (copy: Entry)
        ensures
            copy == *self,
    {
        Entry { path: self.path.clone(), name: self.name.clone(), is_dir: self.is_dir }
    }
}

impl Entry {
    /// An entry with the given path, name and kind.
    pub fn new(path: &str, name: &str, is_dir: bool) -> (entry: Entry)
        ensures
            entry@ == (EntryView { path: path@, name: name@, is_dir }),
    {
        Entry { path: path.to_owned(), name: name.to_owned(), is_dir }
    }

    /// Whether this entry is rendered no later than `other` in a listing that
    /// holds both.
    pub fn precedes(&self, other: &Entry) -> (r: bool)
        ensures
            r == entry_le(self@, other@),
    {
        if !(self.path == other.path) {
            text_le(self.path.as_str(), other.path.as_str())
        } else if !(self.name == other.name) {
            text_le(self.name.as_str(), other.name.as_str())
        } else {
            !self.is_dir || other.is_dir
        }
    }
}

/// The entries of a listing as it was read, without the items that could
/// not be read: those that are left keep their order.
pub open spec fn readable_views(raw: Seq<Option<Entry>>) -> Seq<EntryView>
    decreases raw.len(),
{
    if raw.len() == 0 {
        Seq::empty()
    } else {
        let front = readable_views(raw.drop_last());
        match raw.last() {
            Some(entry) => front.push(entry@),
            None => front,
        }
    }
}

/// Drops from a listing the items that could not be read. An entry that
/// has vanished, or whose name cannot be told, is passed over; the rest of
/// the listing stands.
pub fn readable(raw: Vec<Option<Entry>>) -> (entries: Vec<Entry>)
    ensures
        views(entries@) == readable_views(raw@),
{
    let mut entries: Vec<Entry> = Vec::new();
    for item in items: raw
        invariant
            items.seq() == raw@,
            views(entries@) == readable_views(raw@.take(items.index() as int)),
    {
        proof {
            let upto = raw@.take(items.index() + 1);
            assert(upto.drop_last() =~= raw@.take(items.index() as int));
        }
        if let Some(entry) = item {
            entries.push(entry);
        }
    }
    proof {
        assert(raw@.take(raw@.len() as int) =~= raw@);
    }
    entries
}

} // verus!
