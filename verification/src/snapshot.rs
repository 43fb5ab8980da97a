//! What a file system held at one moment, as far as rendering asks: for each
//! directory that could be listed, its listing.

use crate::entry::{views, Entry, EntryView};
use vstd::prelude::*;

verus! {

/// A directory that was listed, with what the listing held.
struct Listed {
    path: String,
    entries: Vec<Entry>,
}

/// The listings of the directories of a file system, by path. A directory
/// that the snapshot does not hold counts as one that cannot be listed.
pub struct Snapshot {
    listed: Vec<Listed>,
}

/// The listings that a run of records holds: a later record for a path
/// replaces an earlier one.
spec fn table(listed: Seq<Listed>) -> Map<Seq<char>, Seq<EntryView>>
    decreases listed.len(),
{
    if listed.len() == 0 {
        Map::empty()
    } else {
        table(listed.drop_last()).insert(listed.last().path@, views(listed.last().entries@))
    }
}

impl View for Snapshot {
    type V = Map<Seq<char>, Seq<EntryView>>;

    closed spec fn view(&self) -> Map<Seq<char>, Seq<EntryView>> {
        table(self.listed@)
    }
}

impl Snapshot {
    /// A snapshot that holds no listing.
    pub fn new() -> (snapshot: Snapshot)
        ensures
            snapshot@ == Map::<Seq<char>, Seq<EntryView>>::empty(),
    {
        Snapshot { listed: Vec::new() }
    }

    /// Records the listing of `dir`, in place of an earlier one if there is one.
    pub fn record(&mut self, dir: &str, entries: Vec<Entry>)
        ensures
            final(self)@ == old(self)@.insert(dir@, views(entries@)),
    {
        let ghost before = self.listed@;
        self.listed.push(Listed { path: dir.to_owned(), entries });
        proof {
            assert(self.listed@.drop_last() =~= before);
        }
    }

    /// The listing of `dir`, if the snapshot holds one.
    pub fn listing(&self, dir: &str) -> (found: Option<&Vec<Entry>>)
        ensures
            match found {
                Some(entries) => self@.contains_key(dir@) && views(entries@) == self@[dir@],
                None => !self@.contains_key(dir@),
            },
    {
        let wanted = dir.to_owned();
        let mut i = self.listed.len();
        proof {
            assert(self.listed@.take(i as int) =~= self.listed@);
        }
        while i > 0
            invariant
                i <= self.listed.len(),
                wanted@ == dir@,
                self@.contains_key(dir@) == table(self.listed@.take(i as int)).contains_key(dir@),
                self@.contains_key(dir@) ==> self@[dir@] == table(
                    self.listed@.take(i as int),
                )[dir@],
            decreases i,
        {
            proof {
                let upto = self.listed@.take(i as int);
                assert(upto.drop_last() =~= self.listed@.take(i - 1));
            }
            i -= 1;
            if self.listed[i].path == wanted {
                return Some(&self.listed[i].entries);
            }
        }
        None
    }
}

} // verus!
