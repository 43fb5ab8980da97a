//! The lines of a rendering, and the text that they stand for.

use crate::text::{connector, indent, lemma_indent_concat, newline, truncation_notice};
use vstd::prelude::*;

verus! {

/// One line of a rendering below the root line.
pub enum Line {
    /// The line of an entry. `trail` tells of each ancestor below the
    /// directory that the rendering starts at, outermost first, whether it
    /// was the last of its listing; `last` tells the same of the entry.
    Entry { trail: Seq<bool>, last: bool, name: Seq<char> },
    /// The notice that stands for the contents of a directory beyond the
    /// depth limit. `trail` is as for an entry of that directory.
    Truncated { trail: Seq<bool> },
}

impl Line {
    /// The ancestors of the line.
    pub open spec fn trail(self) -> Seq<bool> {
        match self {
            Line::Entry { trail, .. } => trail,
            Line::Truncated { trail } => trail,
        }
    }

    /// What follows the indentation: connector and name, or the notice.
    pub open spec fn body(self) -> Seq<char> {
        match self {
            Line::Entry { last, name, .. } => connector(last) + name,
            Line::Truncated { .. } => truncation_notice(),
        }
    }

    /// The text of the line in a rendering whose lines all start with `base`:
    /// `base`, one indentation unit for each ancestor, the body, and the end
    /// of the line.
    pub open spec fn text(self, base: Seq<char>) -> Seq<char> {
        base + indent(self.trail()) + self.body() + newline()
    }

    /// The same line seen from further up: `outer` are the ancestors above
    /// the directory that its rendering started at.
    pub open spec fn under(self, outer: Seq<bool>) -> Line {
        match self {
            Line::Entry { trail, last, name } => Line::Entry { trail: outer + trail, last, name },
            Line::Truncated { trail } => Line::Truncated { trail: outer + trail },
        }
    }
}

/// The text of a run of lines: the texts of the lines, one after the other.
pub open spec fn page(base: Seq<char>, lines: Seq<Line>) -> Seq<char>
    decreases lines.len(),
{
    if lines.len() == 0 {
        Seq::empty()
    } else {
        page(base, lines.drop_last()) + lines.last().text(base)
    }
}

/// A run of lines seen from further up.
pub open spec fn under_all(outer: Seq<bool>, lines: Seq<Line>) -> Seq<Line> {
    Seq::new(lines.len(), |i: int| lines[i].under(outer))
}

/// The text of a single line as a page.
pub proof fn lemma_page_one(base: Seq<char>, line: Line)
    ensures
        page(base, seq![line]) == line.text(base),
{
    reveal_with_fuel(page, 2);
}

/// The text of two runs of lines, one after the other, is the text of the
/// first followed by the text of the second.
pub proof fn lemma_page_concat(base: Seq<char>, first: Seq<Line>, second: Seq<Line>)
    ensures
        page(base, first + second) == page(base, first) + page(base, second),
    decreases second.len(),
{
    if second.len() > 0 {
        lemma_page_concat(base, first, second.drop_last());
        assert((first + second).drop_last() =~= first + second.drop_last());
    }
}

/// Seeing lines from further up moves the indentation of the outer ancestors
/// from the base into the lines: the text stays the same.
pub proof fn lemma_page_under(base: Seq<char>, outer: Seq<bool>, lines: Seq<Line>)
    ensures
        page(base, under_all(outer, lines)) == page(base + indent(outer), lines),
    decreases lines.len(),
{
    if lines.len() > 0 {
        let line = lines.last();
        lemma_page_under(base, outer, lines.drop_last());
        assert(under_all(outer, lines).drop_last() =~= under_all(outer, lines.drop_last()));
        lemma_indent_concat(outer, line.trail());
    }
}

} // verus!
