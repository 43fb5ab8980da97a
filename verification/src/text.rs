//! The fixed pieces of text that a rendered line is made of, and the
//! indentation that the ancestors of an entry contribute to its line.

use vstd::prelude::*;
use vstd::string::StringExecFns;

verus! {

/// The connector in front of the last entry of a listing.
pub open spec fn corner() -> Seq<char> {
    "└── "@
}

/// The connector in front of every entry of a listing but the last.
pub open spec fn tee() -> Seq<char> {
    "├── "@
}

/// The indentation below a last entry: nothing follows it, so no rule is drawn.
pub open spec fn blank() -> Seq<char> {
    "    "@
}

/// The indentation below an entry that has later siblings: a vertical rule
/// leads down to them.
pub open spec fn bar() -> Seq<char> {
    "│   "@
}

/// What stands in place of a directory's contents once the depth limit is passed.
pub open spec fn truncation_notice() -> Seq<char> {
    "[     *** Truncated. Use --depth to specify a larger depth]"@
}

/// The end of every line.
pub open spec fn newline() -> Seq<char> {
    "\n"@
}

/// The connector of an entry, by whether it is the last of its listing.
pub open spec fn connector(last: bool) -> Seq<char> {
    if last {
        corner()
    } else {
        tee()
    }
}

/// The four columns that one ancestor adds to the lines below it, by whether
/// that ancestor was the last of its listing.
pub open spec fn indent_unit(last: bool) -> Seq<char> {
    if last {
        blank()
    } else {
        bar()
    }
}

/// The indentation of a line whose ancestors, outermost first, were or were
/// not the last of their listings: one unit for each of them.
pub open spec fn indent(trail: Seq<bool>) -> Seq<char>
    decreases trail.len(),
{
    if trail.len() == 0 {
        Seq::empty()
    } else {
        indent(trail.drop_last()) + indent_unit(trail.last())
    }
}

/// The connector of an entry, by whether it is the last of its listing.
pub fn connector_str(last: bool) -> (s: &'static str)
    ensures
        s@ == connector(last),
{
    if last {
        "└── "
    } else {
        "├── "
    }
}

/// The indentation that an ancestor adds to the lines below it, by whether
/// it was the last of its listing.
pub fn indent_unit_str(last: bool) -> (s: &'static str)
    ensures
        s@ == indent_unit(last),
{
    if last {
        "    "
    } else {
        "│   "
    }
}

/// The notice that stands for the contents of a directory beyond the depth
/// limit.
pub fn truncation_notice_str() -> (s: &'static str)
    ensures
        s@ == truncation_notice(),
{
    "[     *** Truncated. Use --depth to specify a larger depth]"
}

/// The end of a line.
pub fn newline_str() -> (s: &'static str)
    ensures
        s@ == newline(),
{
    "\n"
}

/// The indentation of a line, from its ancestors.
pub fn indent_text(trail: &Vec<bool>) -> (text: String)
    ensures
        text@ == indent(trail@),
{
    let mut text = String::new();
    let mut i: usize = 0;
    while i < trail.len()
        invariant
            i <= trail.len(),
            text@ == indent(trail@.take(i as int)),
        decreases trail.len() - i,
    {
        text.append(indent_unit_str(trail[i]));
        proof {
            assert(trail@.take(i + 1).drop_last() =~= trail@.take(i as int));
        }
        i += 1;
    }
    proof {
        assert(trail@.take(i as int) =~= trail@);
    }
    text
}

/// Connectors and indentation units are four columns wide. The two
/// connectors differ, and so do the two units: a line shows the corner only
/// for the last entry of a listing, and the lines below an entry are
/// indented by the blank unit only if that entry was the last.
pub proof fn lemma_pieces()
    ensures
        corner() == seq!['└', '─', '─', ' '],
        tee() == seq!['├', '─', '─', ' '],
        blank() == seq![' ', ' ', ' ', ' '],
        bar() == seq!['│', ' ', ' ', ' '],
        newline() == seq!['\n'],
        forall|last: bool| #[trigger] connector(last).len() == 4,
        forall|last: bool| #[trigger] indent_unit(last).len() == 4,
        forall|last: bool| (#[trigger] connector(last) == corner()) <==> last,
        forall|last: bool| (#[trigger] connector(last) == tee()) <==> !last,
        forall|last: bool| (#[trigger] indent_unit(last) == blank()) <==> last,
        forall|last: bool| (#[trigger] indent_unit(last) == bar()) <==> !last,
{
    reveal_strlit("└── ");
    reveal_strlit("├── ");
    reveal_strlit("    ");
    reveal_strlit("│   ");
    reveal_strlit("\n");
}

/// The indentation of a trail that is made of two parts is the indentation of
/// the first followed by that of the second.
pub proof fn lemma_indent_concat(outer: Seq<bool>, inner: Seq<bool>)
    ensures
        indent(outer + inner) == indent(outer) + indent(inner),
    decreases inner.len(),
{
    if inner.len() > 0 {
        lemma_indent_concat(outer, inner.drop_last());
        assert((outer + inner).drop_last() =~= outer + inner.drop_last());
    }
}

/// One more ancestor adds its unit at the end of the indentation.
pub proof fn lemma_indent_push(trail: Seq<bool>, last: bool)
    ensures
        indent(trail.push(last)) == indent(trail) + indent_unit(last),
{
    assert(trail.push(last).drop_last() =~= trail);
}

/// The indentation is four columns wide for each ancestor, and the columns
/// that belong to the ancestor at a given level are that ancestor's unit.
pub proof fn lemma_indent_units(trail: Seq<bool>)
    ensures
        indent(trail).len() == 4 * trail.len(),
        forall|level: int|
            0 <= level < trail.len() ==> #[trigger] indent(trail).subrange(
                4 * level,
                4 * level + 4,
            ) == indent_unit(trail[level]),
    decreases trail.len(),
{
    lemma_pieces();
    if trail.len() > 0 {
        let front = trail.drop_last();
        lemma_indent_units(front);
        assert forall|level: int| 0 <= level < trail.len() implies #[trigger] indent(
            trail,
        ).subrange(4 * level, 4 * level + 4) == indent_unit(trail[level]) by {
            if level < front.len() {
                assert(indent(front).subrange(4 * level, 4 * level + 4) == indent_unit(
                    front[level],
                ));
            }
        }
    }
}

} // verus!
