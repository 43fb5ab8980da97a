//! What holds of every rendering: how many lines it has, where its
//! directories stop being listed, and that it depends on what the listings
//! hold and not on how they are arranged.

use crate::entry::EntryView;
use crate::line::Line;
use crate::render::{render_dir, render_siblings, report};
use crate::sorting::{in_order, lemma_in_order_of_rearranged};
use crate::text::{connector, indent, indent_unit, lemma_indent_units, lemma_pieces, newline};
use vstd::prelude::*;

verus! {

/// The number of entries that a rendering comes by: those of the listing of
/// `dir` and, level by level, those of the listings of the directories
/// among them, as far as the depth limit lets them be listed.
pub open spec fn visited(
    fs: Map<Seq<char>, Seq<EntryView>>,
    dir: Seq<char>,
    depth: nat,
    max_depth: nat,
) -> nat
    decreases max_depth + 1 - depth, 1nat, 0nat,
{
    if depth > max_depth || !fs.contains_key(dir) {
        0
    } else {
        visited_siblings(fs, in_order(fs[dir]), depth, max_depth)
    }
}

/// The number of entries that a rendering comes by from the entries `rest`
/// of one listing on: they themselves and what is below them.
pub open spec fn visited_siblings(
    fs: Map<Seq<char>, Seq<EntryView>>,
    rest: Seq<EntryView>,
    depth: nat,
    max_depth: nat,
) -> nat
    decreases max_depth + 1 - depth, 0nat, rest.len(),
{
    if rest.len() == 0 || depth > max_depth {
        0
    } else {
        let below = if rest[0].is_dir {
            visited(fs, rest[0].path, depth + 1, max_depth)
        } else {
            0
        };
        1 + below + visited_siblings(fs, rest.drop_first(), depth, max_depth)
    }
}

/// The lines of a rendering that are lines of entries.
pub open spec fn entry_lines(lines: Seq<Line>) -> Seq<Line> {
    lines.filter(|line: Line| line is Entry)
}

/// A rendering has one entry line for each entry that it comes by within
/// the depth limit; the notices do not count.
pub proof fn lemma_one_line_per_entry(
    fs: Map<Seq<char>, Seq<EntryView>>,
    dir: Seq<char>,
    trail: Seq<bool>,
    depth: nat,
    max_depth: nat,
)
    requires
        render_dir(fs, dir, trail, depth, max_depth) is Ok,
    ensures
        entry_lines(render_dir(fs, dir, trail, depth, max_depth)->Ok_0).len() == visited(
            fs,
            dir,
            depth,
            max_depth,
        ),
    decreases max_depth + 1 - depth, 1nat, 0nat,
{
    if depth > max_depth {
        reveal_with_fuel(Seq::filter, 2);
    } else {
        lemma_one_line_per_sibling(fs, in_order(fs[dir]), trail, depth, max_depth);
    }
}

/// As [`lemma_one_line_per_entry`], from some entry of a listing on.
pub proof fn lemma_one_line_per_sibling(
    fs: Map<Seq<char>, Seq<EntryView>>,
    rest: Seq<EntryView>,
    trail: Seq<bool>,
    depth: nat,
    max_depth: nat,
)
    requires
        render_siblings(fs, rest, trail, depth, max_depth) is Ok,
    ensures
        entry_lines(render_siblings(fs, rest, trail, depth, max_depth)->Ok_0).len()
            == visited_siblings(fs, rest, depth, max_depth),
    decreases max_depth + 1 - depth, 0nat, rest.len(),
{
    let is_entry = |line: Line| line is Entry;
    if rest.len() > 0 && depth <= max_depth {
        let last = rest.len() == 1;
        let own = Line::Entry { trail, last, name: rest[0].name };
        let inner = if rest[0].is_dir {
            lemma_one_line_per_entry(fs, rest[0].path, trail.push(last), depth + 1, max_depth);
            render_dir(fs, rest[0].path, trail.push(last), depth + 1, max_depth)->Ok_0
        } else {
            Seq::empty()
        };
        lemma_one_line_per_sibling(fs, rest.drop_first(), trail, depth, max_depth);
        let after = render_siblings(fs, rest.drop_first(), trail, depth, max_depth)->Ok_0;
        Seq::filter_distributes_over_add(seq![own], inner, is_entry);
        Seq::filter_distributes_over_add(seq![own] + inner, after, is_entry);
        assert(seq![own].filter(is_entry) =~= seq![own]) by {
            reveal_with_fuel(Seq::filter, 2);
        }
    }
}

/// The depth of the listing that a line belongs to, in a rendering that
/// started at depth `depth` with the ancestors `trail`: each further
/// ancestor is one level.
pub open spec fn nesting(line: Line, trail: Seq<bool>, depth: nat) -> int {
    depth + line.trail().len() - trail.len()
}

/// Beyond the depth limit nothing is listed: a single notice is the whole
/// rendering, whatever the directory holds and whether or not it can be
/// listed.
pub proof fn lemma_beyond_limit(
    fs: Map<Seq<char>, Seq<EntryView>>,
    dir: Seq<char>,
    trail: Seq<bool>,
    depth: nat,
    max_depth: nat,
)
    requires
        depth > max_depth,
    ensures
        render_dir(fs, dir, trail, depth, max_depth) == Ok::<Seq<Line>, Seq<char>>(
            seq![Line::Truncated { trail }],
        ),
{
}

/// The lines of a listing at the depth limit: each entry has its line, and
/// below each directory stands a notice in place of its contents.
pub open spec fn listed_at_limit(rest: Seq<EntryView>, trail: Seq<bool>) -> Seq<Line>
    decreases rest.len(),
{
    if rest.len() == 0 {
        Seq::empty()
    } else {
        let last = rest.len() == 1;
        let own = Line::Entry { trail, last, name: rest[0].name };
        let below = if rest[0].is_dir {
            seq![Line::Truncated { trail: trail.push(last) }]
        } else {
            Seq::empty()
        };
        seq![own] + below + listed_at_limit(rest.drop_first(), trail)
    }
}

/// At the depth limit a directory is still listed, and the directories
/// among its entries are not: what they hold, and whether they can be
/// listed, does not reach the rendering.
pub proof fn lemma_at_limit(
    fs: Map<Seq<char>, Seq<EntryView>>,
    dir: Seq<char>,
    trail: Seq<bool>,
    max_depth: nat,
)
    requires
        fs.contains_key(dir),
    ensures
        render_dir(fs, dir, trail, max_depth, max_depth) == Ok::<Seq<Line>, Seq<char>>(
            listed_at_limit(in_order(fs[dir]), trail),
        ),
{
    lemma_siblings_at_limit(fs, in_order(fs[dir]), trail, max_depth);
}

proof fn lemma_siblings_at_limit(
    fs: Map<Seq<char>, Seq<EntryView>>,
    rest: Seq<EntryView>,
    trail: Seq<bool>,
    max_depth: nat,
)
    ensures
        render_siblings(fs, rest, trail, max_depth, max_depth) == Ok::<Seq<Line>, Seq<char>>(
            listed_at_limit(rest, trail),
        ),
    decreases rest.len(),
{
    if rest.len() > 0 {
        lemma_siblings_at_limit(fs, rest.drop_first(), trail, max_depth);
        lemma_beyond_limit(fs, rest[0].path, trail.push(rest.len() == 1), max_depth + 1, max_depth);
    }
}

/// In a rendering that starts within the depth limit, every entry line
/// belongs to a listing within the limit, and every notice stands exactly
/// one level beyond it: nothing deeper is rendered. Each line carries the
/// ancestors that the rendering started with, and its own below them.
pub proof fn lemma_lines_within_limit(
    fs: Map<Seq<char>, Seq<EntryView>>,
    dir: Seq<char>,
    trail: Seq<bool>,
    depth: nat,
    max_depth: nat,
)
    requires
        depth <= max_depth,
        render_dir(fs, dir, trail, depth, max_depth) is Ok,
    ensures
        forall|k: int|
            #![trigger render_dir(fs, dir, trail, depth, max_depth)->Ok_0[k]]
            0 <= k < render_dir(fs, dir, trail, depth, max_depth)->Ok_0.len() ==> {
                let line = render_dir(fs, dir, trail, depth, max_depth)->Ok_0[k];
                &&& trail.is_prefix_of(line.trail())
                &&& line is Entry ==> depth <= nesting(line, trail, depth) <= max_depth
                &&& line is Truncated ==> nesting(line, trail, depth) == max_depth + 1
            },
    decreases max_depth + 1 - depth, 1nat, 0nat,
{
    lemma_sibling_lines_within_limit(fs, in_order(fs[dir]), trail, depth, max_depth);
}

proof fn lemma_sibling_lines_within_limit(
    fs: Map<Seq<char>, Seq<EntryView>>,
    rest: Seq<EntryView>,
    trail: Seq<bool>,
    depth: nat,
    max_depth: nat,
)
    requires
        depth <= max_depth,
        render_siblings(fs, rest, trail, depth, max_depth) is Ok,
    ensures
        forall|k: int|
            #![trigger render_siblings(fs, rest, trail, depth, max_depth)->Ok_0[k]]
            0 <= k < render_siblings(fs, rest, trail, depth, max_depth)->Ok_0.len() ==> {
                let line = render_siblings(fs, rest, trail, depth, max_depth)->Ok_0[k];
                &&& trail.is_prefix_of(line.trail())
                &&& line is Entry ==> depth <= nesting(line, trail, depth) <= max_depth
                &&& line is Truncated ==> nesting(line, trail, depth) == max_depth + 1
            },
    decreases max_depth + 1 - depth, 0nat, rest.len(),
{
    if rest.len() > 0 {
        let last = rest.len() == 1;
        if rest[0].is_dir && depth < max_depth {
            lemma_lines_within_limit(fs, rest[0].path, trail.push(last), depth + 1, max_depth);
        }
        lemma_sibling_lines_within_limit(fs, rest.drop_first(), trail, depth, max_depth);
        let lines = render_siblings(fs, rest, trail, depth, max_depth)->Ok_0;
        assert forall|k: int| 0 <= k < lines.len() implies {
            let line = #[trigger] lines[k];
            &&& trail.is_prefix_of(line.trail())
            &&& line is Entry ==> depth <= nesting(line, trail, depth) <= max_depth
            &&& line is Truncated ==> nesting(line, trail, depth) == max_depth + 1
        } by {}
    }
}

/// The lines that one entry of a listing takes: its own line and, if it is
/// a directory, the lines below it. `last` tells whether the entry is the
/// last of its listing.
pub open spec fn block(
    fs: Map<Seq<char>, Seq<EntryView>>,
    entry: EntryView,
    last: bool,
    trail: Seq<bool>,
    depth: nat,
    max_depth: nat,
) -> Result<Seq<Line>, Seq<char>> {
    let own = Line::Entry { trail, last, name: entry.name };
    if entry.is_dir {
        match render_dir(fs, entry.path, trail.push(last), depth + 1, max_depth) {
            Ok(inner) => Ok(seq![own] + inner),
            Err(path) => Err(path),
        }
    } else {
        Ok(seq![own])
    }
}

/// The number of lines that the first `count` of the entries `rest` take.
pub open spec fn lines_before(
    fs: Map<Seq<char>, Seq<EntryView>>,
    rest: Seq<EntryView>,
    trail: Seq<bool>,
    depth: nat,
    max_depth: nat,
    count: int,
) -> int
    decreases count,
{
    if count <= 0 || rest.len() == 0 {
        0
    } else {
        let first = match block(fs, rest[0], rest.len() == 1, trail, depth, max_depth) {
            Ok(lines) => lines.len() as int,
            Err(_) => 0,
        };
        first + lines_before(fs, rest.drop_first(), trail, depth, max_depth, count - 1)
    }
}

/// The rendering of a listing is made of the blocks of its entries, in
/// rendered order. The block of the entry at position `i` starts with the
/// line of that entry, which carries the corner if the entry is the last of
/// the listing and the tee if it is not. What is below the entry follows,
/// and every line of it has that entry among its ancestors: as the last of
/// its listing if it is, so that the lines are indented by a blank unit,
/// and by the unit with the rule if it is not.
pub proof fn lemma_blocks(
    fs: Map<Seq<char>, Seq<EntryView>>,
    rest: Seq<EntryView>,
    trail: Seq<bool>,
    depth: nat,
    max_depth: nat,
    i: int,
)
    requires
        depth <= max_depth,
        0 <= i < rest.len(),
        render_siblings(fs, rest, trail, depth, max_depth) is Ok,
    ensures
        ({
            let lines = render_siblings(fs, rest, trail, depth, max_depth)->Ok_0;
            let last = i == rest.len() - 1;
            let from = lines_before(fs, rest, trail, depth, max_depth, i);
            let to = lines_before(fs, rest, trail, depth, max_depth, i + 1);
            &&& block(fs, rest[i], last, trail, depth, max_depth) is Ok
            &&& 0 <= from < to <= lines.len()
            &&& lines.subrange(from, to) == block(fs, rest[i], last, trail, depth, max_depth)->Ok_0
            &&& lines[from] == Line::Entry { trail, last, name: rest[i].name }
            &&& forall|k: int|
                from < k < to ==> trail.push(last).is_prefix_of((#[trigger] lines[k]).trail())
            &&& last ==> to == lines.len()
        }),
    decreases i,
{
    if i == 0 {
        reveal_with_fuel(lines_before, 2);
        let last = rest.len() == 1;
        if rest[0].is_dir && depth < max_depth {
            lemma_lines_within_limit(fs, rest[0].path, trail.push(last), depth + 1, max_depth);
        }
    } else {
        lemma_blocks(fs, rest.drop_first(), trail, depth, max_depth, i - 1);
    }
}

/// In the rendering of a whole tree, the line of an entry at nesting level
/// `k` (the root is at level 0) has `k` groups of four columns in front of
/// the name: one indentation unit for each ancestor below the root, then
/// the connector. Each unit is the one that belongs to its ancestor.
pub proof fn lemma_columns(
    fs: Map<Seq<char>, Seq<EntryView>>,
    root: Seq<char>,
    max_depth: nat,
    k: int,
)
    requires
        render_dir(fs, root, Seq::empty(), 0, max_depth) is Ok,
        0 <= k < render_dir(fs, root, Seq::empty(), 0, max_depth)->Ok_0.len(),
        render_dir(fs, root, Seq::empty(), 0, max_depth)->Ok_0[k] is Entry,
    ensures
        ({
            let line = render_dir(fs, root, Seq::empty(), 0, max_depth)->Ok_0[k];
            let level = nesting(line, Seq::empty(), 0) + 1;
            let front = indent(line.trail()) + connector(line->last);
            &&& 1 <= level <= max_depth + 1
            &&& line.text(Seq::empty()) == front + line->name + newline()
            &&& front.len() == 4 * level
            &&& forall|j: int|
                0 <= j < level - 1 ==> #[trigger] front.subrange(4 * j, 4 * j + 4) == indent_unit(
                    line.trail()[j],
                )
            &&& front.subrange(4 * (level - 1), 4 * level) == connector(line->last)
        }),
{
    let top = Seq::<bool>::empty();
    let line = render_dir(fs, root, top, 0, max_depth)->Ok_0[k];
    let trail = line.trail();
    let front = indent(trail) + connector(line->last);
    lemma_lines_within_limit(fs, root, top, 0, max_depth);
    lemma_indent_units(trail);
    lemma_pieces();
    assert forall|j: int| 0 <= j < trail.len() implies #[trigger] front.subrange(
        4 * j,
        4 * j + 4,
    ) == indent_unit(trail[j]) by {
        assert(front.subrange(4 * j, 4 * j + 4) =~= indent(trail).subrange(4 * j, 4 * j + 4));
    }
}

/// Two file systems hold the same if they hold listings of the same
/// directories and each listing holds the same entries as often, in
/// whatever arrangement.
pub open spec fn same_contents(
    fs: Map<Seq<char>, Seq<EntryView>>,
    other: Map<Seq<char>, Seq<EntryView>>,
) -> bool {
    &&& forall|dir: Seq<char>| fs.contains_key(dir) <==> other.contains_key(dir)
    &&& forall|dir: Seq<char>| #[trigger]
        fs.contains_key(dir) ==> fs[dir].to_multiset() == other[dir].to_multiset()
}

/// The rendering does not depend on the order in which the listings came
/// in: file systems that hold the same are rendered alike.
pub proof fn lemma_arrangement_is_immaterial(
    fs: Map<Seq<char>, Seq<EntryView>>,
    other: Map<Seq<char>, Seq<EntryView>>,
    dir: Seq<char>,
    trail: Seq<bool>,
    depth: nat,
    max_depth: nat,
)
    requires
        same_contents(fs, other),
    ensures
        render_dir(fs, dir, trail, depth, max_depth) == render_dir(
            other,
            dir,
            trail,
            depth,
            max_depth,
        ),
    decreases max_depth + 1 - depth, 1nat, 0nat,
{
    if depth <= max_depth && fs.contains_key(dir) {
        lemma_in_order_of_rearranged(fs[dir], other[dir]);
        lemma_siblings_arrangement(fs, other, in_order(fs[dir]), trail, depth, max_depth);
    }
}

proof fn lemma_siblings_arrangement(
    fs: Map<Seq<char>, Seq<EntryView>>,
    other: Map<Seq<char>, Seq<EntryView>>,
    rest: Seq<EntryView>,
    trail: Seq<bool>,
    depth: nat,
    max_depth: nat,
)
    requires
        same_contents(fs, other),
    ensures
        render_siblings(fs, rest, trail, depth, max_depth) == render_siblings(
            other,
            rest,
            trail,
            depth,
            max_depth,
        ),
    decreases max_depth + 1 - depth, 0nat, rest.len(),
{
    if rest.len() > 0 && depth <= max_depth {
        if rest[0].is_dir {
            lemma_arrangement_is_immaterial(
                fs,
                other,
                rest[0].path,
                trail.push(rest.len() == 1),
                depth + 1,
                max_depth,
            );
        }
        lemma_siblings_arrangement(fs, other, rest.drop_first(), trail, depth, max_depth);
    }
}

/// Rendering the same tree again gives the same text, character for
/// character: the report is determined by what the file system holds, and so
/// by the contents alone where the arrangement of a listing has changed.
pub proof fn lemma_report_repeats(
    fs: Map<Seq<char>, Seq<EntryView>>,
    again: Map<Seq<char>, Seq<EntryView>>,
    root: Seq<char>,
    max_depth: nat,
)
    requires
        same_contents(fs, again),
    ensures
        report(fs, root, max_depth) == report(again, root, max_depth),
{
    lemma_arrangement_is_immaterial(fs, again, root, Seq::empty(), 0, max_depth);
}

} // verus!
