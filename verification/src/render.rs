//! Rendering the directories of a snapshot as an indented tree.

use crate::entry::{views, EntryView};
use crate::line::{lemma_page_concat, lemma_page_one, lemma_page_under, page, under_all, Line};
use crate::snapshot::Snapshot;
use crate::sorting::{in_order, sort_entries};
use crate::text::{
    connector_str, indent_unit_str, lemma_indent_push, newline, newline_str,
    truncation_notice_str,
};
use vstd::prelude::*;
use vstd::string::StringExecFns;

verus! {

/// A directory that had to be listed for the rendering and could not be.
#[derive(Debug)]
pub struct Unreadable {
    /// The path of the directory.
    pub path: String,
}

/// The lines below a directory at nesting depth `depth` (the root is at 0),
/// or the path of the first directory on the way that cannot be listed.
///
/// Beyond `max_depth` a directory is not listed: one notice stands for its
/// contents. Up to `max_depth` its entries follow in rendered order, each
/// with what is below it.
pub open spec fn render_dir(
    fs: Map<Seq<char>, Seq<EntryView>>,
    dir: Seq<char>,
    trail: Seq<bool>,
    depth: nat,
    max_depth: nat,
) -> Result<Seq<Line>, Seq<char>>
    decreases max_depth + 1 - depth, 1nat, 0nat,
{
    if depth > max_depth {
        Ok(seq![Line::Truncated { trail }])
    } else if !fs.contains_key(dir) {
        Err(dir)
    } else {
        render_siblings(fs, in_order(fs[dir]), trail, depth, max_depth)
    }
}

/// The lines of the entries `rest`, the last ones of a listing at nesting
/// depth `depth`: for each entry its own line, then, if it is a directory,
/// the lines below it. The entry that nothing follows is the last of the
/// listing. The first directory that cannot be listed ends the rendering.
///
/// Listings lie within the depth limit; beyond it there are no lines.
pub open spec fn render_siblings(
    fs: Map<Seq<char>, Seq<EntryView>>,
    rest: Seq<EntryView>,
    trail: Seq<bool>,
    depth: nat,
    max_depth: nat,
) -> Result<Seq<Line>, Seq<char>>
    decreases max_depth + 1 - depth, 0nat, rest.len(),
{
    if rest.len() == 0 || depth > max_depth {
        Ok(Seq::empty())
    } else {
        let entry = rest[0];
        let last = rest.len() == 1;
        let own = Line::Entry { trail, last, name: entry.name };
        let below = if entry.is_dir {
            render_dir(fs, entry.path, trail.push(last), depth + 1, max_depth)
        } else {
            Ok(Seq::empty())
        };
        match below {
            Err(path) => Err(path),
            Ok(inner) => match render_siblings(fs, rest.drop_first(), trail, depth, max_depth) {
                Err(path) => Err(path),
                Ok(after) => Ok(seq![own] + inner + after),
            },
        }
    }
}

/// A rendering seen from further up, see [`Line::under`]; a failure stays
/// what it is.
pub open spec fn rendering_under(
    outer: Seq<bool>,
    rendering: Result<Seq<Line>, Seq<char>>,
) -> Result<Seq<Line>, Seq<char>> {
    match rendering {
        Ok(lines) => Ok(under_all(outer, lines)),
        Err(path) => Err(path),
    }
}

/// The ancestors above the directory that is rendered reach the lines
/// unchanged: they only stand in front of each line's own trail.
pub proof fn lemma_render_dir_under(
    fs: Map<Seq<char>, Seq<EntryView>>,
    dir: Seq<char>,
    outer: Seq<bool>,
    trail: Seq<bool>,
    depth: nat,
    max_depth: nat,
)
    ensures
        render_dir(fs, dir, outer + trail, depth, max_depth) == rendering_under(
            outer,
            render_dir(fs, dir, trail, depth, max_depth),
        ),
    decreases max_depth + 1 - depth, 1nat, 0nat,
{
    if depth > max_depth {
        assert(under_all(outer, seq![Line::Truncated { trail }]) =~= seq![
            Line::Truncated { trail: outer + trail },
        ]);
    } else if fs.contains_key(dir) {
        lemma_render_siblings_under(fs, in_order(fs[dir]), outer, trail, depth, max_depth);
    }
}

/// As [`lemma_render_dir_under`], for the entries of one listing.
pub proof fn lemma_render_siblings_under(
    fs: Map<Seq<char>, Seq<EntryView>>,
    rest: Seq<EntryView>,
    outer: Seq<bool>,
    trail: Seq<bool>,
    depth: nat,
    max_depth: nat,
)
    ensures
        render_siblings(fs, rest, outer + trail, depth, max_depth) == rendering_under(
            outer,
            render_siblings(fs, rest, trail, depth, max_depth),
        ),
    decreases max_depth + 1 - depth, 0nat, rest.len(),
{
    if rest.len() == 0 || depth > max_depth {
        assert(under_all(outer, Seq::<Line>::empty()) =~= Seq::<Line>::empty());
    } else {
        let entry = rest[0];
        let last = rest.len() == 1;
        let own = Line::Entry { trail, last, name: entry.name };
        if entry.is_dir {
            lemma_render_dir_under(fs, entry.path, outer, trail.push(last), depth + 1, max_depth);
        }
        lemma_render_siblings_under(fs, rest.drop_first(), outer, trail, depth, max_depth);
        let below = if entry.is_dir {
            render_dir(fs, entry.path, trail.push(last), depth + 1, max_depth)
        } else {
            Ok(Seq::empty())
        };
        if let Ok(inner) = below {
            if let Ok(after) = render_siblings(fs, rest.drop_first(), trail, depth, max_depth) {
                assert(under_all(outer, seq![own] + inner + after) =~= seq![own.under(outer)]
                    + under_all(outer, inner) + under_all(outer, after));
            }
        }
    }
}

/// What is rendered once `done` has been: `done`, followed by the lines
/// that are still to come; the failure, where what is to come fails.
spec fn continued(
    done: Seq<Line>,
    coming: Result<Seq<Line>, Seq<char>>,
) -> Result<Seq<Line>, Seq<char>> {
    match coming {
        Ok(lines) => Ok(done + lines),
        Err(path) => Err(path),
    }
}

/// Renders what is below the directory `dir` of the snapshot, which lies at
/// nesting depth `depth`: the text of the lines of [`render_dir`], each
/// behind `prefix`. Listing stops below `max_depth`.
///
/// A directory on the way that the snapshot holds no listing of ends the
/// rendering: the result is that directory, and no text.
pub fn generate_tree(
    fs: &Snapshot,
    dir: &str,
    prefix: &str,
    depth: usize,
    max_depth: usize,
) -> (result: Result<String, Unreadable>)
    ensures
        match render_dir(fs@, dir@, Seq::empty(), depth as nat, max_depth as nat) {
            Ok(lines) => result matches Ok(text) && text@ == page(prefix@, lines),
            Err(path) => result matches Err(failure) && failure.path@ == path,
        },
    decreases max_depth + 1 - depth,
{
    let ghost top = Seq::<bool>::empty();
    if depth > max_depth {
        let mut text = String::from_str(prefix);
        text.append(truncation_notice_str());
        text.append(newline_str());
        proof {
            let notice = Line::Truncated { trail: top };
            lemma_page_one(prefix@, notice);
        }
        return Ok(text);
    }
    let entries = match fs.listing(dir) {
        Some(listing) => sort_entries(listing.clone()),
        None => {
            return Err(Unreadable { path: dir.to_owned() });
        },
    };
    let ghost siblings = views(entries@);
    let ghost whole = render_siblings(fs@, siblings, top, depth as nat, max_depth as nat);
    let ghost mut done = Seq::<Line>::empty();
    let mut text = String::new();
    let mut i: usize = 0;
    proof {
        assert(siblings.skip(0) =~= siblings);
    }
    while i < entries.len()
        invariant
            i <= entries.len(),
            depth <= max_depth,
            siblings == views(entries@),
            top == Seq::<bool>::empty(),
            text@ == page(prefix@, done),
            whole == render_dir(fs@, dir@, top, depth as nat, max_depth as nat),
            whole == continued(
                done,
                render_siblings(fs@, siblings.skip(i as int), top, depth as nat, max_depth as nat),
            ),
        decreases entries.len() - i,
    {
        let entry = &entries[i];
        let last = i + 1 == entries.len();
        let ghost rest = siblings.skip(i as int);
        let ghost own = Line::Entry { trail: top, last, name: entry.name@ };
        let ghost text_before = text@;
        proof {
            assert(rest.drop_first() =~= siblings.skip(i + 1));
        }
        text.append(prefix);
        text.append(connector_str(last));
        text.append(entry.name.as_str());
        text.append(newline_str());
        proof {
            lemma_page_one(prefix@, own);
            lemma_page_concat(prefix@, done, seq![own]);
            assert(text@ =~= text_before + own.text(prefix@));
        }
        let ghost mut inner = Seq::<Line>::empty();
        if entry.is_dir {
            let mut child_prefix = String::from_str(prefix);
            child_prefix.append(indent_unit_str(last));
            proof {
                lemma_render_dir_under(
                    fs@,
                    entry.path@,
                    top.push(last),
                    top,
                    (depth + 1) as nat,
                    max_depth as nat,
                );
                lemma_indent_push(top, last);
            }
            if depth == max_depth {
                text.append(child_prefix.as_str());
                text.append(truncation_notice_str());
                text.append(newline_str());
                proof {
                    let notice = Line::Truncated { trail: top };
                    inner = seq![Line::Truncated { trail: top.push(last) }];
                    lemma_page_under(prefix@, top.push(last), seq![notice]);
                    lemma_page_one(child_prefix@, notice);
                }
            } else {
                match generate_tree(
                    fs,
                    entry.path.as_str(),
                    child_prefix.as_str(),
                    depth + 1,
                    max_depth,
                ) {
                    Err(failure) => {
                        return Err(failure);
                    },
                    Ok(below) => {
                        text.append(below.as_str());
                        proof {
                            let seen_from_child = render_dir(
                                fs@,
                                entry.path@,
                                top,
                                (depth + 1) as nat,
                                max_depth as nat,
                            )->Ok_0;
                            inner = under_all(top.push(last), seen_from_child);
                            lemma_page_under(prefix@, top.push(last), seen_from_child);
                        }
                    },
                }
            }
        }
        proof {
            let after = render_siblings(
                fs@,
                rest.drop_first(),
                top,
                depth as nat,
                max_depth as nat,
            );
            lemma_page_concat(prefix@, done + seq![own], inner);
            if let Ok(lines) = after {
                assert(done + (seq![own] + inner + lines) =~= (done + seq![own] + inner) + lines);
            }
            done = done + seq![own] + inner;
        }
        i += 1;
    }
    Ok(text)
}

/// The whole rendering of the tree below `root`: the root line, which is the
/// path as it was given, and then the lines below the root, which start at
/// the left margin; or the path of the first directory that cannot be listed.
pub open spec fn report(
    fs: Map<Seq<char>, Seq<EntryView>>,
    root: Seq<char>,
    max_depth: nat,
) -> Result<Seq<char>, Seq<char>> {
    match render_dir(fs, root, Seq::empty(), 0, max_depth) {
        Ok(lines) => Ok(root + newline() + page(Seq::empty(), lines)),
        Err(path) => Err(path),
    }
}

/// Renders the tree below `root`, root line first. Where a directory that
/// has to be listed cannot be, nothing is rendered: a tree that is not
/// complete is never handed out.
pub fn render_tree(fs: &Snapshot, root: &str, max_depth: usize) -> (result: Result<
    String,
    Unreadable,
>)
    ensures
        match report(fs@, root@, max_depth as nat) {
            Ok(text) => result matches Ok(rendered) && rendered@ == text,
            Err(path) => result matches Err(failure) && failure.path@ == path,
        },
{
    match generate_tree(fs, root, "", 0, max_depth) {
        Err(failure) => Err(failure),
        Ok(below) => {
            let mut text = String::from_str(root);
            text.append(newline_str());
            text.append(below.as_str());
            proof {
                reveal_strlit("");
                assert(""@ =~= Seq::<char>::empty());
            }
            Ok(text)
        },
    }
}

} // verus!
