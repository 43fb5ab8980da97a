//! A walk that is handed what a file system holds renders what rendering a
//! snapshot of that file system does.
//!
//! Whoever drives a walk reads the file system between the steps, and these
//! laws say what each step owes: the text that the walk will end with, given
//! the file system, is the same before and after every step, it is the
//! report of the tree at the start, and it is what the walk hands out at the
//! end.

use crate::entry::{views, EntryView};
use crate::line::{lemma_page_concat, lemma_page_one, page, Line};
use crate::render::{render_dir, render_siblings, report, Unreadable};
use crate::snapshot::Snapshot;
use crate::sorting::{in_order, lemma_in_order_of_rearranged};
use crate::walk::{
    drained, refused, result_of, resumed, started, supplied, FrameView, Walk, WalkView,
};
use vstd::prelude::*;

verus! {

/// The text so far with more lines after it. A failure, on either side,
/// takes the place of the text; the earlier failure counts.
pub open spec fn followed_by(
    so_far: Result<Seq<char>, Seq<char>>,
    coming: Result<Seq<Line>, Seq<char>>,
) -> Result<Seq<char>, Seq<char>> {
    match so_far {
        Err(path) => Err(path),
        Ok(text) => match coming {
            Err(path) => Err(path),
            Ok(lines) => Ok(text + page(Seq::empty(), lines)),
        },
    }
}

/// The text so far with what the listings under way still give after it,
/// the innermost listing first.
pub open spec fn unwound(
    fs: Map<Seq<char>, Seq<EntryView>>,
    frames: Seq<FrameView>,
    max_depth: nat,
    so_far: Result<Seq<char>, Seq<char>>,
) -> Result<Seq<char>, Seq<char>>
    decreases frames.len(),
{
    if frames.len() == 0 {
        so_far
    } else {
        let top = frames.last();
        let coming = render_siblings(fs, top.rest, top.trail, top.trail.len(), max_depth);
        unwound(fs, frames.drop_last(), max_depth, followed_by(so_far, coming))
    }
}

/// What a walk ends with if from now on it is handed what `fs` holds: the
/// text so far, then what is below the directory that it asks for, then
/// what the listings under way still give.
pub open spec fn outcome(fs: Map<Seq<char>, Seq<EntryView>>, walk: WalkView) -> Result<
    Seq<char>,
    Seq<char>,
> {
    match walk.failed {
        Some(path) => Err(path),
        None => {
            let coming = match walk.wanted {
                Some(wanted) => render_dir(
                    fs,
                    wanted.path,
                    wanted.trail,
                    wanted.trail.len(),
                    walk.max_depth,
                ),
                None => Ok(Seq::empty()),
            };
            unwound(fs, walk.frames, walk.max_depth, followed_by(Ok(walk.text), coming))
        },
    }
}

/// Whether the listings under way all lie within the depth limit.
pub open spec fn within_limit(frames: Seq<FrameView>, max_depth: nat) -> bool {
    forall|i: int| 0 <= i < frames.len() ==> (#[trigger] frames[i]).trail.len() <= max_depth
}

/// What holds of a walk at every step: its listings lie within the depth
/// limit, and so does the directory that it asks for; once it has failed it
/// asks for nothing; and when it neither asks for anything nor has failed,
/// nothing is left to render.
pub open spec fn sound(walk: WalkView) -> bool {
    &&& within_limit(walk.frames, walk.max_depth)
    &&& walk.wanted matches Some(wanted) ==> wanted.trail.len() <= walk.max_depth
    &&& walk.failed is Some ==> walk.wanted is None
    &&& walk.wanted is None && walk.failed is None ==> walk.frames.len() == 0
}

/// Once the text so far is a failure, it stays that failure.
proof fn lemma_unwound_failure(
    fs: Map<Seq<char>, Seq<EntryView>>,
    frames: Seq<FrameView>,
    max_depth: nat,
    path: Seq<char>,
)
    ensures
        unwound(fs, frames, max_depth, Err(path)) == Err::<Seq<char>, Seq<char>>(path),
    decreases frames.len(),
{
    if frames.len() > 0 {
        lemma_unwound_failure(fs, frames.drop_last(), max_depth, path);
    }
}

/// Rendering the entries of a listing up to the next directory that has to
/// be listed leaves to come what was to come before.
proof fn lemma_drained(
    fs: Map<Seq<char>, Seq<EntryView>>,
    frame: FrameView,
    text: Seq<char>,
    max_depth: nat,
)
    requires
        frame.trail.len() <= max_depth,
    ensures
        ({
            let (left, grown, wanted) = drained(frame, text, max_depth);
            let below = match wanted {
                Some(wanted) => render_dir(
                    fs,
                    wanted.path,
                    wanted.trail,
                    wanted.trail.len(),
                    max_depth,
                ),
                None => Ok(Seq::empty()),
            };
            &&& left.trail == frame.trail
            &&& wanted is None ==> left.rest.len() == 0
            &&& wanted matches Some(wanted) ==> wanted.trail.len() <= max_depth
            &&& followed_by(
                Ok(text),
                render_siblings(fs, frame.rest, frame.trail, frame.trail.len(), max_depth),
            ) == followed_by(
                followed_by(Ok(grown), below),
                render_siblings(fs, left.rest, left.trail, left.trail.len(), max_depth),
            )
        }),
    decreases frame.rest.len(),
{
    let base = Seq::<char>::empty();
    let depth = frame.trail.len();
    if frame.rest.len() > 0 {
        let entry = frame.rest[0];
        let last = frame.rest.len() == 1;
        let own = Line::Entry { trail: frame.trail, last, name: entry.name };
        let notice = Line::Truncated { trail: frame.trail.push(last) };
        let left = FrameView { rest: frame.rest.drop_first(), trail: frame.trail };
        let after = render_siblings(fs, left.rest, frame.trail, depth, max_depth);
        let shown = text + own.text(base);
        lemma_page_one(base, own);
        lemma_page_one(base, notice);
        if !entry.is_dir {
            lemma_drained(fs, left, shown, max_depth);
            if let Ok(lines) = after {
                lemma_page_concat(base, seq![own] + Seq::empty(), lines);
                assert(text + (page(base, seq![own]) + page(base, lines)) =~= shown + page(
                    base,
                    lines,
                ));
            }
        } else if depth >= max_depth {
            lemma_drained(fs, left, shown + notice.text(base), max_depth);
            if let Ok(lines) = after {
                lemma_page_concat(base, seq![own], seq![notice]);
                lemma_page_concat(base, seq![own] + seq![notice], lines);
                assert(text + (page(base, seq![own]) + page(base, seq![notice]) + page(
                    base,
                    lines,
                )) =~= shown + notice.text(base) + page(base, lines));
            }
        } else {
            let below = render_dir(fs, entry.path, frame.trail.push(last), depth + 1, max_depth);
            if let Ok(inner) = below {
                if let Ok(lines) = after {
                    lemma_page_concat(base, seq![own], inner);
                    lemma_page_concat(base, seq![own] + inner, lines);
                    assert(text + (page(base, seq![own]) + page(base, inner) + page(base, lines))
                        =~= shown + page(base, inner) + page(base, lines));
                }
            }
        }
    }
}

/// Going on with a walk does not change what it ends with.
proof fn lemma_resumed(fs: Map<Seq<char>, Seq<EntryView>>, walk: WalkView)
    requires
        walk.wanted is None,
        walk.failed is None,
        within_limit(walk.frames, walk.max_depth),
    ensures
        outcome(fs, resumed(walk)) == outcome(fs, walk),
        sound(resumed(walk)),
        resumed(walk).failed is None,
    decreases walk.frames.len(),
{
    if walk.frames.len() > 0 {
        let top = walk.frames.last();
        let below = walk.frames.drop_last();
        let (frame, text, wanted) = drained(top, walk.text, walk.max_depth);
        lemma_drained(fs, top, walk.text, walk.max_depth);
        if wanted is Some {
            assert(resumed(walk).frames.drop_last() =~= below);
        } else {
            lemma_resumed(fs, WalkView { text, frames: below, ..walk });
        }
    }
}

/// The walk starts sound, and what it will end with is the report of the
/// tree below the root.
pub proof fn lemma_started(fs: Map<Seq<char>, Seq<EntryView>>, root: Seq<char>, max_depth: nat)
    ensures
        sound(started(root, max_depth)),
        outcome(fs, started(root, max_depth)) == report(fs, root, max_depth),
{
}

/// Handing in the listing that the walk asks for, as the file system holds
/// it and in whatever arrangement, leaves the walk sound and does not change
/// what it will end with.
pub proof fn lemma_supplied(
    fs: Map<Seq<char>, Seq<EntryView>>,
    walk: WalkView,
    listing: Seq<EntryView>,
)
    requires
        sound(walk),
        walk.wanted matches Some(wanted) && fs.contains_key(wanted.path)
            && listing.to_multiset() == fs[wanted.path].to_multiset(),
    ensures
        sound(supplied(walk, listing)),
        outcome(fs, supplied(walk, listing)) == outcome(fs, walk),
{
    let wanted = walk.wanted->0;
    let frame = FrameView { rest: in_order(listing), trail: wanted.trail };
    let entered = WalkView { frames: walk.frames.push(frame), wanted: None, ..walk };
    lemma_in_order_of_rearranged(listing, fs[wanted.path]);
    assert(entered.frames.drop_last() =~= walk.frames);
    lemma_resumed(fs, entered);
}

/// Where the file system has no listing for the directory that the walk
/// asks for, refusing leaves the walk sound and does not change what it
/// will end with: that directory.
pub proof fn lemma_refused(fs: Map<Seq<char>, Seq<EntryView>>, walk: WalkView)
    requires
        sound(walk),
        walk.wanted matches Some(wanted) && !fs.contains_key(wanted.path),
    ensures
        sound(refused(walk)),
        outcome(fs, refused(walk)) == outcome(fs, walk),
        outcome(fs, walk) == Err::<Seq<char>, Seq<char>>(walk.wanted->0.path),
{
    lemma_unwound_failure(fs, walk.frames, walk.max_depth, walk.wanted->0.path);
}

/// A sound walk that asks for nothing has ended, and hands out what it was
/// to end with all along.
pub proof fn lemma_ended(fs: Map<Seq<char>, Seq<EntryView>>, walk: WalkView)
    requires
        sound(walk),
        walk.wanted is None,
    ensures
        result_of(walk) == outcome(fs, walk),
{
}

/// The number of directories that have to be listed below `dir`, which
/// lies at depth `depth`, before all is rendered.
pub open spec fn owed(
    fs: Map<Seq<char>, Seq<EntryView>>,
    dir: Seq<char>,
    depth: nat,
    max_depth: nat,
) -> nat
    decreases max_depth + 1 - depth, 1nat, 0nat,
{
    if depth > max_depth || !fs.contains_key(dir) {
        0
    } else {
        owed_siblings(fs, in_order(fs[dir]), depth, max_depth)
    }
}

/// The number of directories that have to be listed for the entries `rest`
/// of a listing at depth `depth`: those among them that lie within the
/// depth limit, and those that have to be listed below these.
pub open spec fn owed_siblings(
    fs: Map<Seq<char>, Seq<EntryView>>,
    rest: Seq<EntryView>,
    depth: nat,
    max_depth: nat,
) -> nat
    decreases max_depth + 1 - depth, 0nat, rest.len(),
{
    if rest.len() == 0 || depth > max_depth {
        0
    } else {
        let first = if rest[0].is_dir && depth < max_depth {
            1 + owed(fs, rest[0].path, depth + 1, max_depth)
        } else {
            0
        };
        first + owed_siblings(fs, rest.drop_first(), depth, max_depth)
    }
}

/// The number of directories that have to be listed for the listings
/// under way.
pub open spec fn owed_frames(
    fs: Map<Seq<char>, Seq<EntryView>>,
    frames: Seq<FrameView>,
    max_depth: nat,
) -> nat
    decreases frames.len(),
{
    if frames.len() == 0 {
        0
    } else {
        let top = frames.last();
        owed_siblings(fs, top.rest, top.trail.len(), max_depth) + owed_frames(
            fs,
            frames.drop_last(),
            max_depth,
        )
    }
}

/// The number of listings that a walk can still ask for in a file system
/// `fs`: no walk asks for more, and one that meets no failure asks for as
/// many.
pub open spec fn steps_left(fs: Map<Seq<char>, Seq<EntryView>>, walk: WalkView) -> nat {
    let asked = match walk.wanted {
        Some(wanted) => 1 + owed(fs, wanted.path, wanted.trail.len(), walk.max_depth),
        None => 0,
    };
    asked + owed_frames(fs, walk.frames, walk.max_depth)
}

proof fn lemma_drained_owed(
    fs: Map<Seq<char>, Seq<EntryView>>,
    frame: FrameView,
    text: Seq<char>,
    max_depth: nat,
)
    requires
        frame.trail.len() <= max_depth,
    ensures
        ({
            let (left, grown, wanted) = drained(frame, text, max_depth);
            let asked = match wanted {
                Some(wanted) => 1 + owed(fs, wanted.path, wanted.trail.len(), max_depth),
                None => 0,
            };
            owed_siblings(fs, frame.rest, frame.trail.len(), max_depth) == asked + owed_siblings(
                fs,
                left.rest,
                left.trail.len(),
                max_depth,
            )
        }),
    decreases frame.rest.len(),
{
    if frame.rest.len() > 0 {
        let entry = frame.rest[0];
        let last = frame.rest.len() == 1;
        let own = Line::Entry { trail: frame.trail, last, name: entry.name };
        let notice = Line::Truncated { trail: frame.trail.push(last) };
        let left = FrameView { rest: frame.rest.drop_first(), trail: frame.trail };
        let base = Seq::<char>::empty();
        if !entry.is_dir {
            lemma_drained_owed(fs, left, text + own.text(base), max_depth);
        } else if frame.trail.len() >= max_depth {
            lemma_drained_owed(fs, left, text + own.text(base) + notice.text(base), max_depth);
        }
    }
}

proof fn lemma_resumed_owed(fs: Map<Seq<char>, Seq<EntryView>>, walk: WalkView)
    requires
        walk.wanted is None,
        within_limit(walk.frames, walk.max_depth),
    ensures
        steps_left(fs, resumed(walk)) == steps_left(fs, walk),
    decreases walk.frames.len(),
{
    if walk.frames.len() > 0 {
        let top = walk.frames.last();
        let below = walk.frames.drop_last();
        let (frame, text, wanted) = drained(top, walk.text, walk.max_depth);
        lemma_drained_owed(fs, top, walk.text, walk.max_depth);
        lemma_drained(fs, top, walk.text, walk.max_depth);
        if wanted is Some {
            assert(resumed(walk).frames.drop_last() =~= below);
        } else {
            lemma_resumed_owed(fs, WalkView { text, frames: below, ..walk });
        }
    }
}

/// A listing that is handed in brings the walk one step nearer to its end.
pub proof fn lemma_supplied_nearer(
    fs: Map<Seq<char>, Seq<EntryView>>,
    walk: WalkView,
    listing: Seq<EntryView>,
)
    requires
        sound(walk),
        walk.wanted matches Some(wanted) && fs.contains_key(wanted.path)
            && listing.to_multiset() == fs[wanted.path].to_multiset(),
    ensures
        steps_left(fs, supplied(walk, listing)) + 1 == steps_left(fs, walk),
{
    let wanted = walk.wanted->0;
    let frame = FrameView { rest: in_order(listing), trail: wanted.trail };
    let entered = WalkView { frames: walk.frames.push(frame), wanted: None, ..walk };
    lemma_in_order_of_rearranged(listing, fs[wanted.path]);
    assert(entered.frames.drop_last() =~= walk.frames);
    lemma_resumed_owed(fs, entered);
}

/// A refusal brings the walk nearer to its end, too: the walk asks for
/// nothing after it.
pub proof fn lemma_refused_nearer(fs: Map<Seq<char>, Seq<EntryView>>, walk: WalkView)
    requires
        walk.wanted is Some,
    ensures
        steps_left(fs, refused(walk)) < steps_left(fs, walk),
        refused(walk).wanted is None,
{
}

/// Renders the tree below `root` as [`render_tree`] does, by a walk through
/// the snapshot: the listings are rendered one after the other, however
/// deep the tree is.
///
/// [`render_tree`]: crate::render::render_tree
pub fn render_by_walk(fs: &Snapshot, root: &str, max_depth: usize) -> (result: Result<
    String,
    Unreadable,
>)
    ensures
        match report(fs@, root@, max_depth as nat) {
            Ok(text) => result matches Ok(rendered) && rendered@ == text,
            Err(path) => result matches Err(failure) && failure.path@ == path,
        },
{
    let mut walk = Walk::start(root, max_depth);
    proof {
        lemma_started(fs@, root@, max_depth as nat);
    }
    loop
        invariant
            sound(walk@),
            outcome(fs@, walk@) == report(fs@, root@, max_depth as nat),
        ensures
            walk@.wanted is None,
            sound(walk@),
            outcome(fs@, walk@) == report(fs@, root@, max_depth as nat),
        decreases steps_left(fs@, walk@),
    {
        let ghost before = walk@;
        let dir = match walk.wanted() {
            Some(dir) => dir,
            None => {
                break ;
            },
        };
        match fs.listing(dir.as_str()) {
            Some(listing) => {
                let listing = listing.clone();
                proof {
                    lemma_supplied(fs@, before, views(listing@));
                    lemma_supplied_nearer(fs@, before, views(listing@));
                }
                walk.supply(listing);
            },
            None => {
                proof {
                    lemma_refused(fs@, before);
                    lemma_refused_nearer(fs@, before);
                }
                walk.refuse();
            },
        }
    }
    proof {
        lemma_ended(fs@, walk@);
    }
    walk.finish()
}

} // verus!
