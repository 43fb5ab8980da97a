//! Rendering a tree while it is being read: the walk asks for one listing
//! at a time, and whoever reads the file system hands it in.
//!
//! A directory that cannot be listed ends the walk. The text that was
//! rendered up to there is not handed out, so that no tree is taken for
//! complete that is not.

use crate::entry::{views, Entry, EntryView};
use crate::line::Line;
use crate::render::Unreadable;
use crate::sorting::{in_order, sort_entries};
use crate::text::{
    connector_str, indent, indent_text, indent_unit_str, lemma_indent_push, newline, newline_str,
    truncation_notice_str,
};
use vstd::prelude::*;
use vstd::string::StringExecFns;

verus! {

/// A listing that is being rendered, as contracts see it.
pub struct FrameView {
    /// The entries that are still to be rendered, in rendered order.
    pub rest: Seq<EntryView>,
    /// Of each ancestor of these entries below the root, outermost first,
    /// whether it was the last of its listing. As many as the listing lies
    /// deep.
    pub trail: Seq<bool>,
}

/// A directory whose listing a walk asks for.
pub struct Wanted {
    /// The path of the directory.
    pub path: Seq<char>,
    /// The ancestors of its entries, as in [`FrameView::trail`].
    pub trail: Seq<bool>,
}

/// A walk as contracts see it.
pub struct WalkView {
    /// The depth below which directories are not listed any more.
    pub max_depth: nat,
    /// The text that is rendered so far.
    pub text: Seq<char>,
    /// The listings that are being rendered, the outermost first: each but
    /// the last waits for the one after it to be done.
    pub frames: Seq<FrameView>,
    /// The directory whose listing the walk needs in order to go on.
    pub wanted: Option<Wanted>,
    /// The directory that could not be listed, if the walk has ended so.
    pub failed: Option<Seq<char>>,
}

/// A walk that has not read anything: the root line is rendered, and the
/// listing of the root is asked for.
pub open spec fn started(root: Seq<char>, max_depth: nat) -> WalkView {
    WalkView {
        max_depth,
        text: root + newline(),
        frames: Seq::empty(),
        wanted: Some(Wanted { path: root, trail: Seq::empty() }),
        failed: None,
    }
}

/// Renders the entries of one listing up to the first directory that has to
/// be listed: the listing as it is left, the text as it has grown, and that
/// directory, if there is one. A directory beyond the depth limit is not
/// listed; a notice stands below its line.
pub open spec fn drained(frame: FrameView, text: Seq<char>, max_depth: nat) -> (
    FrameView,
    Seq<char>,
    Option<Wanted>,
)
    decreases frame.rest.len(),
{
    if frame.rest.len() == 0 {
        (frame, text, None)
    } else {
        let entry = frame.rest[0];
        let last = frame.rest.len() == 1;
        let own = Line::Entry { trail: frame.trail, last, name: entry.name };
        let notice = Line::Truncated { trail: frame.trail.push(last) };
        let left = FrameView { rest: frame.rest.drop_first(), trail: frame.trail };
        if !entry.is_dir {
            drained(left, text + own.text(Seq::empty()), max_depth)
        } else if frame.trail.len() >= max_depth {
            drained(left, text + own.text(Seq::empty()) + notice.text(Seq::empty()), max_depth)
        } else {
            (
                left,
                text + own.text(Seq::empty()),
                Some(Wanted { path: entry.path, trail: frame.trail.push(last) }),
            )
        }
    }
}

/// Goes on with a walk that asks for nothing: the innermost listing is
/// rendered as far as it goes, then the one that waited for it, and so on,
/// until a directory has to be listed or nothing is left to render.
pub open spec fn resumed(walk: WalkView) -> WalkView
    decreases walk.frames.len(),
{
    if walk.frames.len() == 0 {
        walk
    } else {
        let (frame, text, wanted) = drained(walk.frames.last(), walk.text, walk.max_depth);
        if wanted is Some {
            WalkView { text, frames: walk.frames.drop_last().push(frame), wanted, ..walk }
        } else {
            resumed(WalkView { text, frames: walk.frames.drop_last(), ..walk })
        }
    }
}

/// The walk after the listing that it asked for has come in. The listing
/// may come in any arrangement. A walk that asks for nothing stays as it is.
pub open spec fn supplied(walk: WalkView, listing: Seq<EntryView>) -> WalkView {
    match walk.wanted {
        None => walk,
        Some(wanted) => resumed(
            WalkView {
                frames: walk.frames.push(
                    FrameView { rest: in_order(listing), trail: wanted.trail },
                ),
                wanted: None,
                ..walk
            },
        ),
    }
}

/// The walk after the directory that it asked for has turned out not to be
/// listable: it has ended. A walk that asks for nothing stays as it is.
pub open spec fn refused(walk: WalkView) -> WalkView {
    match walk.wanted {
        None => walk,
        Some(wanted) => WalkView { wanted: None, failed: Some(wanted.path), ..walk },
    }
}

/// What a walk is worth when it is left: its text, if it has rendered the
/// whole tree; else the directory that could not be listed, or that was
/// never handed in.
pub open spec fn result_of(walk: WalkView) -> Result<Seq<char>, Seq<char>> {
    match refused(walk).failed {
        Some(path) => Err(path),
        None => Ok(walk.text),
    }
}

/// A listing that is being rendered.
struct Frame {
    entries: Vec<Entry>,
    next: usize,
    trail: Vec<bool>,
}

impl Frame {
    spec fn view(&self) -> FrameView {
        FrameView { rest: views(self.entries@).skip(self.next as int), trail: self.trail@ }
    }

    #[verifier::type_invariant]
    spec fn wf(&self) -> bool {
        self.next <= self.entries.len()
    }
}

/// A directory that is asked for.
struct Request {
    path: String,
    trail: Vec<bool>,
}

impl Request {
    spec fn view(&self) -> Wanted {
        Wanted { path: self.path@, trail: self.trail@ }
    }
}

/// A walk through a tree, from the root line to the last line below it.
pub struct Walk {
    max_depth: usize,
    text: String,
    frames: Vec<Frame>,
    wanted: Option<Request>,
    failed: Option<String>,
}

/// A trail with one more ancestor.
fn extended(trail: &Vec<bool>, last: bool) -> (longer: Vec<bool>)
    ensures
        longer@ == trail@.push(last),
{
    let mut longer: Vec<bool> = Vec::new();
    let mut i: usize = 0;
    while i < trail.len()
        invariant
            i <= trail.len(),
            longer@ == trail@.take(i as int),
        decreases trail.len() - i,
    {
        longer.push(trail[i]);
        i += 1;
    }
    longer.push(last);
    longer
}

/// Renders the entries of a listing up to the first directory that has to
/// be listed.
fn drain(frame: &mut Frame, text: &mut String, max_depth: usize) -> (wanted: Option<Request>)
    ensures
        drained(old(frame).view(), old(text)@, max_depth as nat) == (
            final(frame).view(),
            final(text)@,
            match wanted {
                Some(request) => Some(request.view()),
                None => None,
            },
        ),
{
    proof {
        use_type_invariant(&*frame);
    }
    let prefix = indent_text(&frame.trail);
    let ghost goal = drained(frame.view(), text@, max_depth as nat);
    while frame.next < frame.entries.len()
        invariant
            frame.next <= frame.entries.len(),
            prefix@ == indent(frame.trail@),
            goal == drained(old(frame).view(), old(text)@, max_depth as nat),
            goal == drained(frame.view(), text@, max_depth as nat),
        decreases frame.entries.len() - frame.next,
    {
        let ghost before = frame.view();
        let ghost text_before = text@;
        let entry = &frame.entries[frame.next];
        let last = frame.next + 1 == frame.entries.len();
        let ghost own = Line::Entry { trail: frame.trail@, last, name: entry.name@ };
        let ghost notice = Line::Truncated { trail: frame.trail@.push(last) };
        text.append(prefix.as_str());
        text.append(connector_str(last));
        text.append(entry.name.as_str());
        text.append(newline_str());
        proof {
            assert(text@ =~= text_before + own.text(Seq::empty()));
        }
        let is_dir = entry.is_dir;
        if is_dir && frame.trail.len() >= max_depth {
            text.append(prefix.as_str());
            text.append(indent_unit_str(last));
            text.append(truncation_notice_str());
            text.append(newline_str());
            proof {
                lemma_indent_push(frame.trail@, last);
                assert(text@ =~= text_before + own.text(Seq::empty()) + notice.text(
                    Seq::empty(),
                ));
            }
        }
        let request = if is_dir && frame.trail.len() < max_depth {
            Some(Request { path: entry.path.clone(), trail: extended(&frame.trail, last) })
        } else {
            None
        };
        frame.next += 1;
        proof {
            assert(frame.view().rest =~= before.rest.drop_first());
        }
        if request.is_some() {
            return request;
        }
    }
    None
}

impl View for Walk {
    type V = WalkView;

    closed spec fn view(&self) -> WalkView {
        WalkView {
            max_depth: self.max_depth as nat,
            text: self.text@,
            frames: Seq::new(self.frames.len() as nat, |i: int| self.frames[i].view()),
            wanted: match self.wanted {
                Some(request) => Some(request.view()),
                None => None,
            },
            failed: match self.failed {
                Some(path) => Some(path@),
                None => None,
            },
        }
    }
}

impl Walk {
    /// Starts a walk through the tree below `root`.
    pub fn start(root: &str, max_depth: usize) -> (walk: Walk)
        ensures
            walk@ == started(root@, max_depth as nat),
    {
        let mut text = String::from_str(root);
        text.append(newline_str());
        let walk = Walk {
            max_depth,
            text,
            frames: Vec::new(),
            wanted: Some(Request { path: String::from_str(root), trail: Vec::new() }),
            failed: None,
        };
        proof {
            assert(walk@.frames =~= Seq::<FrameView>::empty());
        }
        walk
    }

    /// The directory whose listing the walk needs next; none once the walk
    /// has ended.
    pub fn wanted(&self) -> (path: Option<String>)
        ensures
            match path {
                Some(path) => self@.wanted is Some && path@ == self@.wanted->0.path,
                None => self@.wanted is None,
            },
    {
        match &self.wanted {
            Some(request) => Some(request.path.clone()),
            None => None,
        }
    }

    /// Goes on with a walk that asks for nothing.
    fn resume(&mut self)
        requires
            old(self).wanted is None,
        ensures
            final(self)@ == resumed(old(self)@),
    {
        loop
            invariant_except_break
                self.wanted is None,
                resumed(self@) == resumed(old(self)@),
            ensures
                self@ == resumed(old(self)@),
            decreases self.frames.len(),
        {
            let ghost before = self@;
            match self.frames.pop() {
                None => {
                    break ;
                },
                Some(mut frame) => {
                    let request = drain(&mut frame, &mut self.text, self.max_depth);
                    if request.is_some() {
                        self.frames.push(frame);
                        self.wanted = request;
                        proof {
                            assert(self@.frames =~= before.frames.drop_last().push(frame.view()));
                        }
                        break ;
                    }
                    proof {
                        assert(self@.frames =~= before.frames.drop_last());
                    }
                },
            }
        }
    }

    /// Hands in the listing that the walk asked for, in any arrangement.
    /// The walk renders as far as this listing lets it: to the next
    /// directory that has to be listed, or to the end. A walk that asks
    /// for nothing drops the listing.
    pub fn supply(&mut self, listing: Vec<Entry>)
        ensures
            final(self)@ == supplied(old(self)@, views(listing@)),
    {
        let ghost before = self@;
        match self.wanted.take() {
            None => {},
            Some(request) => {
                self.frames.push(
                    Frame { entries: sort_entries(listing), next: 0, trail: request.trail },
                );
                proof {
                    let frame = FrameView {
                        rest: in_order(views(listing@)),
                        trail: before.wanted->0.trail,
                    };
                    assert(self.frames@.last().view().rest =~= frame.rest);
                    assert(self@.frames =~= before.frames.push(frame));
                }
                self.resume();
            },
        }
    }

    /// Tells the walk that the directory that it asked for cannot be
    /// listed. This ends the walk.
    pub fn refuse(&mut self)
        ensures
            final(self)@ == refused(old(self)@),
    {
        match self.wanted.take() {
            None => {},
            Some(request) => {
                self.failed = Some(request.path);
            },
        }
    }

    /// Ends the walk: the rendered tree, or the directory for whose sake
    /// there is none.
    pub fn finish(self) -> (result: Result<String, Unreadable>)
        ensures
            match result_of(self@) {
                Ok(text) => result matches Ok(rendered) && rendered@ == text,
                Err(path) => result matches Err(failure) && failure.path@ == path,
            },
    {
        match self.wanted {
            Some(request) => Err(Unreadable { path: request.path }),
            None => match self.failed {
                Some(path) => Err(Unreadable { path }),
                None => Ok(self.text),
            },
        }
    }
}

} // verus!
