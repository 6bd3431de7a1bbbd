//! The shared state of a directory walk: directories found but not yet
//! handed out, directories waiting to be listed, and how many listings are
//! under way. Threads around it only run the steps decided here.
use vstd::prelude::*;
use std::collections::VecDeque;
use vstd::string::StringSliceAdditionalSpecFns;
use crate::location::{Location, PartView};
use crate::matcher::{last_name, name_is, Artifact};
use crate::registry::Builtin;

verus! {

/// What a walk yields: a directory, or a problem met at a path.
#[derive(Debug)]
pub enum WalkItem {
    Dir(Location),
    WalkError { path: Location, reason: String },
}

pub enum WalkItemView {
    Dir(Seq<PartView>),
    WalkError(Seq<PartView>, Seq<char>),
}

impl View for WalkItem {
    type V = WalkItemView;

    open spec fn view(&self) -> WalkItemView {
        match self {
            WalkItem::Dir(d) => WalkItemView::Dir(d@),
            WalkItem::WalkError { path, reason } => WalkItemView::WalkError(path@, reason@),
        }
    }
}

pub open spec fn item_views(items: Seq<WalkItem>) -> Seq<WalkItemView> {
    items.map_values(|i: WalkItem| i@)
}

/// What is known of one entry of a directory being listed.
#[derive(Debug)]
pub enum EntryProbe {
    /// The entry could not be read.
    Unreadable { reason: String },
    /// The entry's type could not be read.
    TypeUnknown { name: Vec<u8>, reason: String },
    /// The entry and whether it is a directory (symbolic links are not).
    Entry { name: Vec<u8>, is_dir: bool },
}

/// What listing `directory` contributes for one entry: a problem at the
/// directory when the entry is unreadable, a problem at the entry when its
/// type is unknown, the entry when it is a directory, nothing otherwise.
pub open spec fn entry_contribution(directory: Seq<PartView>, probe: EntryProbe) -> Seq<WalkItemView> {
    match probe {
        EntryProbe::Unreadable { reason } => seq![WalkItemView::WalkError(directory, reason@)],
        EntryProbe::TypeUnknown { name, reason } => seq![
            WalkItemView::WalkError(directory.push(PartView::Named(name@)), reason@),
        ],
        EntryProbe::Entry { name, is_dir } => if is_dir {
            seq![WalkItemView::Dir(directory.push(PartView::Named(name@)))]
        } else {
            Seq::empty()
        },
    }
}

/// Adds to `found` what one entry of `directory` contributes.
pub fn record_entry(found: &mut Vec<WalkItem>, directory: &Location, probe: EntryProbe)
    ensures
        item_views(final(found)@) == item_views(old(found)@) + entry_contribution(
            directory@,
            probe,
        ),
{
    let ghost before = found@;
    let ghost contribution = entry_contribution(directory@, probe);
    match probe {
        EntryProbe::Unreadable { reason } => {
            found.push(WalkItem::WalkError { path: directory.duplicate(), reason });
        },
        EntryProbe::TypeUnknown { name, reason } => {
            found.push(WalkItem::WalkError { path: directory.join(name.as_slice()), reason });
        },
        EntryProbe::Entry { name, is_dir } => {
            if is_dir {
                found.push(WalkItem::Dir(directory.join(name.as_slice())));
            }
        },
    }
    assert(item_views(found@) =~= item_views(before) + contribution);
}

/// What listing `directory` yields when it cannot be listed at all.
pub fn listing_failed(directory: &Location, reason: String) -> (r: Vec<WalkItem>)
    ensures
        item_views(r@) == seq![WalkItemView::WalkError(directory@, reason@)],
{
    let mut r: Vec<WalkItem> = Vec::new();
    let ghost why = reason@;
    r.push(WalkItem::WalkError { path: directory.duplicate(), reason });
    assert(item_views(r@) =~= seq![WalkItemView::WalkError(directory@, why)]);
    r
}

/// Version-control metadata directories are never walked into.
pub open spec fn is_git_dir(path: Seq<PartView>) -> bool {
    last_name(path) == Some(".git".spec_bytes())
}

pub fn is_git(path: &Location) -> (r: bool)
    ensures
        r == is_git_dir(path@),
{
    match path.file_name() {
        Some(name) => name_is(name, ".git"),
        None => false,
    }
}

/// What becomes of a directory the walk yields.
pub enum Route {
    /// A matcher claimed it: report it as an artifact and do not walk into it.
    Emit(Artifact),
    /// Walk into it.
    Expand(Location),
    /// Leave it alone.
    Prune,
}

/// A claimed directory is an artifact of its matcher; an unclaimed one is
/// walked into unless it is a `.git` directory.
pub fn route_directory(dir: Location, claimed: Option<Builtin>) -> (r: Route)
    ensures
        match claimed {
            Some(m) => r matches Route::Emit(a) && a.matcher_id@ == m.spec_id() && a.path@ == dir@,
            None => if is_git_dir(dir@) {
                r is Prune
            } else {
                r matches Route::Expand(d) && d@ == dir@
            },
        },
{
    match claimed {
        Some(m) => Route::Emit(Artifact { matcher_id: m.id(), path: dir }),
        None => {
            if is_git(&dir) {
                Route::Prune
            } else {
                Route::Expand(dir)
            }
        },
    }
}

/// The frontier: items found and not yet handed out (oldest first),
/// directories waiting to be listed (oldest first), how many listings are
/// under way, and whether the walk is over.
pub struct FrontierState {
    pub items: VecDeque<WalkItem>,
    pub work: VecDeque<Location>,
    pub active: usize,
    pub done: bool,
}

/// What the consumer of the walk does next.
pub enum NextStep {
    /// Take this item.
    Item(WalkItem),
    /// The walk is over.
    Finished,
    /// Wait for workers to produce more.
    Wait,
}

/// What a worker does next.
pub enum WorkerStep {
    /// Stop working.
    Exit,
    /// Wait for work.
    Wait,
    /// List this directory.
    Expand(Location),
}

pub open spec fn work_views(work: Seq<Location>) -> Seq<Seq<PartView>> {
    work.map_values(|l: Location| l@)
}

/// The same state, as far as the walk can tell.
pub open spec fn unchanged(a: FrontierState, b: FrontierState) -> bool {
    &&& a.items@ == b.items@
    &&& a.work@ == b.work@
    &&& a.active == b.active
    &&& a.done == b.done
}

/// The walk is over for good: marked done, with no item left, no
/// directory waiting and no listing under way. Every call keeps it so, and
/// the consumer is told the walk is finished from then on.
pub open spec fn walk_over(s: FrontierState) -> bool {
    &&& s.done
    &&& s.items@.len() == 0
    &&& s.work@.len() == 0
    &&& s.active == 0
}

impl FrontierState {
    /// A walk rooted at `root`: the root itself is the first item.
    pub fn new(root: Location) -> (r: FrontierState)
        ensures
            item_views(r.items@) == seq![WalkItemView::Dir(root@)],
            r.work@.len() == 0,
            r.active == 0,
            !r.done,
    {
        let ghost rv = root@;
        let mut items: VecDeque<WalkItem> = VecDeque::new();
        items.push_back(WalkItem::Dir(root));
        let r = FrontierState { items, work: VecDeque::new(), active: 0, done: false };
        assert(item_views(r.items@) =~= seq![WalkItemView::Dir(rv)]);
        r
    }

    /// The consumer's next step. An abort ends the walk at once; otherwise
    /// items are handed out oldest first, and the walk is over once no item
    /// is left, no directory waits and no listing is under way.
    pub fn next(&mut self, aborted: bool) -> (r: NextStep)
        ensures
            final(self).work@ == old(self).work@,
            final(self).active == old(self).active,
            aborted ==> r is Finished && final(self).done && final(self).items@ == old(self).items@,
            !aborted && old(self).items@.len() > 0 ==> (r matches NextStep::Item(i) && i
                == old(self).items@[0] && final(self).items@ == old(self).items@.drop_first()
                && final(self).done == old(self).done),
            !aborted && old(self).items@.len() == 0 && old(self).work@.len() == 0 && old(
                self,
            ).active == 0 ==> r is Finished && final(self).done && final(self).items@ == old(
                self,
            ).items@,
            !aborted && old(self).items@.len() == 0 && !(old(self).work@.len() == 0 && old(
                self,
            ).active == 0) ==> r is Wait && unchanged(*old(self), *final(self)),
            !aborted && r is Finished ==> walk_over(*final(self)),
            walk_over(*old(self)) ==> r is Finished && walk_over(*final(self)),
    {
        if aborted {
            self.done = true;
            return NextStep::Finished;
        }
        match self.items.pop_front() {
            Some(item) => {
                return NextStep::Item(item);
            },
            None => {},
        }
        if self.work.len() == 0 && self.active == 0 {
            self.done = true;
            return NextStep::Finished;
        }
        NextStep::Wait
    }

    /// Asks for `dir` to be listed. Ignored once the walk is over or aborted;
    /// the result tells whether it was queued.
    pub fn expand(&mut self, dir: Location, aborted: bool) -> (r: bool)
        ensures
            r == !(old(self).done || aborted),
            final(self).items@ == old(self).items@,
            final(self).active == old(self).active,
            final(self).done == old(self).done,
            r ==> work_views(final(self).work@) == work_views(old(self).work@).push(dir@),
            !r ==> final(self).work@ == old(self).work@,
            walk_over(*old(self)) ==> !r && walk_over(*final(self)),
    {
        if self.done || aborted {
            return false;
        }
        let ghost before = self.work@;
        let ghost dv = dir@;
        self.work.push_back(dir);
        assert(work_views(self.work@) =~= work_views(before).push(dv));
        true
    }

    /// A worker's next step: stop once the walk is over or aborted, take the
    /// oldest waiting directory when there is one, wait otherwise.
    pub fn claim_work(&mut self, aborted: bool) -> (r: WorkerStep)
        requires
            !(aborted || old(self).done) && old(self).work@.len() > 0 ==> old(self).active
                < usize::MAX,
        ensures
            final(self).items@ == old(self).items@,
            final(self).done == old(self).done,
            (aborted || old(self).done) ==> r is Exit && unchanged(*old(self), *final(self)),
            !(aborted || old(self).done) && old(self).work@.len() > 0 ==> (r matches WorkerStep::Expand(
                d,
            ) && d == old(self).work@[0] && final(self).work@ == old(self).work@.drop_first()
                && final(self).active == old(self).active + 1),
            !(aborted || old(self).done) && old(self).work@.len() == 0 ==> r is Wait && unchanged(*old(self), *final(self)),
            walk_over(*old(self)) ==> r is Exit && walk_over(*final(self)),
    {
        if aborted || self.done {
            return WorkerStep::Exit;
        }
        match self.work.pop_front() {
            Some(dir) => {
                self.active = self.active + 1;
                WorkerStep::Expand(dir)
            },
            None => WorkerStep::Wait,
        }
    }

    /// A listing is over: what it produced joins the items, in order. Only
    /// a listing under way can end, so an ended walk never gets items again.
    pub fn complete_work(&mut self, produced: Vec<WalkItem>)
        requires
            old(self).active > 0,
        ensures
            !walk_over(*old(self)),
            final(self).active == old(self).active - 1,
            final(self).items@ == old(self).items@ + produced@,
            final(self).work@ == old(self).work@,
            final(self).done == old(self).done,
    {
        self.active = self.active - 1;
        let ghost start = self.items@;
        let ghost all = produced@;
        let ghost work = self.work@;
        let ghost active = self.active;
        let ghost done = self.done;
        for item in it: produced
            invariant
                it.seq() == all,
                self.work@ == work,
                self.active == active,
                self.done == done,
                self.items@ == start + all.take(it.index() as int),
        {
            self.items.push_back(item);
            assert(all.take(it.index() + 1) =~= all.take(it.index() as int).push(item));
        }
        assert(all.take(all.len() as int) =~= all);
    }

    /// Ends the walk: workers stop and further expansions are ignored.
    pub fn shut_down(&mut self)
        ensures
            final(self).done,
            final(self).items@ == old(self).items@,
            final(self).work@ == old(self).work@,
            final(self).active == old(self).active,
            walk_over(*old(self)) ==> walk_over(*final(self)),
    {
        self.done = true;
    }
}

} // verus!
