//! A parallel directory walk's shared pool: directories waiting to be
//! listed (taken last in, first out) and how many listings are under way.
use vstd::prelude::*;
use crate::engine::frontier::{work_views, EntryProbe};
use crate::location::{Location, PartView};

verus! {

pub struct WalkPool {
    pub pending: Vec<Location>,
    pub expanding: usize,
}

/// What a walking thread does next.
pub enum TakeStep {
    /// List this directory.
    Dir(Location),
    /// Wait for the listings under way.
    Wait,
    /// Nothing is left to list and nothing is being listed: stop.
    Finished,
}

/// What one entry of a listed directory calls for.
pub enum EntryAction {
    /// Report a problem at this path.
    Error { path: Location, reason: String },
    /// Offer this subdirectory to the visitor.
    Visit(Location),
    /// Nothing.
    Skip,
}

/// How a take changes the pool.
pub open spec fn took(before: WalkPool, after: WalkPool, step: TakeStep) -> bool {
    if before.pending@.len() == 0 {
        &&& after.pending@ == before.pending@
        &&& after.expanding == before.expanding
        &&& if before.expanding > 0 { step is Wait } else { step is Finished }
    } else {
        &&& step matches TakeStep::Dir(d) && d == before.pending@.last()
        &&& after.pending@ == before.pending@.drop_last()
        &&& after.expanding == before.expanding + 1
    }
}

/// Waiting threads are woken when the pool was empty before a refill or
/// the walk is over after it.
pub open spec fn wake_needed(before: WalkPool, after: WalkPool) -> bool {
    before.pending@.len() == 0 || (after.pending@.len() == 0 && after.expanding == 0)
}

impl WalkPool {
    pub fn rooted_at(root: &Location) -> (r: WalkPool)
        ensures
            work_views(r.pending@) == seq![root@],
            r.expanding == 0,
    {
        let mut pending: Vec<Location> = Vec::new();
        pending.push(root.duplicate());
        let r = WalkPool { pending, expanding: 0 };
        assert(work_views(r.pending@) =~= seq![root@]);
        r
    }

    /// A thread's next step: wait while nothing is pending but listings are
    /// under way; otherwise take the most recently added directory, or stop
    /// when none is left.
    pub fn take(&mut self) -> (r: TakeStep)
        requires
            old(self).pending@.len() > 0 ==> old(self).expanding < usize::MAX,
        ensures
            took(*old(self), *final(self), r),
    {
        if self.pending.len() == 0 {
            if self.expanding > 0 {
                return TakeStep::Wait;
            }
            return TakeStep::Finished;
        }
        let dir = self.pending.pop().unwrap();
        self.expanding = self.expanding + 1;
        TakeStep::Dir(dir)
    }

    /// A listing is over and `accepted` holds the subdirectories it kept;
    /// they join the pool. The result tells whether waiting threads should
    /// be woken: the pool was empty before, or the walk is now over.
    pub fn replenish(&mut self, accepted: &mut Vec<Location>) -> (r: bool)
        requires
            old(self).expanding > 0,
        ensures
            final(self).pending@ == old(self).pending@ + old(accepted)@,
            final(accepted)@.len() == 0,
            final(self).expanding == old(self).expanding - 1,
            r == wake_needed(*old(self), *final(self)),
    {
        let may_have_waiters = self.pending.len() == 0;
        self.pending.append(accepted);
        self.expanding = self.expanding - 1;
        let walk_finished = self.pending.len() == 0 && self.expanding == 0;
        may_have_waiters || walk_finished
    }
}

/// The pool hands out the most recently added directory first: once a
/// listing's kept subdirectories have joined the pool, the next take hands
/// out the last of them and leaves the rest, one more listing being under
/// way.
pub proof fn lemma_last_kept_taken_first(
    before: Seq<Location>,
    accepted: Seq<Location>,
    pool: WalkPool,
    after: WalkPool,
    step: TakeStep,
)
    requires
        pool.pending@ == before + accepted,
        accepted.len() > 0,
        took(pool, after, step),
    ensures
        step matches TakeStep::Dir(d) && d == accepted.last(),
        after.pending@ == before + accepted.drop_last(),
        after.expanding == pool.expanding + 1,
{
    assert((before + accepted).drop_last() =~= before + accepted.drop_last());
}

/// The action for one entry of `directory`: a problem at the directory when
/// the entry is unreadable, at the entry when its type is unknown; a visit
/// when the entry is a directory; nothing otherwise.
pub fn classify_entry(directory: &Location, probe: EntryProbe) -> (r: EntryAction)
    ensures
        match probe {
            EntryProbe::Unreadable { reason } => r matches EntryAction::Error { path, reason: why }
                && path@ == directory@ && why == reason,
            EntryProbe::TypeUnknown { name, reason } => r matches EntryAction::Error {
                path,
                reason: why,
            } && path@ == directory@.push(PartView::Named(name@)) && why == reason,
            EntryProbe::Entry { name, is_dir } => if is_dir {
                r matches EntryAction::Visit(p) && p@ == directory@.push(PartView::Named(name@))
            } else {
                r is Skip
            },
        },
{
    match probe {
        EntryProbe::Unreadable { reason } => EntryAction::Error {
            path: directory.duplicate(),
            reason,
        },
        EntryProbe::TypeUnknown { name, reason } => EntryAction::Error {
            path: directory.join(name.as_slice()),
            reason,
        },
        EntryProbe::Entry { name, is_dir } => {
            if is_dir {
                EntryAction::Visit(directory.join(name.as_slice()))
            } else {
                EntryAction::Skip
            }
        },
    }
}

/// What listing `directory` calls for when the directory cannot be read at
/// all: one problem, at the directory itself, and no entry is looked at.
pub fn listing_unreadable(directory: &Location, reason: String) -> (r: EntryAction)
    ensures
        r matches EntryAction::Error { path, reason: why } && path@ == directory@ && why == reason,
{
    EntryAction::Error { path: directory.duplicate(), reason }
}

/// The subdirectories kept so far, after the visitor answered `kept` on an
/// entry's action: a visited subdirectory it kept is added last; nothing
/// else changes them.
pub open spec fn kept_after(accepted: Seq<Location>, action: EntryAction, kept: bool) -> Seq<Location> {
    match action {
        EntryAction::Visit(candidate) => if kept {
            accepted.push(candidate)
        } else {
            accepted
        },
        _ => accepted,
    }
}

/// Takes in the visitor's answer on one entry of a listing.
pub fn keep_visit(accepted: &mut Vec<Location>, action: EntryAction, kept: bool)
    ensures
        final(accepted)@ == kept_after(old(accepted)@, action, kept),
{
    match action {
        EntryAction::Visit(candidate) => {
            if kept {
                accepted.push(candidate);
            }
        },
        _ => {},
    }
}

/// The subdirectories a whole listing keeps: those of its actions that are
/// visits the visitor kept, in listing order.
pub open spec fn kept_visits(actions: Seq<EntryAction>, answers: Seq<bool>) -> Seq<Location>
    decreases actions.len(),
{
    if actions.len() == 0 || answers.len() == 0 {
        Seq::empty()
    } else {
        kept_after(
            kept_visits(actions.drop_last(), answers.drop_last()),
            actions.last(),
            answers.last(),
        )
    }
}

/// Over a whole listing, `keep_visit` leaves what `accepted` held followed
/// by exactly the visited subdirectories the visitor kept, in listing
/// order: taking in the answer on entry `n - 1` turns the result for the
/// first `n - 1` entries into the result for the first `n`.
pub proof fn lemma_listing_keeps_visits(
    accepted: Seq<Location>,
    actions: Seq<EntryAction>,
    answers: Seq<bool>,
    n: int,
)
    requires
        actions.len() == answers.len(),
        0 < n <= actions.len(),
    ensures
        kept_after(
            accepted + kept_visits(actions.take(n - 1), answers.take(n - 1)),
            actions[n - 1],
            answers[n - 1],
        ) == accepted + kept_visits(actions.take(n), answers.take(n)),
{
    let a = actions.take(n);
    let b = answers.take(n);
    assert(a.drop_last() =~= actions.take(n - 1));
    assert(b.drop_last() =~= answers.take(n - 1));
    let prior = kept_visits(actions.take(n - 1), answers.take(n - 1));
    match actions[n - 1] {
        EntryAction::Visit(c) => if answers[n - 1] {
            assert(accepted + prior.push(c) =~= (accepted + prior).push(c));
        },
        _ => {},
    }
}

} // verus!
