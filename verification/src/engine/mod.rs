//! The scan pipeline's decisions: what the scan reports, how an artifact's
//! size is tallied, and how an artifact is deleted.
pub mod frontier;
pub mod risk;

use vstd::prelude::*;
use crate::ui::format::Timestamp;
use crate::location::{Location, PartView};
use crate::matcher::Artifact;
use crate::registry::{first_with_id, lemma_first_with_id, matcher_for, registered, registry_order, Builtin};
use crate::text::{chars_of, same_chars};

verus! {

/// What a scan reports, in order: each artifact as it is found, its size
/// once tallied, problems met while walking, and a final `Done`.
#[derive(Debug)]
pub enum ScanEvent {
    Found { artifact: Artifact },
    Sized { artifact: Artifact, bytes: u64, last_modified: Option<Timestamp> },
    WalkError { path: Location, reason: String },
    Done,
}

/// A problem met while tallying an artifact.
#[derive(Debug)]
pub struct SizeError {
    pub path: Location,
    pub reason: String,
}

impl SizeError {
    pub open spec fn view(&self) -> (Seq<PartView>, Seq<char>) {
        (self.path@, self.reason@)
    }
}

pub open spec fn error_views(errors: Seq<SizeError>) -> Seq<(Seq<PartView>, Seq<char>)> {
    errors.map_values(|e: SizeError| e.view())
}

/// The later of two modification times, an unknown one counting as earliest.
pub open spec fn later(a: Option<Timestamp>, b: Option<Timestamp>) -> Option<Timestamp> {
    match (a, b) {
        (None, _) => b,
        (_, None) => a,
        (Some(x), Some(y)) => Some(if x >= y { x } else { y }),
    }
}

/// The tally of an artifact: total bytes of its regular files, the newest
/// modification time among them, and the problems met.
#[derive(Debug)]
pub struct SizeReport {
    pub bytes: u64,
    pub last_modified: Option<Timestamp>,
    pub errors: Vec<SizeError>,
}

impl SizeReport {
    pub fn new() -> (r: SizeReport)
        ensures
            r.bytes == 0,
            r.last_modified is None,
            r.errors@.len() == 0,
    {
        SizeReport { bytes: 0, last_modified: None, errors: Vec::new() }
    }

    /// Counts one regular file of `len` bytes, modified at `modified`.
    pub fn add_file(&mut self, len: u64, modified: Option<Timestamp>)
        requires
            old(self).bytes + len <= u64::MAX,
        ensures
            final(self).bytes == old(self).bytes + len,
            final(self).last_modified == later(old(self).last_modified, modified),
            final(self).errors@ == old(self).errors@,
    {
        self.bytes = self.bytes + len;
        self.last_modified = match (self.last_modified, modified) {
            (None, _) => modified,
            (Some(x), None) => Some(x),
            (Some(x), Some(y)) => Some(if x >= y { x } else { y }),
        };
    }

    /// Notes a problem at `path`.
    pub fn record(&mut self, path: &Location, reason: String)
        ensures
            final(self).bytes == old(self).bytes,
            final(self).last_modified == old(self).last_modified,
            error_views(final(self).errors@) == error_views(old(self).errors@).push(
                (path@, reason@),
            ),
    {
        let ghost before = self.errors@;
        let ghost r = reason@;
        self.errors.push(SizeError { path: path.duplicate(), reason });
        assert(error_views(self.errors@) =~= error_views(before).push((path@, r)));
    }
}

/// What is known of one entry of a directory being tallied.
#[derive(Debug)]
pub enum SizeProbe {
    /// The entry could not be read.
    Unreadable { reason: String },
    /// The entry's type could not be read.
    TypeUnknown { name: Vec<u8>, reason: String },
    /// A symbolic link, never followed.
    Symlink,
    /// A directory.
    Directory { name: Vec<u8> },
    /// Any other entry, with its length and modification time.
    File { name: Vec<u8>, len: u64, modified: Option<Timestamp> },
    /// Any other entry whose metadata could not be read.
    FileUnreadable { name: Vec<u8>, reason: String },
}

/// The tally of one artifact in progress: directories still to list, and
/// the report so far. Directories are listed last in, first out.
pub struct Sizing {
    pub pending: Vec<Location>,
    pub report: SizeReport,
}

pub open spec fn location_views(v: Seq<Location>) -> Seq<Seq<PartView>> {
    v.map_values(|l: Location| l@)
}

/// Only the errors changed, by one more at `path` for `reason`.
pub open spec fn noted(before: Sizing, after: Sizing, path: Seq<PartView>, reason: Seq<char>) -> bool {
    &&& after.pending@ == before.pending@
    &&& after.report.bytes == before.report.bytes
    &&& after.report.last_modified == before.report.last_modified
    &&& error_views(after.report.errors@) == error_views(before.report.errors@).push((path, reason))
}

/// How taking in `probe`, an entry of `directory`, changes a tally.
pub open spec fn absorbed(before: Sizing, after: Sizing, directory: Seq<PartView>, probe: SizeProbe) -> bool {
    match probe {
        SizeProbe::Unreadable { reason } => noted(before, after, directory, reason@),
        SizeProbe::TypeUnknown { name, reason } => noted(
            before,
            after,
            directory.push(PartView::Named(name@)),
            reason@,
        ),
        SizeProbe::Symlink => after.pending@ == before.pending@ && after.report == before.report,
        SizeProbe::Directory { name } => location_views(after.pending@) == location_views(
            before.pending@,
        ).push(directory.push(PartView::Named(name@))) && after.report == before.report,
        SizeProbe::File { len, modified, .. } => {
            &&& after.pending@ == before.pending@
            &&& after.report.bytes == before.report.bytes + len
            &&& after.report.last_modified == later(before.report.last_modified, modified)
            &&& after.report.errors@ == before.report.errors@
        },
        SizeProbe::FileUnreadable { name, reason } => noted(
            before,
            after,
            directory.push(PartView::Named(name@)),
            reason@,
        ),
    }
}

impl Sizing {
    /// Starts tallying the artifact at `path`.
    pub fn start(path: &Location) -> (r: Sizing)
        ensures
            location_views(r.pending@) == seq![path@],
            r.report.bytes == 0,
            r.report.last_modified is None,
            r.report.errors@.len() == 0,
    {
        let mut pending: Vec<Location> = Vec::new();
        pending.push(path.duplicate());
        let r = Sizing { pending, report: SizeReport::new() };
        assert(location_views(r.pending@) =~= seq![path@]);
        r
    }

    /// The next directory to list, taken from the pending ones.
    pub fn next_directory(&mut self) -> (r: Option<Location>)
        ensures
            match r {
                Some(d) => old(self).pending@.len() > 0 && d@ == old(self).pending@.last()@
                    && final(self).pending@ == old(self).pending@.drop_last(),
                None => old(self).pending@.len() == 0 && final(self).pending@ == old(self).pending@,
            },
            final(self).report == old(self).report,
    {
        self.pending.pop()
    }

    /// `directory` could not be listed.
    pub fn unreadable(&mut self, directory: &Location, reason: String)
        ensures
            final(self).pending@ == old(self).pending@,
            final(self).report.bytes == old(self).report.bytes,
            final(self).report.last_modified == old(self).report.last_modified,
            error_views(final(self).report.errors@) == error_views(old(self).report.errors@).push(
                (directory@, reason@),
            ),
    {
        self.report.record(directory, reason);
    }

    /// Whether absorbing `probe` keeps the byte count in range.
    pub open spec fn fits(&self, probe: SizeProbe) -> bool {
        probe matches SizeProbe::File { len, .. } ==> self.report.bytes + len <= u64::MAX
    }

    /// Takes in one entry of `directory`: problems are noted (at the
    /// directory when the entry itself is unreadable, at the entry
    /// otherwise), symbolic links skipped, subdirectories queued and other
    /// entries counted.
    pub fn absorb(&mut self, directory: &Location, probe: SizeProbe)
        requires
            old(self).fits(probe),
        ensures
            absorbed(*old(self), *final(self), directory@, probe),
    {
        match probe {
            SizeProbe::Unreadable { reason } => self.report.record(directory, reason),
            SizeProbe::TypeUnknown { name, reason } => {
                let path = directory.join(name.as_slice());
                self.report.record(&path, reason);
            },
            SizeProbe::Symlink => {},
            SizeProbe::Directory { name } => {
                let ghost before = self.pending@;
                let path = directory.join(name.as_slice());
                self.pending.push(path);
                assert(location_views(self.pending@) =~= location_views(before).push(
                    directory@.push(PartView::Named(name@)),
                ));
            },
            SizeProbe::File { len, modified, .. } => self.report.add_file(len, modified),
            SizeProbe::FileUnreadable { name, reason } => {
                let path = directory.join(name.as_slice());
                self.report.record(&path, reason);
            },
        }
    }

    pub fn finish(self) -> (r: SizeReport)
        ensures
            r == self.report,
    {
        self.report
    }
}

/// The events that report a tallied artifact: one walk error per problem,
/// in the order met, then the size.
pub fn sizing_events(artifact: Artifact, report: &SizeReport) -> (r: Vec<ScanEvent>)
    ensures
        r@.len() == report.errors@.len() + 1,
        forall|i: int|
            0 <= i < report.errors@.len() ==> (#[trigger] r@[i] matches ScanEvent::WalkError {
                path,
                reason,
            } && path@ == report.errors@[i].path@ && reason@ == report.errors@[i].reason@),
        r@.last() matches ScanEvent::Sized { artifact: a, bytes, last_modified } && a.matcher_id
            == artifact.matcher_id && a.path@ == artifact.path@ && bytes == report.bytes
            && last_modified == report.last_modified,
{
    let mut out: Vec<ScanEvent> = Vec::new();
    let mut i: usize = 0;
    while i < report.errors.len()
        invariant
            i <= report.errors@.len(),
            out@.len() == i,
            forall|k: int|
                0 <= k < i ==> (#[trigger] out@[k] matches ScanEvent::WalkError { path, reason }
                    && path@ == report.errors@[k].path@ && reason@ == report.errors@[k].reason@),
        decreases report.errors@.len() - i,
    {
        let e = &report.errors[i];
        out.push(ScanEvent::WalkError { path: e.path.duplicate(), reason: e.reason.clone() });
        i = i + 1;
    }
    let path = artifact.path;
    out.push(
        ScanEvent::Sized {
            artifact: Artifact { matcher_id: artifact.matcher_id, path },
            bytes: report.bytes,
            last_modified: report.last_modified,
        },
    );
    out
}

/// How a deletion ended.
#[derive(Debug)]
pub enum DeleteOutcome {
    /// The artifact was removed.
    Deleted,
    /// The artifact was no longer there, or no longer claimed by its matcher.
    NotFound,
    /// Removing the artifact failed, for the given reason.
    IoFailed(String),
}

/// The artifact, how its deletion ended, and, unless it was deleted, a
/// fresh tally of what is left.
#[derive(Debug)]
pub struct DeleteResult {
    pub artifact: Artifact,
    pub outcome: DeleteOutcome,
    pub rescan: Option<SizeReport>,
}

/// The deletion of one artifact, step by step: inspect the directory,
/// remove it, tally what is left, finished.
#[derive(Debug)]
pub enum Deletion {
    /// Look whether the artifact is still a directory claimed by its matcher.
    Inspecting { artifact: Artifact },
    /// Have the matcher remove the artifact.
    Removing { artifact: Artifact, matcher: Builtin },
    /// Tally what is left of the artifact.
    Rescanning { artifact: Artifact, outcome: DeleteOutcome },
    Finished { result: DeleteResult },
}

pub open spec fn same_artifact(a: Artifact, b: Artifact) -> bool {
    a.matcher_id@ == b.matcher_id@ && a.path@ == b.path@
}

/// The artifact is still a directory claimed by its own matcher.
pub open spec fn still_claimed(artifact: Artifact, is_dir: bool, claimed_by: Option<Builtin>) -> bool {
    is_dir && match claimed_by {
        Some(m) => m.spec_id() == artifact.matcher_id@,
        None => false,
    }
}

/// The artifact is still claimed and its matcher is registered.
pub open spec fn removable(artifact: Artifact, is_dir: bool, claimed_by: Option<Builtin>) -> bool {
    still_claimed(artifact, is_dir, claimed_by) && registered(artifact.matcher_id@) is Some
}

/// What inspecting the artifact of `before` leads to: the same artifact,
/// removal by its registered matcher when it is removable, and otherwise a
/// tally of what is left, the deletion having found nothing to remove.
pub open spec fn inspection(before: Deletion, after: Deletion, is_dir: bool, claimed_by: Option<Builtin>) -> bool {
    &&& same_artifact(after.artifact(), before.artifact())
    &&& after.consistent()
    &&& removable(before.artifact(), is_dir, claimed_by) ==> after == (Deletion::Removing {
        artifact: after.artifact(),
        matcher: registered(before.artifact().matcher_id@)->0,
    })
    &&& !removable(before.artifact(), is_dir, claimed_by) ==> (after matches Deletion::Rescanning {
        outcome: DeleteOutcome::NotFound,
        ..
    })
}

impl Deletion {
    pub open spec fn artifact(self) -> Artifact {
        match self {
            Deletion::Inspecting { artifact } => artifact,
            Deletion::Removing { artifact, .. } => artifact,
            Deletion::Rescanning { artifact, .. } => artifact,
            Deletion::Finished { result } => result.artifact,
        }
    }

    /// A tally is pending, or attached to the result, exactly when the
    /// artifact was not deleted; removal is only asked of the artifact's
    /// own matcher.
    pub open spec fn consistent(self) -> bool {
        match self {
            Deletion::Inspecting { .. } => true,
            Deletion::Removing { artifact, matcher } => matcher.spec_id() == artifact.matcher_id@,
            Deletion::Rescanning { outcome, .. } => !(outcome is Deleted),
            Deletion::Finished { result } => (result.rescan is None) == (result.outcome is Deleted),
        }
    }

    /// The result of inspecting the artifact: whether its path is a
    /// directory (not following a symbolic link), and which matcher claims
    /// that directory now.
    pub fn inspected(self, is_dir: bool, claimed_by: Option<Builtin>) -> (r: Deletion)
        requires
            self is Inspecting,
        ensures
            inspection(self, r, is_dir, claimed_by),
    {
        match self {
            Deletion::Inspecting { artifact } => {
                let still_claimed = is_dir && match claimed_by {
                    Some(m) => same_chars(
                        chars_of(m.id()).as_slice(),
                        chars_of(artifact.matcher_id).as_slice(),
                    ),
                    None => false,
                };
                if !still_claimed {
                    return Deletion::Rescanning { artifact, outcome: DeleteOutcome::NotFound };
                }
                match matcher_for(artifact.matcher_id) {
                    Some(matcher) => {
                        proof {
                            lemma_first_with_id(registry_order(), artifact.matcher_id@);
                        }
                        Deletion::Removing { artifact, matcher }
                    },
                    None => Deletion::Rescanning { artifact, outcome: DeleteOutcome::NotFound },
                }
            },
            _ => self,
        }
    }

    /// The result of asking the matcher to remove the artifact.
    pub fn removed(self, outcome: Result<(), String>) -> (r: Deletion)
        requires
            self is Removing,
        ensures
            same_artifact(r.artifact(), self.artifact()),
            r.consistent(),
            outcome is Ok ==> (r matches Deletion::Finished { result } && result.outcome is Deleted
                && result.rescan is None),
            outcome matches Err(e) ==> (r matches Deletion::Rescanning {
                outcome: DeleteOutcome::IoFailed(reason),
                ..
            } && reason == e),
    {
        match self {
            Deletion::Removing { artifact, .. } => match outcome {
                Ok(()) => Deletion::Finished {
                    result: DeleteResult { artifact, outcome: DeleteOutcome::Deleted, rescan: None },
                },
                Err(reason) => Deletion::Rescanning {
                    artifact,
                    outcome: DeleteOutcome::IoFailed(reason),
                },
            },
            _ => self,
        }
    }

    /// The fresh tally of what is left of the artifact.
    pub fn rescanned(self, report: SizeReport) -> (r: Deletion)
        requires
            self is Rescanning,
            self.consistent(),
        ensures
            same_artifact(r.artifact(), self.artifact()),
            r.consistent(),
            r matches Deletion::Finished { result } && result.outcome == self->outcome
                && result.rescan == Some(report),
    {
        match self {
            Deletion::Rescanning { artifact, outcome } => Deletion::Finished {
                result: DeleteResult { artifact, outcome, rescan: Some(report) },
            },
            _ => self,
        }
    }
}

/// Starts deleting `artifact`.
pub fn delete_artifact(artifact: &Artifact) -> (r: Deletion)
    ensures
        r is Inspecting,
        same_artifact(r.artifact(), *artifact),
{
    Deletion::Inspecting { artifact: artifact.duplicate() }
}

/// Every built-in matcher is registered under its own identifier.
pub proof fn lemma_builtin_registered(m: Builtin)
    ensures
        registered(m.spec_id()) == Some(m),
{
    reveal_strlit("node_modules");
    reveal_strlit("target");
    reveal_strlit("venv");
    let order = registry_order();
    assert(order.drop_first() =~= seq![Builtin::Target, Builtin::Venv]);
    assert(order.drop_first().drop_first() =~= seq![Builtin::Venv]);
    assert(order[0] == Builtin::NodeModules);
    assert(order.drop_first()[0] == Builtin::Target);
    assert(order.drop_first().drop_first()[0] == Builtin::Venv);
    assert("node_modules"@.len() == 12);
    assert("target"@.len() == 6);
    assert("venv"@.len() == 4);
    assert("node_modules"@ != "target"@);
    assert("node_modules"@ != "venv"@);
    assert("target"@ != "venv"@);
    let id = m.spec_id();
    let rest = order.drop_first();
    let last = rest.drop_first();
    assert(last.drop_first().len() == 0);
    assert(first_with_id(last, id) == (if Builtin::Venv.spec_id() == id {
        Some(Builtin::Venv)
    } else {
        first_with_id(last.drop_first(), id)
    }));
    assert(first_with_id(rest, id) == (if Builtin::Target.spec_id() == id {
        Some(Builtin::Target)
    } else {
        first_with_id(last, id)
    }));
    assert(first_with_id(order, id) == (if Builtin::NodeModules.spec_id() == id {
        Some(Builtin::NodeModules)
    } else {
        first_with_id(rest, id)
    }));
}

/// Deletion removes only what is still the artifact that was found: the
/// matcher is asked to remove it exactly when its path is still a
/// directory (not a symbolic link) that the artifact's own matcher claims
/// now, and the one asked is that matcher; in every other case the
/// deletion ends as not found, with nothing removed.
pub proof fn lemma_removes_only_what_is_claimed(
    before: Deletion,
    after: Deletion,
    is_dir: bool,
    claimed_by: Option<Builtin>,
)
    requires
        before is Inspecting,
        inspection(before, after, is_dir, claimed_by),
    ensures
        after is Removing <==> (is_dir && claimed_by is Some && claimed_by->0.spec_id()
            == before.artifact().matcher_id@),
        after matches Deletion::Removing { matcher, .. } ==> claimed_by == Some(matcher),
        !(after is Removing) ==> (after matches Deletion::Rescanning {
            outcome: DeleteOutcome::NotFound,
            ..
        }),
{
    if let Some(m) = claimed_by {
        lemma_builtin_registered(m);
    }
}

/// The newest modification time does not depend on the order in which
/// files are met.
pub proof fn lemma_later_order_free(x: Option<Timestamp>, a: Option<Timestamp>, b: Option<Timestamp>)
    ensures
        later(later(x, a), b) == later(later(x, b), a),
        later(a, b) == later(b, a),
{
}

/// The newest of two modification times: it is one of them, known when
/// either is, and no earlier than any known one.
pub proof fn lemma_later_is_newest(a: Option<Timestamp>, b: Option<Timestamp>)
    ensures
        later(a, b) == a || later(a, b) == b,
        later(a, b) is None <==> (a is None && b is None),
        a matches Some(x) ==> later(a, b)->0 >= x,
        b matches Some(y) ==> later(a, b)->0 >= y,
{
}

/// What one entry does to a tally: only a regular file adds bytes, exactly
/// its length; a symbolic link changes nothing; only a subdirectory is
/// queued, one at a time; and each unreadable entry adds exactly one
/// problem, counting no bytes.
pub proof fn lemma_tally_step(before: Sizing, after: Sizing, directory: Seq<PartView>, probe: SizeProbe)
    requires
        absorbed(before, after, directory, probe),
    ensures
        after.report.bytes == before.report.bytes + match probe {
            SizeProbe::File { len, .. } => len as int,
            _ => 0,
        },
        probe is Symlink ==> after.pending@ == before.pending@ && after.report == before.report,
        probe is Directory ==> after.pending@.len() == before.pending@.len() + 1,
        !(probe is Directory) ==> after.pending@ == before.pending@,
        after.report.errors@.len() == before.report.errors@.len() + (if probe is Unreadable
            || probe is TypeUnknown || probe is FileUnreadable {
            1int
        } else {
            0
        }),
{
    match probe {
        SizeProbe::Directory { .. } => {
            assert(location_views(after.pending@).len() == after.pending@.len());
            assert(location_views(before.pending@).len() == before.pending@.len());
        },
        SizeProbe::Symlink => {},
        SizeProbe::File { .. } => {},
        _ => {
            assert(error_views(after.report.errors@).len() == after.report.errors@.len());
            assert(error_views(before.report.errors@).len() == before.report.errors@.len());
        },
    }
}

} // verus!
