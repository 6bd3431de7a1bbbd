//! What an artifact is, and what a matcher decides about a directory.
use vstd::prelude::*;
use vstd::string::StringSliceAdditionalSpecFns;
use crate::location::{Location, PartView};

verus! {

/// How an artifact may be deleted: at once, or after a confirmation that
/// may carry a caution.
#[derive(Clone, Copy, Debug, PartialEq, Eq)]
pub enum DeletionPolicy {
    Instant,
    Confirm(Option<&'static str>),
}

/// A file whose presence a matcher needs besides the directory's name.
#[derive(Clone, Copy, Debug, PartialEq, Eq)]
pub enum Marker {
    /// Nothing beyond the name.
    Nothing,
    /// A regular file of this name in the directory's parent.
    Beside(&'static str),
    /// A regular file of this name inside the directory.
    Inside(&'static str),
}

/// Recognizes one kind of artifact directory. A directory matches when its
/// name is accepted and its marker file, if any, is present.
pub trait Matcher {
    spec fn spec_id(&self) -> Seq<char>;

    spec fn spec_accepts(&self, name: Seq<u8>) -> bool;

    spec fn spec_marker(&self) -> Marker;

    spec fn spec_policy(&self) -> DeletionPolicy;

    fn id(&self) -> (r: &'static str)
        ensures
            r@ == self.spec_id(),
    ;

    fn accepts_name(&self, name: &[u8]) -> (r: bool)
        ensures
            r == self.spec_accepts(name@),
    ;

    fn marker(&self) -> (r: Marker)
        ensures
            r == self.spec_marker(),
    ;

    fn deletion_policy(&self) -> (r: DeletionPolicy)
        ensures
            r == self.spec_policy(),
    ;
}

/// A directory found by a matcher.
#[derive(Clone, Debug, PartialEq, Eq)]
pub struct Artifact {
    pub matcher_id: &'static str,
    pub path: Location,
}

impl Artifact {
    pub fn path(&self) -> (r: &Location)
        ensures
            r@ == self.path@,
    {
        &self.path
    }

    pub fn duplicate(&self) -> (r: Artifact)
        ensures
            r.matcher_id == self.matcher_id,
            r.path@ == self.path@,
    {
        Artifact { matcher_id: self.matcher_id, path: self.path.duplicate() }
    }
}

/// The last component of `path` when it is a named entry.
pub open spec fn last_name(path: Seq<PartView>) -> Option<Seq<u8>> {
    if path.len() > 0 && path.last() is Named {
        Some(path.last()->Named_0)
    } else {
        None
    }
}

/// Is `name` exactly the UTF-8 encoding of `expected`?
pub fn name_is(name: &[u8], expected: &str) -> (r: bool)
    ensures
        r == (name@ == expected.spec_bytes()),
{
    let bytes = expected.as_bytes();
    if name.len() != bytes.len() {
        return false;
    }
    let mut i: usize = 0;
    while i < name.len()
        invariant
            i <= name@.len(),
            name@.len() == bytes@.len(),
            bytes@ == expected.spec_bytes(),
            forall|j: int| 0 <= j < i ==> name@[j] == bytes@[j],
        decreases name@.len() - i,
    {
        if name[i] != bytes[i] {
            return false;
        }
        i = i + 1;
    }
    assert(name@ =~= bytes@);
    true
}

} // verus!
