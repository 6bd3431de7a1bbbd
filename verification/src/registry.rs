//! The built-in matchers and the registry that consults them in order.
use vstd::prelude::*;
use vstd::string::StringSliceAdditionalSpecFns;
use crate::location::Location;
use crate::matcher::{last_name, name_is, DeletionPolicy, Marker, Matcher};
use crate::text::{chars_of, same_chars};

verus! {

/// JavaScript dependency folders: any directory named `node_modules`.
pub struct NodeModules;

impl Matcher for NodeModules {
    open spec fn spec_id(&self) -> Seq<char> {
        "node_modules"@
    }

    open spec fn spec_accepts(&self, name: Seq<u8>) -> bool {
        name == "node_modules".spec_bytes()
    }

    open spec fn spec_marker(&self) -> Marker {
        Marker::Nothing
    }

    open spec fn spec_policy(&self) -> DeletionPolicy {
        DeletionPolicy::Instant
    }

    fn id(&self) -> (r: &'static str) {
        "node_modules"
    }

    fn accepts_name(&self, name: &[u8]) -> (r: bool) {
        name_is(name, "node_modules")
    }

    fn marker(&self) -> (r: Marker) {
        Marker::Nothing
    }

    fn deletion_policy(&self) -> (r: DeletionPolicy) {
        DeletionPolicy::Instant
    }
}

/// Rust build folders: a directory named `target` whose parent holds a
/// `Cargo.toml` file.
pub struct Target;

impl Matcher for Target {
    open spec fn spec_id(&self) -> Seq<char> {
        "target"@
    }

    open spec fn spec_accepts(&self, name: Seq<u8>) -> bool {
        name == "target".spec_bytes()
    }

    open spec fn spec_marker(&self) -> Marker {
        Marker::Beside("Cargo.toml")
    }

    open spec fn spec_policy(&self) -> DeletionPolicy {
        DeletionPolicy::Instant
    }

    fn id(&self) -> (r: &'static str) {
        "target"
    }

    fn accepts_name(&self, name: &[u8]) -> (r: bool) {
        name_is(name, "target")
    }

    fn marker(&self) -> (r: Marker) {
        Marker::Beside("Cargo.toml")
    }

    fn deletion_policy(&self) -> (r: DeletionPolicy) {
        DeletionPolicy::Instant
    }
}

/// Python virtual environments: a directory named `.venv`, `venv` or
/// `.virtualenv` holding a `pyvenv.cfg` file. Deleting one asks for
/// confirmation.
pub struct Venv;

impl Matcher for Venv {
    open spec fn spec_id(&self) -> Seq<char> {
        "venv"@
    }

    open spec fn spec_accepts(&self, name: Seq<u8>) -> bool {
        name == ".venv".spec_bytes() || name == "venv".spec_bytes() || name
            == ".virtualenv".spec_bytes()
    }

    open spec fn spec_marker(&self) -> Marker {
        Marker::Inside("pyvenv.cfg")
    }

    open spec fn spec_policy(&self) -> DeletionPolicy {
        DeletionPolicy::Confirm(Some("Ensure dependencies are exported to requirements.txt"))
    }

    fn id(&self) -> (r: &'static str) {
        "venv"
    }

    fn accepts_name(&self, name: &[u8]) -> (r: bool) {
        name_is(name, ".venv") || name_is(name, "venv") || name_is(name, ".virtualenv")
    }

    fn marker(&self) -> (r: Marker) {
        Marker::Inside("pyvenv.cfg")
    }

    fn deletion_policy(&self) -> (r: DeletionPolicy) {
        DeletionPolicy::Confirm(Some("Ensure dependencies are exported to requirements.txt"))
    }
}

/// One of the built-in matchers.
#[derive(Clone, Copy, Debug, PartialEq, Eq, Structural)]
pub enum Builtin {
    NodeModules,
    Target,
    Venv,
}

impl Builtin {
    pub open spec fn spec_id(self) -> Seq<char> {
        match self {
            Builtin::NodeModules => NodeModules.spec_id(),
            Builtin::Target => Target.spec_id(),
            Builtin::Venv => Venv.spec_id(),
        }
    }

    pub open spec fn spec_accepts(self, name: Seq<u8>) -> bool {
        match self {
            Builtin::NodeModules => NodeModules.spec_accepts(name),
            Builtin::Target => Target.spec_accepts(name),
            Builtin::Venv => Venv.spec_accepts(name),
        }
    }

    pub open spec fn spec_marker(self) -> Marker {
        match self {
            Builtin::NodeModules => NodeModules.spec_marker(),
            Builtin::Target => Target.spec_marker(),
            Builtin::Venv => Venv.spec_marker(),
        }
    }

    pub open spec fn spec_policy(self) -> DeletionPolicy {
        match self {
            Builtin::NodeModules => NodeModules.spec_policy(),
            Builtin::Target => Target.spec_policy(),
            Builtin::Venv => Venv.spec_policy(),
        }
    }

    pub fn id(self) -> (r: &'static str)
        ensures
            r@ == self.spec_id(),
    {
        match self {
            Builtin::NodeModules => NodeModules.id(),
            Builtin::Target => Target.id(),
            Builtin::Venv => Venv.id(),
        }
    }

    pub fn accepts_name(self, name: &[u8]) -> (r: bool)
        ensures
            r == self.spec_accepts(name@),
    {
        match self {
            Builtin::NodeModules => NodeModules.accepts_name(name),
            Builtin::Target => Target.accepts_name(name),
            Builtin::Venv => Venv.accepts_name(name),
        }
    }

    pub fn marker(self) -> (r: Marker)
        ensures
            r == self.spec_marker(),
    {
        match self {
            Builtin::NodeModules => NodeModules.marker(),
            Builtin::Target => Target.marker(),
            Builtin::Venv => Venv.marker(),
        }
    }

    pub fn deletion_policy(self) -> (r: DeletionPolicy)
        ensures
            r == self.spec_policy(),
    {
        match self {
            Builtin::NodeModules => NodeModules.deletion_policy(),
            Builtin::Target => Target.deletion_policy(),
            Builtin::Venv => Venv.deletion_policy(),
        }
    }
}

/// The matchers, in the order in which they are consulted.
pub open spec fn registry_order() -> Seq<Builtin> {
    seq![Builtin::NodeModules, Builtin::Target, Builtin::Venv]
}

pub fn registry() -> (r: Vec<Builtin>)
    ensures
        r@ == registry_order(),
{
    let mut r: Vec<Builtin> = Vec::new();
    r.push(Builtin::NodeModules);
    r.push(Builtin::Target);
    r.push(Builtin::Venv);
    assert(r@ =~= registry_order());
    r
}

/// `m` accepts the directory's name.
pub open spec fn name_accepted(m: Builtin, name: Option<Seq<u8>>) -> bool {
    match name {
        Some(n) => m.spec_accepts(n),
        None => false,
    }
}

/// `m` passed over the directory: its name was not accepted, or its marker
/// was looked for and reported absent.
pub open spec fn passed_over<F: Fn(Marker) -> bool>(m: Builtin, name: Option<Seq<u8>>, present: F) -> bool {
    !name_accepted(m, name) || (m.spec_marker() != Marker::Nothing && present.ensures(
        (m.spec_marker(),),
        false,
    ))
}

/// `m` took the directory: its name was accepted and its marker, if any,
/// was reported present.
pub open spec fn taken<F: Fn(Marker) -> bool>(m: Builtin, name: Option<Seq<u8>>, present: F) -> bool {
    name_accepted(m, name) && (m.spec_marker() == Marker::Nothing || present.ensures(
        (m.spec_marker(),),
        true,
    ))
}

/// The claim on a directory named `name`: the first matcher, in registry
/// order, that takes it, every matcher before it having passed it over; or
/// none, every matcher having passed it over.
pub open spec fn claimed<F: Fn(Marker) -> bool>(name: Option<Seq<u8>>, present: F, r: Option<Builtin>) -> bool {
    match r {
        Some(m) => exists|k: int|
            0 <= k < registry_order().len() && registry_order()[k] == m && taken(m, name, present)
                && forall|j: int| 0 <= j < k ==> #[trigger] passed_over(registry_order()[j], name, present),
        None => forall|j: int|
            0 <= j < registry_order().len() ==> #[trigger] passed_over(registry_order()[j], name, present),
    }
}

/// The first matcher, in registry order, that matches `dir`; `present`
/// reports whether a marker file is present next to or inside `dir`.
pub fn claim<F: Fn(Marker) -> bool>(dir: &Location, present: &F) -> (r: Option<Builtin>)
    requires
        forall|m: Marker| present.requires((m,)),
    ensures
        claimed(last_name(dir@), *present, r),
{
    let name = dir.file_name();
    let ghost spec_name = last_name(dir@);
    proof {
        match name {
            Some(n) => assert(spec_name == Some(n@)),
            None => assert(spec_name is None),
        }
    }
    let order = registry();
    let mut i: usize = 0;
    while i < order.len()
        invariant
            order@ == registry_order(),
            i <= order@.len(),
            forall|m: Marker| present.requires((m,)),
            spec_name == last_name(dir@),
            match name {
                Some(n) => spec_name == Some(n@),
                None => spec_name is None,
            },
            forall|j: int| 0 <= j < i ==> #[trigger] passed_over(order@[j], spec_name, *present),
        decreases order@.len() - i,
    {
        let m = order[i];
        let accepted = match name {
            Some(n) => m.accepts_name(n),
            None => false,
        };
        if accepted {
            let marker = m.marker();
            match marker {
                Marker::Nothing => {
                    return Some(m);
                },
                _ => {
                    if present(marker) {
                        return Some(m);
                    }
                },
            }
        }
        i = i + 1;
    }
    None
}

/// The first matcher in `order` with the identifier `id`.
pub open spec fn first_with_id(order: Seq<Builtin>, id: Seq<char>) -> Option<Builtin>
    decreases order.len(),
{
    if order.len() == 0 {
        None
    } else if order[0].spec_id() == id {
        Some(order[0])
    } else {
        first_with_id(order.drop_first(), id)
    }
}

pub proof fn lemma_first_with_id(order: Seq<Builtin>, id: Seq<char>)
    ensures
        first_with_id(order, id) matches Some(m) ==> m.spec_id() == id && order.contains(m),
    decreases order.len(),
{
    if order.len() > 0 && order[0].spec_id() != id {
        lemma_first_with_id(order.drop_first(), id);
        if let Some(m) = first_with_id(order, id) {
            let k = choose|k: int| 0 <= k < order.drop_first().len() && order.drop_first()[k] == m;
            assert(order[k + 1] == m);
        }
    } else if order.len() > 0 {
        assert(order[0] == order[0]);
        assert(order.contains(order[0]));
    }
}

/// The registered matcher with the identifier `id`.
pub open spec fn registered(id: Seq<char>) -> Option<Builtin> {
    first_with_id(registry_order(), id)
}

/// The first matcher, in registry order, with the identifier `id`.
pub fn matcher_for(id: &str) -> (r: Option<Builtin>)
    ensures
        r == registered(id@),
{
    let wanted = chars_of(id);
    let order = registry();
    assert(order@.skip(0) =~= order@);
    let mut i: usize = 0;
    while i < order.len()
        invariant
            order@ == registry_order(),
            i <= order@.len(),
            wanted@ == id@,
            registered(id@) == first_with_id(order@.skip(i as int), id@),
        decreases order@.len() - i,
    {
        let m = order[i];
        assert(order@.skip(i as int)[0] == m);
        if same_chars(chars_of(m.id()).as_slice(), wanted.as_slice()) {
            return Some(m);
        }
        assert(order@.skip(i as int).drop_first() =~= order@.skip(i + 1));
        i = i + 1;
    }
    None
}

/// The lookup of `marker` is reported to have found it.
pub open spec fn found<F: Fn(Marker) -> bool>(present: F, marker: Marker) -> bool {
    present.ensures((marker,), true) && !present.ensures((marker,), false)
}

/// The lookup of `marker` is reported to have missed it.
pub open spec fn missed<F: Fn(Marker) -> bool>(present: F, marker: Marker) -> bool {
    present.ensures((marker,), false) && !present.ensures((marker,), true)
}

/// The names of Python virtual environments.
pub open spec fn venv_name(name: Seq<u8>) -> bool {
    name == ".venv".spec_bytes() || name == "venv".spec_bytes() || name == ".virtualenv".spec_bytes()
}

proof fn lemma_name_lengths()
    ensures
        "node_modules".spec_bytes().len() == 12,
        "target".spec_bytes().len() == 6,
        ".venv".spec_bytes().len() == 5,
        "venv".spec_bytes().len() == 4,
        ".virtualenv".spec_bytes().len() == 11,
{
    reveal_strlit("node_modules");
    reveal_strlit("target");
    reveal_strlit(".venv");
    reveal_strlit("venv");
    reveal_strlit(".virtualenv");
    vstd::utf8::is_ascii_chars_encode_utf8("node_modules"@);
    vstd::utf8::is_ascii_chars_encode_utf8("target"@);
    vstd::utf8::is_ascii_chars_encode_utf8(".venv"@);
    vstd::utf8::is_ascii_chars_encode_utf8("venv"@);
    vstd::utf8::is_ascii_chars_encode_utf8(".virtualenv"@);
}

/// Which matcher claims a directory, by its name and what its marker
/// lookups report: a `node_modules` directory is always claimed as one; a
/// `target` directory is claimed as a Rust build folder exactly when a
/// `Cargo.toml` is found beside it; a `.venv`, `venv` or `.virtualenv`
/// directory is claimed as a virtual environment exactly when a
/// `pyvenv.cfg` is found inside it; a directory with any other name, or
/// with no name, is not claimed.
pub proof fn lemma_claim_by_name<F: Fn(Marker) -> bool>(
    name: Option<Seq<u8>>,
    present: F,
    r: Option<Builtin>,
)
    requires
        claimed(name, present, r),
    ensures
        name == Some("node_modules".spec_bytes()) ==> r == Some(Builtin::NodeModules),
        name == Some("target".spec_bytes()) && found(present, Marker::Beside("Cargo.toml")) ==> r
            == Some(Builtin::Target),
        name == Some("target".spec_bytes()) && missed(present, Marker::Beside("Cargo.toml")) ==> r
            is None,
        name matches Some(n) && venv_name(n) && found(present, Marker::Inside("pyvenv.cfg")) ==> r
            == Some(Builtin::Venv),
        name matches Some(n) && venv_name(n) && missed(present, Marker::Inside("pyvenv.cfg")) ==> r
            is None,
        !(name matches Some(n) && (n == "node_modules".spec_bytes() || n == "target".spec_bytes()
            || venv_name(n))) ==> r is None,
{
    lemma_name_lengths();
    let order = registry_order();
    assert(order[0] == Builtin::NodeModules);
    assert(order[1] == Builtin::Target);
    assert(order[2] == Builtin::Venv);
    match r {
        Some(m) => {
            let k = choose|k: int|
                0 <= k < order.len() && order[k] == m && taken(m, name, present) && forall|j: int|
                    0 <= j < k ==> #[trigger] passed_over(order[j], name, present);
            if k > 0 {
                assert(passed_over(order[0], name, present));
            }
            if k > 1 {
                assert(passed_over(order[1], name, present));
            }
        },
        None => {
            assert(passed_over(order[0], name, present));
            assert(passed_over(order[1], name, present));
            assert(passed_over(order[2], name, present));
        },
    }
}

} // verus!
