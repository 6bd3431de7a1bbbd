//! Filesystem locations as sequences of path components, compared and
//! ordered component by component.
use vstd::prelude::*;

verus! {

/// One component of a path.
#[derive(Clone, Debug, PartialEq, Eq)]
pub enum Part {
    /// The root directory, first in an absolute path.
    Root,
    /// A leading `.`.
    Current,
    /// `..`.
    Parent,
    /// A named entry, by the bytes of its name.
    Named(Vec<u8>),
}

pub enum PartView {
    Root,
    Current,
    Parent,
    Named(Seq<u8>),
}

impl View for Part {
    type V = PartView;

    open spec fn view(&self) -> PartView {
        match self {
            Part::Root => PartView::Root,
            Part::Current => PartView::Current,
            Part::Parent => PartView::Parent,
            Part::Named(name) => PartView::Named(name@),
        }
    }
}

/// A path, by its components.
#[derive(Clone, Debug, PartialEq, Eq)]
pub struct Location {
    pub parts: Vec<Part>,
}

impl View for Location {
    type V = Seq<PartView>;

    open spec fn view(&self) -> Seq<PartView> {
        part_views(self.parts@)
    }
}

pub open spec fn part_views(parts: Seq<Part>) -> Seq<PartView> {
    parts.map_values(|p: Part| p@)
}

/// `a` comes before `b` in the lexicographic extension of `less`: at the
/// first place where they differ `a` has the lesser element, or `a` is a
/// proper prefix of `b`.
pub open spec fn lex_less<T>(a: Seq<T>, b: Seq<T>, less: spec_fn(T, T) -> bool) -> bool
    decreases a.len(),
{
    if a.len() == 0 {
        b.len() > 0
    } else if b.len() == 0 {
        false
    } else if less(a[0], b[0]) {
        true
    } else if a[0] == b[0] {
        lex_less(a.drop_first(), b.drop_first(), less)
    } else {
        false
    }
}

pub open spec fn strict_total<T>(less: spec_fn(T, T) -> bool) -> bool {
    &&& forall|x: T| !#[trigger] less(x, x)
    &&& forall|x: T, y: T, z: T|
        #![trigger less(x, y), less(y, z)]
        less(x, y) && less(y, z) ==> less(x, z)
    &&& forall|x: T, y: T| #![trigger less(x, y)] x != y ==> less(x, y) || less(y, x)
}

pub proof fn lemma_lex_irreflexive<T>(a: Seq<T>, less: spec_fn(T, T) -> bool)
    requires
        strict_total(less),
    ensures
        !lex_less(a, a, less),
    decreases a.len(),
{
    if a.len() > 0 {
        lemma_lex_irreflexive(a.drop_first(), less);
    }
}

pub proof fn lemma_lex_transitive<T>(a: Seq<T>, b: Seq<T>, c: Seq<T>, less: spec_fn(T, T) -> bool)
    requires
        strict_total(less),
        lex_less(a, b, less),
        lex_less(b, c, less),
    ensures
        lex_less(a, c, less),
    decreases a.len(),
{
    if a.len() > 0 && b.len() > 0 && c.len() > 0 {
        if a[0] == b[0] && b[0] == c[0] && !less(a[0], b[0]) && !less(b[0], c[0]) {
            lemma_lex_transitive(a.drop_first(), b.drop_first(), c.drop_first(), less);
        }
    }
}

pub proof fn lemma_lex_total<T>(a: Seq<T>, b: Seq<T>, less: spec_fn(T, T) -> bool)
    requires
        strict_total(less),
        a != b,
    ensures
        lex_less(a, b, less) || lex_less(b, a, less),
    decreases a.len(),
{
    if a.len() > 0 && b.len() > 0 && a[0] == b[0] {
        if a.drop_first() == b.drop_first() {
            assert(a =~= seq![a[0]] + a.drop_first());
            assert(b =~= seq![b[0]] + b.drop_first());
        }
        lemma_lex_total(a.drop_first(), b.drop_first(), less);
    } else if a.len() == 0 && b.len() == 0 {
        assert(a =~= b);
    }
}

pub open spec fn byte_less() -> spec_fn(u8, u8) -> bool {
    |x: u8, y: u8| x < y
}

pub open spec fn rank(p: PartView) -> nat {
    match p {
        PartView::Root => 1,
        PartView::Current => 2,
        PartView::Parent => 3,
        PartView::Named(_) => 4,
    }
}

/// Components are ordered root, current, parent, then named entries by the
/// bytes of their names.
pub open spec fn part_less() -> spec_fn(PartView, PartView) -> bool {
    |p: PartView, q: PartView|
        rank(p) < rank(q) || (p matches PartView::Named(x) && q matches PartView::Named(y)
            && lex_less(x, y, byte_less()))
}

/// Paths are ordered by their components, lexicographically.
pub open spec fn path_less(a: Seq<PartView>, b: Seq<PartView>) -> bool {
    lex_less(a, b, part_less())
}

pub proof fn lemma_byte_less_total()
    ensures
        strict_total(byte_less()),
{
}

pub proof fn lemma_part_less_total()
    ensures
        strict_total(part_less()),
{
    assert forall|x: PartView| !#[trigger] (part_less())(x, x) by {
        if let PartView::Named(n) = x {
            lemma_lex_irreflexive(n, byte_less());
        }
    }
    assert forall|x: PartView, y: PartView, z: PartView|
        #![trigger (part_less())(x, y), (part_less())(y, z)]
        (part_less())(x, y) && (part_less())(y, z) implies (part_less())(x, z) by {
        if let (PartView::Named(a), PartView::Named(b), PartView::Named(c)) = (x, y, z) {
            if lex_less(a, b, byte_less()) && lex_less(b, c, byte_less()) {
                lemma_lex_transitive(a, b, c, byte_less());
            }
        }
    }
    assert forall|x: PartView, y: PartView|
        #![trigger (part_less())(x, y)]
        x != y implies (part_less())(x, y) || (part_less())(y, x) by {
        if let (PartView::Named(a), PartView::Named(b)) = (x, y) {
            lemma_lex_total(a, b, byte_less());
        }
    }
}

/// Paths form a strict total order.
pub proof fn lemma_path_less_total()
    ensures
        forall|a: Seq<PartView>| !#[trigger] path_less(a, a),
        forall|a: Seq<PartView>, b: Seq<PartView>, c: Seq<PartView>|
            #![trigger path_less(a, b), path_less(b, c)]
            path_less(a, b) && path_less(b, c) ==> path_less(a, c),
        forall|a: Seq<PartView>, b: Seq<PartView>|
            #![trigger path_less(a, b)]
            a != b ==> path_less(a, b) || path_less(b, a),
{
    lemma_part_less_total();
    assert forall|a: Seq<PartView>| !#[trigger] path_less(a, a) by {
        lemma_lex_irreflexive(a, part_less());
    }
    assert forall|a: Seq<PartView>, b: Seq<PartView>, c: Seq<PartView>|
        #![trigger path_less(a, b), path_less(b, c)]
        path_less(a, b) && path_less(b, c) implies path_less(a, c) by {
        lemma_lex_transitive(a, b, c, part_less());
    }
    assert forall|a: Seq<PartView>, b: Seq<PartView>|
        #![trigger path_less(a, b)]
        a != b implies path_less(a, b) || path_less(b, a) by {
        lemma_lex_total(a, b, part_less());
    }
}

/// Where two values stand relative to each other.
#[derive(Clone, Copy, Debug, PartialEq, Eq, Structural)]
pub enum Precedence {
    Before,
    Same,
    After,
}

pub open spec fn precedence_of<T>(a: Seq<T>, b: Seq<T>, less: spec_fn(T, T) -> bool) -> Precedence {
    if a == b {
        Precedence::Same
    } else if lex_less(a, b, less) {
        Precedence::Before
    } else {
        Precedence::After
    }
}

proof fn lemma_lex_step<T>(a: Seq<T>, b: Seq<T>, i: int, less: spec_fn(T, T) -> bool)
    requires
        strict_total(less),
        0 <= i < a.len(),
        i < b.len(),
        a[i] == b[i],
    ensures
        lex_less(a.skip(i), b.skip(i), less) == lex_less(a.skip(i + 1), b.skip(i + 1), less),
{
    assert(a.skip(i).drop_first() =~= a.skip(i + 1));
    assert(b.skip(i).drop_first() =~= b.skip(i + 1));
}

/// Where byte strings `a` and `b` stand in lexicographic order.
pub fn order_bytes(a: &[u8], b: &[u8]) -> (r: Precedence)
    ensures
        r == precedence_of(a@, b@, byte_less()),
{
    proof {
        lemma_byte_less_total();
        assert(a@.skip(0) =~= a@);
        assert(b@.skip(0) =~= b@);
    }
    let mut i: usize = 0;
    while i < a.len() && i < b.len()
        invariant
            i <= a@.len(),
            i <= b@.len(),
            a@.take(i as int) == b@.take(i as int),
            lex_less(a@, b@, byte_less()) == lex_less(a@.skip(i as int), b@.skip(i as int), byte_less()),
            lex_less(b@, a@, byte_less()) == lex_less(b@.skip(i as int), a@.skip(i as int), byte_less()),
        decreases a@.len() - i,
    {
        if a[i] < b[i] {
            proof {
                if a@ == b@ {
                    assert(a@[i as int] == b@[i as int]);
                }
            }
            return Precedence::Before;
        }
        if a[i] > b[i] {
            proof {
                if a@ == b@ {
                    assert(a@[i as int] == b@[i as int]);
                }
                lemma_lex_irreflexive(a@, byte_less());
            }
            return Precedence::After;
        }
        proof {
            lemma_lex_step(a@, b@, i as int, byte_less());
            lemma_lex_step(b@, a@, i as int, byte_less());
            assert(a@.take(i + 1) =~= a@.take(i as int).push(a@[i as int]));
            assert(b@.take(i + 1) =~= b@.take(i as int).push(b@[i as int]));
        }
        i = i + 1;
    }
    if a.len() < b.len() {
        proof {
            if a@ == b@ {
                assert(false);
            }
        }
        Precedence::Before
    } else if a.len() > b.len() {
        Precedence::After
    } else {
        proof {
            assert(a@ =~= a@.take(i as int));
            assert(b@ =~= b@.take(i as int));
        }
        Precedence::Same
    }
}


pub fn copy_bytes(bytes: &[u8]) -> (r: Vec<u8>)
    ensures
        r@ == bytes@,
{
    let mut out: Vec<u8> = Vec::new();
    let mut i: usize = 0;
    while i < bytes.len()
        invariant
            i <= bytes@.len(),
            out@ == bytes@.take(i as int),
        decreases bytes@.len() - i,
    {
        out.push(bytes[i]);
        assert(bytes@.take(i + 1) == bytes@.take(i as int).push(bytes@[i as int]));
        i = i + 1;
    }
    assert(bytes@.take(i as int) =~= bytes@);
    out
}

impl Part {
    pub fn duplicate(&self) -> (r: Part)
        ensures
            r@ == self@,
    {
        match self {
            Part::Root => Part::Root,
            Part::Current => Part::Current,
            Part::Parent => Part::Parent,
            Part::Named(name) => Part::Named(copy_bytes(name.as_slice())),
        }
    }

    fn rank_of(&self) -> (r: u8)
        ensures
            r == rank(self@),
    {
        match self {
            Part::Root => 1,
            Part::Current => 2,
            Part::Parent => 3,
            Part::Named(_) => 4,
        }
    }

    /// Where this component stands relative to `other`.
    pub fn order(&self, other: &Part) -> (r: Precedence)
        ensures
            r == (if self@ == other@ {
                Precedence::Same
            } else if (part_less())(self@, other@) {
                Precedence::Before
            } else {
                Precedence::After
            }),
    {
        let a = self.rank_of();
        let b = other.rank_of();
        if a < b {
            return Precedence::Before;
        }
        if a > b {
            return Precedence::After;
        }
        match (self, other) {
            (Part::Named(x), Part::Named(y)) => {
                let r = order_bytes(x.as_slice(), y.as_slice());
                proof {
                    lemma_byte_less_total();
                    if x@ == y@ {
                        lemma_lex_irreflexive(x@, byte_less());
                    }
                }
                r
            },
            _ => {
                assert(self@ == other@);
                Precedence::Same
            },
        }
    }
}

impl Location {
    /// The empty path.
    pub fn empty() -> (r: Location)
        ensures
            r@ == Seq::<PartView>::empty(),
    {
        let r = Location { parts: Vec::new() };
        assert(r@ =~= Seq::<PartView>::empty());
        r
    }

    pub fn from_parts(parts: Vec<Part>) -> (r: Location)
        ensures
            r@ == part_views(parts@),
    {
        Location { parts }
    }

    pub fn parts(&self) -> (r: &[Part])
        ensures
            r@ == self.parts@,
    {
        self.parts.as_slice()
    }

    /// This path with `head` put in front of it.
    pub fn prefixed(&self, head: Part) -> (r: Location)
        ensures
            r@ == seq![head@] + self@,
    {
        let ghost hv = head@;
        let mut parts: Vec<Part> = Vec::new();
        parts.push(head);
        let mut tail = self.duplicate();
        parts.append(&mut tail.parts);
        let r = Location { parts };
        assert(r@ =~= seq![hv] + self@);
        r
    }

    pub fn duplicate(&self) -> (r: Location)
        ensures
            r@ == self@,
    {
        let mut parts: Vec<Part> = Vec::new();
        let mut i: usize = 0;
        while i < self.parts.len()
            invariant
                i <= self.parts@.len(),
                parts@.len() == i,
                part_views(parts@) == self@.take(i as int),
            decreases self.parts@.len() - i,
        {
            let p = self.parts[i].duplicate();
            let ghost before = parts@;
            parts.push(p);
            assert(self@[i as int] == self.parts@[i as int]@);
            assert(parts@ == before.push(p));
            assert forall|k: int| 0 <= k < i + 1 implies #[trigger] part_views(parts@)[k]
                == self@.take(i + 1)[k] by {
                if k < i {
                    assert(parts@[k] == before[k]);
                    assert(part_views(before)[k] == self@.take(i as int)[k]);
                }
            }
            assert(part_views(parts@) =~= self@.take(i + 1));
            i = i + 1;
        }
        assert(self@.take(i as int) =~= self@);
        Location { parts }
    }

    /// This path with the entry `name` appended.
    pub fn join(&self, name: &[u8]) -> (r: Location)
        ensures
            r@ == self@.push(PartView::Named(name@)),
    {
        let mut r = self.duplicate();
        r.parts.push(Part::Named(copy_bytes(name)));
        assert(r@ =~= self@.push(PartView::Named(name@)));
        r
    }

    /// The name of the last component, when it is a named entry.
    pub fn file_name(&self) -> (r: Option<&[u8]>)
        ensures
            match r {
                Some(n) => self@.len() > 0 && self@.last() == PartView::Named(n@),
                None => self@.len() == 0 || !(self@.last() is Named),
            },
    {
        if self.parts.len() == 0 {
            return None;
        }
        match &self.parts[self.parts.len() - 1] {
            Part::Named(name) => Some(name.as_slice()),
            _ => None,
        }
    }

    /// Where this path stands relative to `other`.
    pub fn order(&self, other: &Location) -> (r: Precedence)
        ensures
            r == precedence_of(self@, other@, part_less()),
    {
        proof {
            lemma_part_less_total();
            assert(self@.skip(0) =~= self@);
            assert(other@.skip(0) =~= other@);
        }
        let a = &self.parts;
        let b = &other.parts;
        let mut i: usize = 0;
        while i < a.len() && i < b.len()
            invariant
                strict_total(part_less()),
                a@ == self.parts@,
                b@ == other.parts@,
                i <= self@.len(),
                i <= other@.len(),
                self@.take(i as int) == other@.take(i as int),
                lex_less(self@, other@, part_less()) == lex_less(
                    self@.skip(i as int),
                    other@.skip(i as int),
                    part_less(),
                ),
                lex_less(other@, self@, part_less()) == lex_less(
                    other@.skip(i as int),
                    self@.skip(i as int),
                    part_less(),
                ),
            decreases self@.len() - i,
        {
            let step = a[i].order(&b[i]);
            assert(self@[i as int] == a@[i as int]@);
            assert(other@[i as int] == b@[i as int]@);
            match step {
                Precedence::Before => {
                    proof {
                        if self@ == other@ {
                            assert(self@[i as int] == other@[i as int]);
                        }
                    }
                    return Precedence::Before;
                },
                Precedence::After => {
                    proof {
                        if self@ == other@ {
                            assert(self@[i as int] == other@[i as int]);
                        }
                    }
                    return Precedence::After;
                },
                Precedence::Same => {},
            }
            proof {
                lemma_lex_step(self@, other@, i as int, part_less());
                lemma_lex_step(other@, self@, i as int, part_less());
                assert(self@.take(i + 1) =~= self@.take(i as int).push(self@[i as int]));
                assert(other@.take(i + 1) =~= other@.take(i as int).push(other@[i as int]));
            }
            i = i + 1;
        }
        if a.len() < b.len() {
            proof {
                if self@ == other@ {
                    assert(false);
                }
            }
            Precedence::Before
        } else if a.len() > b.len() {
            Precedence::After
        } else {
            proof {
                assert(self@ =~= self@.take(i as int));
                assert(other@ =~= other@.take(i as int));
            }
            Precedence::Same
        }
    }

    /// What is left of this path below `base`, when `base`'s components
    /// begin this path's components.
    pub fn strip_prefix(&self, base: &Location) -> (r: Option<Location>)
        ensures
            match r {
                Some(rest) => base@.len() <= self@.len() && self@.take(base@.len() as int) == base@
                    && rest@ == self@.skip(base@.len() as int),
                None => !(base@.len() <= self@.len() && self@.take(base@.len() as int) == base@),
            },
    {
        if base.parts.len() > self.parts.len() {
            return None;
        }
        let mut i: usize = 0;
        while i < base.parts.len()
            invariant
                base@.len() <= self@.len(),
                i <= base@.len(),
                self@.take(i as int) == base@.take(i as int),
            decreases base@.len() - i,
        {
            match self.parts[i].order(&base.parts[i]) {
                Precedence::Same => {},
                _ => {
                    proof {
                        assert(self@[i as int] == self.parts@[i as int]@);
                        assert(base@[i as int] == base.parts@[i as int]@);
                        if self@.take(base@.len() as int) == base@ {
                            assert(self@.take(base@.len() as int)[i as int] == self@[i as int]);
                        }
                    }
                    return None;
                },
            }
            proof {
                assert(self@[i as int] == self.parts@[i as int]@);
                assert(base@[i as int] == base.parts@[i as int]@);
                assert(self@.take(i + 1) =~= self@.take(i as int).push(self@[i as int]));
                assert(base@.take(i + 1) =~= base@.take(i as int).push(base@[i as int]));
            }
            i = i + 1;
        }
        assert(base@.take(i as int) =~= base@);
        let mut parts: Vec<Part> = Vec::new();
        let mut j: usize = i;
        let ghost start = i as int;
        let ghost whole = self@;
        assert(whole.len() == self.parts@.len());
        assert(part_views(parts@) =~= whole.subrange(start, start));
        while j < self.parts.len()
            invariant
                whole == self@,
                whole.len() == self.parts@.len(),
                0 <= start <= j <= whole.len(),
                parts@.len() == j - start,
                part_views(parts@) == whole.subrange(start, j as int),
            decreases whole.len() - j,
        {
            let p = self.parts[j].duplicate();
            let ghost before = parts@;
            parts.push(p);
            proof {
                assert(whole[j as int] == self.parts@[j as int]@);
                let target = whole.subrange(start, j + 1);
                assert forall|k: int| 0 <= k < j + 1 - start implies #[trigger] part_views(parts@)[k]
                    == target[k] by {
                    if k < j - start {
                        assert(parts@[k] == before[k]);
                        assert(part_views(before)[k] == whole.subrange(start, j as int)[k]);
                    }
                }
                assert(part_views(parts@) =~= target);
            }
            j = j + 1;
        }
        assert(whole.subrange(start, whole.len() as int) =~= whole.skip(start));
        Some(Location { parts })
    }

    pub fn same(&self, other: &Location) -> (r: bool)
        ensures
            r == (self@ == other@),
    {
        match self.order(other) {
            Precedence::Same => true,
            _ => false,
        }
    }

    pub fn precedes(&self, other: &Location) -> (r: bool)
        ensures
            r == path_less(self@, other@),
    {
        proof {
            lemma_part_less_total();
            lemma_lex_irreflexive(self@, part_less());
        }
        match self.order(other) {
            Precedence::Before => true,
            _ => false,
        }
    }
}

} // verus!
