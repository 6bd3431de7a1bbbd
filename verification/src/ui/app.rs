//! The state behind the result table: the artifacts found so far, kept in
//! display order, the walk problems met, whether the scan is over, and the
//! selected row.
use vstd::prelude::*;
use crate::engine::{DeleteOutcome, DeleteResult, ScanEvent};
use crate::location::{lemma_path_less_total, path_less, Location, PartView};
use crate::matcher::Artifact;
use crate::ui::format::Timestamp;

verus! {

/// One artifact in the table, with its size and newest modification time
/// once known, and the order in which it was found.
#[derive(Debug)]
pub struct Row {
    pub artifact: Artifact,
    pub bytes: Option<u64>,
    pub last_modified: Option<Timestamp>,
    pub sequence: usize,
}

pub struct RowView {
    pub matcher_id: Seq<char>,
    pub path: Seq<PartView>,
    pub bytes: Option<u64>,
    pub last_modified: Option<Timestamp>,
    pub sequence: nat,
}

impl View for Row {
    type V = RowView;

    open spec fn view(&self) -> RowView {
        RowView {
            matcher_id: self.artifact.matcher_id@,
            path: self.artifact.path@,
            bytes: self.bytes,
            last_modified: self.last_modified,
            sequence: self.sequence as nat,
        }
    }
}

pub open spec fn row_views(rows: Seq<Row>) -> Seq<RowView> {
    rows.map_values(|r: Row| r@)
}

/// Display order: sized rows first, largest first and then by path; rows
/// still being sized after them, in the order they were found.
pub open spec fn row_before(a: RowView, b: RowView) -> bool {
    match (a.bytes, b.bytes) {
        (Some(x), Some(y)) => x > y || (x == y && path_less(a.path, b.path)),
        (Some(_), None) => true,
        (None, Some(_)) => false,
        (None, None) => a.sequence < b.sequence,
    }
}

/// Two rows that never tie: different paths and different find order.
pub open spec fn keys_differ(a: RowView, b: RowView) -> bool {
    a.path != b.path && a.sequence != b.sequence
}

pub open spec fn sorted(rows: Seq<RowView>) -> bool {
    forall|i: int, j: int| 0 <= i < j < rows.len() ==> row_before(#[trigger] rows[i], #[trigger] rows[j])
}

pub open spec fn keys_distinct(rows: Seq<RowView>) -> bool {
    forall|i: int, j: int| 0 <= i < rows.len() && 0 <= j < rows.len() && i != j ==> keys_differ(#[trigger] rows[i], #[trigger] rows[j])
}

/// What the table state is: rows, walk problems, whether the scan is over,
/// the selected row, and the find-order number the next row gets.
pub struct AppView {
    pub root: Seq<PartView>,
    pub rows: Seq<RowView>,
    pub errors: Seq<(Seq<PartView>, Seq<char>)>,
    pub done: bool,
    pub selected: Option<nat>,
    pub next_sequence: nat,
}

/// Every table state keeps its rows in display order with no path twice,
/// and selects a row exactly when there is one.
pub open spec fn well_formed(v: AppView) -> bool {
    &&& sorted(v.rows)
    &&& keys_distinct(v.rows)
    &&& forall|i: int| 0 <= i < v.rows.len() ==> (#[trigger] v.rows[i]).sequence < v.next_sequence
    &&& (v.selected is None <==> v.rows.len() == 0)
    &&& (v.selected matches Some(s) ==> s < v.rows.len())
}

/// A walk problem kept for the status line.
pub struct ScanError {
    pub path: Location,
    pub reason: String,
}

/// The table state itself; `App` keeps it well formed.
struct Table {
    root: Location,
    rows: Vec<Row>,
    errors: Vec<ScanError>,
    done: bool,
    selected: Option<usize>,
    next_sequence: usize,
}

pub open spec fn selection_view(s: Option<usize>) -> Option<nat> {
    match s {
        Some(i) => Some(i as nat),
        None => None,
    }
}

impl View for Table {
    type V = AppView;

    closed spec fn view(&self) -> AppView {
        AppView {
            root: self.root@,
            rows: row_views(self.rows@),
            errors: self.errors@.map_values(|e: ScanError| (e.path@, e.reason@)),
            done: self.done,
            selected: selection_view(self.selected),
            next_sequence: self.next_sequence as nat,
        }
    }
}

pub proof fn lemma_row_before_irreflexive(a: RowView)
    ensures
        !row_before(a, a),
{
    lemma_path_less_total();
    assert(!path_less(a.path, a.path));
}

pub proof fn lemma_row_before_transitive(a: RowView, b: RowView, c: RowView)
    requires
        row_before(a, b),
        row_before(b, c),
    ensures
        row_before(a, c),
{
    lemma_path_less_total();
    if a.bytes is Some && b.bytes is Some && c.bytes is Some {
        if a.bytes == b.bytes && b.bytes == c.bytes {
            assert(path_less(a.path, b.path) && path_less(b.path, c.path));
        }
    }
}

pub proof fn lemma_row_before_total(a: RowView, b: RowView)
    requires
        keys_differ(a, b),
    ensures
        row_before(a, b) || row_before(b, a),
{
    lemma_path_less_total();
    assert(a.path != b.path ==> path_less(a.path, b.path) || path_less(b.path, a.path));
}

/// The sorted order is determined by the rows: two sorted sequences holding
/// the same rows are the same sequence.
pub proof fn lemma_sorted_unique(a: Seq<RowView>, b: Seq<RowView>)
    requires
        sorted(a),
        sorted(b),
        a.to_multiset() == b.to_multiset(),
    ensures
        a == b,
    decreases a.len(),
{
    broadcast use vstd::seq_lib::group_to_multiset_ensures;

    if a.len() == 0 {
        assert(b.len() == 0);
        assert(a =~= b);
    } else {
        assert(a.to_multiset().len() == a.len());
        assert(b.to_multiset().len() == b.len());
        assert(b.len() == a.len());
        assert(a.contains(a[0]));
        assert(b.to_multiset().count(a[0]) > 0);
        assert(b.contains(a[0]));
        assert(b.contains(b[0]));
        assert(a.to_multiset().count(b[0]) > 0);
        assert(a.contains(b[0]));
        if a[0] != b[0] {
            let k = choose|k: int| 0 <= k < b.len() && b[k] == a[0];
            let j = choose|j: int| 0 <= j < a.len() && a[j] == b[0];
            assert(row_before(b[0], b[k]));
            assert(row_before(a[0], a[j]));
            lemma_row_before_transitive(a[0], b[0], a[0]);
            lemma_row_before_irreflexive(a[0]);
        }
        assert(a.remove(0) =~= a.drop_first());
        assert(b.remove(0) =~= b.drop_first());
        assert(a.drop_first().to_multiset() == a.to_multiset().remove(a[0]));
        assert(b.drop_first().to_multiset() == b.to_multiset().remove(b[0]));
        lemma_sorted_unique(a.drop_first(), b.drop_first());
        assert forall|i: int| 0 <= i < a.len() implies a[i] == b[i] by {
            if i > 0 {
                assert(a[i] == a.drop_first()[i - 1]);
                assert(b[i] == b.drop_first()[i - 1]);
            }
        }
        assert(a =~= b);
    }
}

fn row_precedes(a: &Row, b: &Row) -> (r: bool)
    ensures
        r == row_before(a@, b@),
{
    match (a.bytes, b.bytes) {
        (Some(x), Some(y)) => x > y || (x == y && a.artifact.path.precedes(&b.artifact.path)),
        (Some(_), None) => true,
        (None, Some(_)) => false,
        (None, None) => a.sequence < b.sequence,
    }
}

proof fn lemma_views_insert(rows: Seq<Row>, p: int, row: Row)
    requires
        0 <= p <= rows.len(),
    ensures
        row_views(rows.insert(p, row)) == row_views(rows).insert(p, row@),
{
    assert(row_views(rows.insert(p, row)) =~= row_views(rows).insert(p, row@));
}

proof fn lemma_views_remove(rows: Seq<Row>, k: int)
    requires
        0 <= k < rows.len(),
    ensures
        row_views(rows.remove(k)) == row_views(rows).remove(k),
{
    assert(row_views(rows.remove(k)) =~= row_views(rows).remove(k));
}

/// Puts `row` where display order wants it.
fn insert_sorted(rows: &mut Vec<Row>, row: Row)
    requires
        sorted(row_views(old(rows)@)),
        keys_distinct(row_views(old(rows)@)),
        forall|i: int| 0 <= i < old(rows)@.len() ==> keys_differ(#[trigger] old(rows)@[i]@, row@),
    ensures
        exists|p: int|
            0 <= p <= old(rows)@.len() && row_views(final(rows)@) == row_views(old(rows)@).insert(
                p,
                row@,
            ),
        sorted(row_views(final(rows)@)),
        keys_distinct(row_views(final(rows)@)),
{
    let ghost before = row_views(rows@);
    let mut i: usize = 0;
    while i < rows.len() && row_precedes(&rows[i], &row)
        invariant
            i <= rows@.len(),
            before == row_views(rows@),
            forall|j: int| 0 <= j < i ==> row_before(#[trigger] rows@[j]@, row@),
        decreases rows@.len() - i,
    {
        i = i + 1;
    }
    proof {
        if i < rows@.len() {
            assert(!row_before(rows@[i as int]@, row@));
            lemma_row_before_total(rows@[i as int]@, row@);
        }
    }
    let ghost rv = row@;
    proof {
        lemma_views_insert(rows@, i as int, row);
    }
    rows.insert(i, row);
    let ghost after = row_views(rows@);
    assert(after == before.insert(i as int, rv));
    assert forall|a: int, b: int| 0 <= a < b < after.len() implies row_before(
        #[trigger] after[a],
        #[trigger] after[b],
    ) by {
        if b < i {
        } else if b == i {
            assert(after[a] == before[a]);
        } else if a < i {
            assert(after[b] == before[b - 1]);
            if i < before.len() {
                lemma_row_before_transitive(after[a], rv, before[i as int]);
                if b - 1 > i {
                    lemma_row_before_transitive(after[a], before[i as int], before[b - 1]);
                }
            }
        } else if a == i {
            assert(after[b] == before[b - 1]);
            if b - 1 > i {
                lemma_row_before_transitive(rv, before[i as int], before[b - 1]);
            }
        } else {
            assert(after[a] == before[a - 1]);
            assert(after[b] == before[b - 1]);
        }
    }
    assert forall|a: int, b: int|
        0 <= a < after.len() && 0 <= b < after.len() && a != b implies keys_differ(
        #[trigger] after[a],
        #[trigger] after[b],
    ) by {
        if a != i && b != i {
            let a0 = if a < i { a } else { a - 1 };
            let b0 = if b < i { b } else { b - 1 };
            assert(after[a] == before[a0]);
            assert(after[b] == before[b0]);
        } else if a == i {
            let b0 = if b < i { b } else { b - 1 };
            assert(after[b] == before[b0]);
            assert(before[b0] == old(rows)@[b0]@);
        } else {
            let a0 = if a < i { a } else { a - 1 };
            assert(after[a] == before[a0]);
            assert(before[a0] == old(rows)@[a0]@);
        }
    }
}

/// The row with path `path`, if any.
pub open spec fn row_with_path(rows: Seq<RowView>, path: Seq<PartView>) -> Option<int> {
    if exists|k: int| 0 <= k < rows.len() && rows[k].path == path {
        Some(choose|k: int| 0 <= k < rows.len() && rows[k].path == path)
    } else {
        None
    }
}

/// A freshly found row: not sized yet, numbered `sequence` in find order.
pub open spec fn found_row(artifact: Artifact, sequence: nat) -> RowView {
    RowView {
        matcher_id: artifact.matcher_id@,
        path: artifact.path@,
        bytes: None,
        last_modified: None,
        sequence,
    }
}

/// `row` with its size and newest modification time known.
pub open spec fn sized_row(row: RowView, bytes: u64, last_modified: Option<Timestamp>) -> RowView {
    RowView { bytes: Some(bytes), last_modified, ..row }
}

/// The rows and the find-order counter alone changed.
pub open spec fn rows_changed(before: AppView, after: AppView) -> bool {
    &&& after.root == before.root
    &&& after.errors == before.errors
    &&& after.done == before.done
}

/// How taking in `event` changes the table state.
pub open spec fn applied(before: AppView, after: AppView, event: ScanEvent) -> bool {
    match event {
        ScanEvent::Found { artifact } => match row_with_path(before.rows, artifact.path@) {
            Some(_) => after == before,
            None => {
                &&& rows_changed(before, after)
                &&& after.selected == (if before.selected is None {
                    Some(0nat)
                } else {
                    before.selected
                })
                &&& after.next_sequence == before.next_sequence + 1
                &&& exists|p: int|
                    0 <= p <= before.rows.len() && after.rows == #[trigger] before.rows.insert(
                        p,
                        found_row(artifact, before.next_sequence),
                    )
            },
        },
        ScanEvent::Sized { artifact, bytes, last_modified } => match row_with_path(
            before.rows,
            artifact.path@,
        ) {
            None => after == before,
            Some(k) => {
                &&& rows_changed(before, after)
                &&& after.selected == before.selected
                &&& after.next_sequence == before.next_sequence
                &&& exists|p: int|
                    0 <= p < before.rows.len() && after.rows == #[trigger] before.rows.remove(k).insert(
                        p,
                        sized_row(before.rows[k], bytes, last_modified),
                    )
            },
        },
        ScanEvent::WalkError { path, reason } => after == AppView {
            errors: before.errors.push((path@, reason@)),
            ..before
        },
        ScanEvent::Done => after == AppView { done: true, ..before },
    }
}

/// The selection once the table is down to `new_len` rows: it stays on
/// the same index, moves up to the last row when it pointed past the end,
/// and goes away with the last row.
pub open spec fn selection_after_removal(selected: Option<nat>, new_len: nat) -> Option<nat> {
    match selected {
        Some(s) => if new_len == 0 {
            None
        } else if s >= new_len {
            Some((new_len - 1) as nat)
        } else {
            Some(s)
        },
        None => None,
    }
}

/// How removing the row with `path` changes the table state: that row
/// leaves, the others keep their order, and the selection follows; a path
/// not in the table changes nothing.
pub open spec fn removed(before: AppView, after: AppView, path: Seq<PartView>) -> bool {
    match row_with_path(before.rows, path) {
        None => after == before,
        Some(k) => after == AppView {
            rows: before.rows.remove(k),
            selected: selection_after_removal(before.selected, (before.rows.len() - 1) as nat),
            ..before
        },
    }
}

/// How taking in the end of a deletion changes the table state: a deleted
/// artifact leaves the table; otherwise its row takes the size and time of
/// the fresh tally, as a `Sized` event would.
pub open spec fn deletion_settled(before: AppView, after: AppView, result: DeleteResult) -> bool {
    match result.outcome {
        DeleteOutcome::Deleted => removed(before, after, result.artifact.path@),
        _ => match result.rescan {
            Some(report) => applied(
                before,
                after,
                ScanEvent::Sized {
                    artifact: result.artifact,
                    bytes: report.bytes,
                    last_modified: report.last_modified,
                },
            ),
            None => after == before,
        },
    }
}

/// Removing one row keeps the display order and the distinct keys.
proof fn lemma_remove_keeps_order(rows: Seq<RowView>, k: int)
    requires
        0 <= k < rows.len(),
        sorted(rows),
        keys_distinct(rows),
    ensures
        sorted(rows.remove(k)),
        keys_distinct(rows.remove(k)),
{
    let rest = rows.remove(k);
    assert forall|i: int, j: int| 0 <= i < j < rest.len() implies row_before(
        #[trigger] rest[i],
        #[trigger] rest[j],
    ) by {
        let i0 = if i < k { i } else { i + 1 };
        let j0 = if j < k { j } else { j + 1 };
        assert(rest[i] == rows[i0]);
        assert(rest[j] == rows[j0]);
    }
    assert forall|i: int, j: int|
        0 <= i < rest.len() && 0 <= j < rest.len() && i != j implies keys_differ(
        #[trigger] rest[i],
        #[trigger] rest[j],
    ) by {
        let i0 = if i < k { i } else { i + 1 };
        let j0 = if j < k { j } else { j + 1 };
        assert(rest[i] == rows[i0]);
        assert(rest[j] == rows[j0]);
    }
}

/// Whether the find-order counter can number one more row.
pub open spec fn can_take(v: AppView, event: ScanEvent) -> bool {
    event matches ScanEvent::Found { artifact } && row_with_path(v.rows, artifact.path@) is None
        ==> v.next_sequence < usize::MAX
}

/// The clamped selection after moving the cursor by `delta`.
pub open spec fn moved_selection(v: AppView, delta: i32) -> Option<nat> {
    let current = match v.selected {
        Some(s) => s as int,
        None => 0,
    };
    let target = current + delta;
    Some(
        (if target < 0 {
            0
        } else if target > v.rows.len() - 1 {
            v.rows.len() - 1
        } else {
            target
        }) as nat,
    )
}

/// Moving the cursor by `delta` stays within the cursor's integer range.
pub open spec fn cursor_move_defined(v: AppView, delta: i32) -> bool {
    v.done && v.rows.len() > 0 ==> {
        &&& v.rows.len() <= i32::MAX
        &&& i32::MIN <= (match v.selected {
            Some(s) => s as int,
            None => 0,
        }) + delta <= i32::MAX
    }
}

pub open spec fn bytes_total(rows: Seq<RowView>) -> int
    decreases rows.len(),
{
    if rows.len() == 0 {
        0
    } else {
        bytes_total(rows.drop_last()) + match rows.last().bytes {
            Some(b) => b as int,
            None => 0,
        }
    }
}

impl Table {
    fn new(root: Location) -> (r: Table)
        ensures
            r@.root == root@,
            r@.rows.len() == 0,
            r@.errors.len() == 0,
            !r@.done,
            r@.selected is None,
            r@.next_sequence == 0,
            well_formed(r@),
    {
        let r = Table {
            root,
            rows: Vec::new(),
            errors: Vec::new(),
            done: false,
            selected: None,
            next_sequence: 0,
        };
        assert(row_views(r.rows@) =~= Seq::<RowView>::empty());
        assert(r@.errors =~= Seq::<(Seq<PartView>, Seq<char>)>::empty());
        r
    }

    fn selected_index(&self) -> (r: Option<usize>)
        ensures
            selection_view(r) == self@.selected,
    {
        self.selected
    }

    fn find_row(&self, path: &Location) -> (r: Option<usize>)
        requires
            well_formed(self@),
        ensures
            match r {
                Some(k) => row_with_path(self@.rows, path@) == Some(k as int),
                None => row_with_path(self@.rows, path@) is None,
            },
    {
        let mut i: usize = 0;
        while i < self.rows.len()
            invariant
                i <= self.rows@.len(),
                well_formed(self@),
                forall|j: int| 0 <= j < i ==> (#[trigger] self@.rows[j]).path != path@,
            decreases self.rows@.len() - i,
        {
            if self.rows[i].artifact.path.same(path) {
                proof {
                    let rows = self@.rows;
                    assert(rows[i as int].path == path@);
                    let k = choose|k: int| 0 <= k < rows.len() && rows[k].path == path@;
                    if k != i {
                        assert(keys_differ(rows[k], rows[i as int]));
                    }
                }
                return Some(i);
            }
            i = i + 1;
        }
        None
    }

    /// Takes in one scan event.
    fn apply(&mut self, event: ScanEvent)
        requires
            well_formed(old(self)@),
            can_take(old(self)@, event),
        ensures
            well_formed(final(self)@),
            applied(old(self)@, final(self)@, event),
    {
        match event {
            ScanEvent::Found { artifact } => self.insert_row(artifact),
            ScanEvent::Sized { artifact, bytes, last_modified } => self.size_row(
                &artifact,
                bytes,
                last_modified,
            ),
            ScanEvent::WalkError { path, reason } => {
                let ghost before = self@;
                let ghost entry = (path@, reason@);
                self.errors.push(ScanError { path, reason });
                assert(self@.errors =~= before.errors.push(entry));
                assert(self@ =~= AppView { errors: before.errors.push(entry), ..before });
            },
            ScanEvent::Done => {
                let ghost before = self@;
                self.done = true;
                assert(self@ =~= AppView { done: true, ..before });
            },
        }
    }

    fn insert_row(&mut self, artifact: Artifact)
        requires
            well_formed(old(self)@),
            row_with_path(old(self)@.rows, artifact.path@) is None ==> old(self)@.next_sequence
                < usize::MAX,
        ensures
            well_formed(final(self)@),
            applied(old(self)@, final(self)@, ScanEvent::Found { artifact }),
    {
        let ghost before = self@;
        let ghost spec_artifact = artifact;
        match self.find_row(&artifact.path) {
            Some(_) => {
                return;
            },
            None => {},
        }
        if self.selected.is_none() {
            self.selected = Some(0);
        }
        let row = Row { artifact, bytes: None, last_modified: None, sequence: self.next_sequence };
        assert(row@ == found_row(spec_artifact, before.next_sequence));
        proof {
            assert forall|i: int| 0 <= i < self.rows@.len() implies keys_differ(
                #[trigger] self.rows@[i]@,
                row@,
            ) by {
                assert(self.rows@[i]@ == before.rows[i]);
                if before.rows[i].path == row@.path {
                    assert(row_with_path(before.rows, spec_artifact.path@) is Some);
                }
            }
        }
        insert_sorted(&mut self.rows, row);
        self.next_sequence = self.next_sequence + 1;
        proof {
            let p = choose|p: int|
                0 <= p <= before.rows.len() && row_views(self.rows@) == before.rows.insert(
                    p,
                    found_row(spec_artifact, before.next_sequence),
                );
            let after = self@;
            assert forall|i: int| 0 <= i < after.rows.len() implies (#[trigger] after.rows[i]).sequence
                < after.next_sequence by {
                if i < p {
                    assert(after.rows[i] == before.rows[i]);
                } else if i > p {
                    assert(after.rows[i] == before.rows[i - 1]);
                }
            }
        }
    }

    fn size_row(&mut self, artifact: &Artifact, bytes: u64, last_modified: Option<Timestamp>)
        requires
            well_formed(old(self)@),
        ensures
            well_formed(final(self)@),
            applied(
                old(self)@,
                final(self)@,
                ScanEvent::Sized { artifact: *artifact, bytes, last_modified },
            ),
    {
        let ghost before = self@;
        let k = match self.find_row(&artifact.path) {
            Some(k) => k,
            None => {
                return;
            },
        };
        proof {
            lemma_views_remove(self.rows@, k as int);
        }
        let mut row = self.rows.remove(k);
        let ghost rest = before.rows.remove(k as int);
        assert(row_views(self.rows@) == rest);
        row.bytes = Some(bytes);
        row.last_modified = last_modified;
        let ghost updated = sized_row(before.rows[k as int], bytes, last_modified);
        assert(row@ == updated);
        proof {
            assert forall|i: int, j: int| 0 <= i < j < rest.len() implies row_before(
                #[trigger] rest[i],
                #[trigger] rest[j],
            ) by {
                let i0 = if i < k { i } else { i + 1 };
                let j0 = if j < k { j } else { j + 1 };
                assert(rest[i] == before.rows[i0]);
                assert(rest[j] == before.rows[j0]);
            }
            assert forall|i: int, j: int|
                0 <= i < rest.len() && 0 <= j < rest.len() && i != j implies keys_differ(
                #[trigger] rest[i],
                #[trigger] rest[j],
            ) by {
                let i0 = if i < k { i } else { i + 1 };
                let j0 = if j < k { j } else { j + 1 };
                assert(rest[i] == before.rows[i0]);
                assert(rest[j] == before.rows[j0]);
            }
            assert forall|i: int| 0 <= i < self.rows@.len() implies keys_differ(
                #[trigger] self.rows@[i]@,
                row@,
            ) by {
                let i0 = if i < k { i } else { i + 1 };
                assert(self.rows@[i]@ == rest[i]);
                assert(rest[i] == before.rows[i0]);
            }
        }
        insert_sorted(&mut self.rows, row);
        proof {
            let p = choose|p: int|
                0 <= p <= rest.len() && row_views(self.rows@) == rest.insert(p, updated);
            let after = self@;
            assert forall|i: int| 0 <= i < after.rows.len() implies (#[trigger] after.rows[i]).sequence
                < after.next_sequence by {
                if i < p {
                    assert(after.rows[i] == rest[i]);
                    let i0 = if i < k { i } else { i + 1 };
                    assert(rest[i] == before.rows[i0]);
                } else if i > p {
                    assert(after.rows[i] == rest[i - 1]);
                    let i0 = if i - 1 < k { i - 1 } else { i };
                    assert(rest[i - 1] == before.rows[i0]);
                }
            }
        }
    }

    /// Takes the row with `path` out of the table.
    fn remove_row(&mut self, path: &Location)
        requires
            well_formed(old(self)@),
        ensures
            well_formed(final(self)@),
            removed(old(self)@, final(self)@, path@),
    {
        let ghost before = self@;
        let k = match self.find_row(path) {
            Some(k) => k,
            None => {
                return;
            },
        };
        proof {
            lemma_views_remove(self.rows@, k as int);
            lemma_remove_keeps_order(before.rows, k as int);
        }
        let _gone = self.rows.remove(k);
        let len = self.rows.len();
        self.selected = match self.selected {
            Some(s) => if len == 0 {
                None
            } else if s >= len {
                Some(len - 1)
            } else {
                Some(s)
            },
            None => None,
        };
        let ghost rest = before.rows.remove(k as int);
        assert(self@.rows == rest);
        assert forall|i: int| 0 <= i < rest.len() implies (#[trigger] rest[i]).sequence
            < before.next_sequence by {
            let i0 = if i < k { i } else { i + 1 };
            assert(rest[i] == before.rows[i0]);
        }
        assert(self@ =~= AppView {
            rows: rest,
            selected: selection_after_removal(before.selected, (before.rows.len() - 1) as nat),
            ..before
        });
    }

    /// Takes in how deleting an artifact ended: a deleted artifact leaves
    /// the table, any other keeps its row with the size of what is left.
    fn settle_deletion(&mut self, result: DeleteResult)
        requires
            well_formed(old(self)@),
        ensures
            well_formed(final(self)@),
            deletion_settled(old(self)@, final(self)@, result),
    {
        let DeleteResult { artifact, outcome, rescan } = result;
        match outcome {
            DeleteOutcome::Deleted => self.remove_row(&artifact.path),
            _ => match rescan {
                Some(report) => self.size_row(&artifact, report.bytes, report.last_modified),
                None => {},
            },
        }
    }

    /// Moves the selection by `delta` rows, clamped to the table; only once
    /// the scan is over and there is a row.
    fn move_cursor(&mut self, delta: i32)
        requires
            well_formed(old(self)@),
            cursor_move_defined(old(self)@, delta),
        ensures
            well_formed(final(self)@),
            (old(self)@.done && old(self)@.rows.len() > 0) ==> final(self)@ == (AppView {
                selected: moved_selection(old(self)@, delta),
                ..old(self)@
            }),
            !(old(self)@.done && old(self)@.rows.len() > 0) ==> final(self)@ == old(self)@,
    {
        if !self.done {
            return;
        }
        if self.rows.len() == 0 {
            return;
        }
        let current: usize = match self.selected {
            Some(s) => s,
            None => 0,
        };
        let top: i32 = (self.rows.len() as i32) - 1;
        let target: i32 = (current as i32) + delta;
        let next: i32 = if target < 0 {
            0
        } else if target > top {
            top
        } else {
            target
        };
        let ghost before = self@;
        self.selected = Some(next as usize);
        assert(self@ =~= AppView { selected: moved_selection(before, delta), ..before });
    }

    fn root(&self) -> (r: &Location)
        ensures
            r@ == self@.root,
    {
        &self.root
    }

    fn rows(&self) -> (r: &[Row])
        ensures
            row_views(r@) == self@.rows,
    {
        self.rows.as_slice()
    }

    fn is_empty(&self) -> (r: bool)
        ensures
            r == (self@.rows.len() == 0),
    {
        self.rows.len() == 0
    }

    fn error_count(&self) -> (r: usize)
        ensures
            r == self@.errors.len(),
    {
        self.errors.len()
    }

    /// The find-order number the next new row gets.
    fn next_sequence(&self) -> (r: usize)
        ensures
            r == self@.next_sequence,
    {
        self.next_sequence
    }

    fn is_done(&self) -> (r: bool)
        ensures
            r == self@.done,
    {
        self.done
    }

    /// The bytes of all sized rows.
    fn total_bytes(&self) -> (r: u64)
        requires
            bytes_total(self@.rows) <= u64::MAX,
        ensures
            r == bytes_total(self@.rows),
    {
        let ghost rows = self@.rows;
        let mut total: u64 = 0;
        let mut i: usize = 0;
        while i < self.rows.len()
            invariant
                i <= rows.len(),
                rows == row_views(self.rows@),
                bytes_total(rows) <= u64::MAX,
                total == bytes_total(rows.take(i as int)),
            decreases rows.len() - i,
        {
            assert(rows.take(i + 1).drop_last() =~= rows.take(i as int));
            proof {
                lemma_bytes_total_prefix(rows, i + 1);
            }
            match self.rows[i].bytes {
                Some(b) => {
                    total = total + b;
                },
                None => {},
            }
            i = i + 1;
        }
        assert(rows.take(i as int) =~= rows);
        total
    }
}

/// The state behind the result table, kept well formed at all times.
pub struct App {
    table: Table,
}

impl App {
    #[verifier::type_invariant]
    spec fn table_well_formed(self) -> bool {
        well_formed(self.table@)
    }
}

impl View for App {
    type V = AppView;

    closed spec fn view(&self) -> AppView {
        self.table@
    }
}

impl App {
    pub fn new(root: Location) -> (r: App)
        ensures
            r@.root == root@,
            r@.rows.len() == 0,
            r@.errors.len() == 0,
            !r@.done,
            r@.selected is None,
            r@.next_sequence == 0,
            well_formed(r@),
    {
        App { table: Table::new(root) }
    }

    pub fn selected_index(&self) -> (r: Option<usize>)
        ensures
            selection_view(r) == self@.selected,
            well_formed(self@),
    {
        proof {
            use_type_invariant(self);
        }
        self.table.selected_index()
    }

    /// Takes in one scan event.
    pub fn apply(&mut self, event: ScanEvent)
        requires
            can_take(old(self)@, event),
        ensures
            well_formed(final(self)@),
            applied(old(self)@, final(self)@, event),
    {
        proof {
            use_type_invariant(&*self);
        }
        let mut table = Table::new(Location::empty());
        std::mem::swap(&mut table, &mut self.table);
        table.apply(event);
        self.table = table;
    }

    /// Takes the row with `path` out of the table.
    pub fn remove_row(&mut self, path: &Location)
        ensures
            well_formed(final(self)@),
            removed(old(self)@, final(self)@, path@),
    {
        proof {
            use_type_invariant(&*self);
        }
        let mut table = Table::new(Location::empty());
        std::mem::swap(&mut table, &mut self.table);
        table.remove_row(path);
        self.table = table;
    }

    /// Takes in how deleting an artifact ended: a deleted artifact leaves
    /// the table, any other keeps its row with the size of what is left.
    pub fn settle_deletion(&mut self, result: DeleteResult)
        ensures
            well_formed(final(self)@),
            deletion_settled(old(self)@, final(self)@, result),
    {
        proof {
            use_type_invariant(&*self);
        }
        let mut table = Table::new(Location::empty());
        std::mem::swap(&mut table, &mut self.table);
        table.settle_deletion(result);
        self.table = table;
    }

    /// Moves the selection by `delta` rows, clamped to the table; only once
    /// the scan is over and there is a row.
    pub fn move_cursor(&mut self, delta: i32)
        requires
            cursor_move_defined(old(self)@, delta),
        ensures
            well_formed(final(self)@),
            (old(self)@.done && old(self)@.rows.len() > 0) ==> final(self)@ == (AppView {
                selected: moved_selection(old(self)@, delta),
                ..old(self)@
            }),
            !(old(self)@.done && old(self)@.rows.len() > 0) ==> final(self)@ == old(self)@,
    {
        proof {
            use_type_invariant(&*self);
        }
        let mut table = Table::new(Location::empty());
        std::mem::swap(&mut table, &mut self.table);
        table.move_cursor(delta);
        self.table = table;
    }

    pub fn root(&self) -> (r: &Location)
        ensures
            r@ == self@.root,
    {
        self.table.root()
    }

    pub fn rows(&self) -> (r: &[Row])
        ensures
            row_views(r@) == self@.rows,
            well_formed(self@),
    {
        proof {
            use_type_invariant(self);
        }
        self.table.rows()
    }

    pub fn is_empty(&self) -> (r: bool)
        ensures
            r == (self@.rows.len() == 0),
    {
        self.table.is_empty()
    }

    pub fn error_count(&self) -> (r: usize)
        ensures
            r == self@.errors.len(),
    {
        self.table.error_count()
    }

    /// The find-order number the next new row gets.
    pub fn next_sequence(&self) -> (r: usize)
        ensures
            r == self@.next_sequence,
    {
        self.table.next_sequence()
    }

    pub fn is_done(&self) -> (r: bool)
        ensures
            r == self@.done,
    {
        self.table.is_done()
    }

    /// The bytes of all sized rows.
    pub fn total_bytes(&self) -> (r: u64)
        requires
            bytes_total(self@.rows) <= u64::MAX,
        ensures
            r == bytes_total(self@.rows),
    {
        self.table.total_bytes()
    }
}


proof fn lemma_bytes_total_prefix(rows: Seq<RowView>, n: int)
    requires
        0 <= n <= rows.len(),
    ensures
        0 <= bytes_total(rows.take(n)) <= bytes_total(rows),
    decreases rows.len(),
{
    if n < rows.len() {
        assert(rows.drop_last().take(n) =~= rows.take(n));
        lemma_bytes_total_prefix(rows.drop_last(), n);
    } else {
        assert(rows.take(n) =~= rows);
    }
    lemma_bytes_total_nonneg(rows);
}

proof fn lemma_bytes_total_nonneg(rows: Seq<RowView>)
    ensures
        bytes_total(rows) >= 0,
    decreases rows.len(),
{
    if rows.len() > 0 {
        lemma_bytes_total_nonneg(rows.drop_last());
    }
}

/// The paths in the table.
pub open spec fn listed(rows: Seq<RowView>, path: Seq<PartView>) -> bool {
    exists|i: int| 0 <= i < rows.len() && (#[trigger] rows[i]).path == path
}

/// Rows are never lost: every path in the table before an event is still
/// there after it, and the table never shrinks.
pub proof fn lemma_rows_persist(before: AppView, after: AppView, event: ScanEvent)
    requires
        applied(before, after, event),
    ensures
        after.rows.len() >= before.rows.len(),
        forall|path: Seq<PartView>| listed(before.rows, path) ==> listed(after.rows, path),
{
    match event {
        ScanEvent::Found { artifact } => {
            if row_with_path(before.rows, artifact.path@) is None {
                let p = choose|p: int|
                    0 <= p <= before.rows.len() && after.rows == #[trigger] before.rows.insert(
                        p,
                        found_row(artifact, before.next_sequence),
                    );
                assert forall|path: Seq<PartView>| listed(before.rows, path) implies listed(
                    after.rows,
                    path,
                ) by {
                    let i = choose|i: int| 0 <= i < before.rows.len() && (#[trigger] before.rows[i]).path == path;
                    if i < p {
                        assert(after.rows[i] == before.rows[i]);
                    } else {
                        assert(after.rows[i + 1] == before.rows[i]);
                    }
                }
            }
        },
        ScanEvent::Sized { artifact, bytes, last_modified } => {
            if let Some(k) = row_with_path(before.rows, artifact.path@) {
                let updated = sized_row(before.rows[k], bytes, last_modified);
                let rest = before.rows.remove(k);
                let p = choose|p: int|
                    0 <= p < before.rows.len() && after.rows == #[trigger] before.rows.remove(k).insert(
                        p,
                        updated,
                    );
                assert forall|path: Seq<PartView>| listed(before.rows, path) implies listed(
                    after.rows,
                    path,
                ) by {
                    let i = choose|i: int| 0 <= i < before.rows.len() && (#[trigger] before.rows[i]).path == path;
                    if i == k {
                        assert(after.rows[p] == updated);
                    } else {
                        let r = if i < k { i } else { i - 1 };
                        assert(rest[r] == before.rows[i]);
                        if r < p {
                            assert(after.rows[r] == rest[r]);
                        } else {
                            assert(after.rows[r + 1] == rest[r]);
                        }
                    }
                }
            }
        },
        _ => {},
    }
}

/// A path found twice is taken in once: after `Found` for an artifact, a
/// second `Found` for the same path leaves the table as the first left it.
pub proof fn lemma_found_twice(
    before: AppView,
    middle: AppView,
    after: AppView,
    first: Artifact,
    second: Artifact,
)
    requires
        applied(before, middle, ScanEvent::Found { artifact: first }),
        applied(middle, after, ScanEvent::Found { artifact: second }),
        second.path@ == first.path@,
    ensures
        after == middle,
{
    if row_with_path(before.rows, first.path@) is None {
        let p = choose|p: int|
            0 <= p <= before.rows.len() && middle.rows == #[trigger] before.rows.insert(
                p,
                found_row(first, before.next_sequence),
            );
        assert(middle.rows[p].path == first.path@);
    }
    assert(row_with_path(middle.rows, second.path@) is Some);
}

/// A deleted artifact leaves the table: once its deletion is settled, no
/// row has its path, and the table holds one row fewer if it listed it.
pub proof fn lemma_deleted_leaves(before: AppView, after: AppView, result: DeleteResult)
    requires
        well_formed(before),
        result.outcome is Deleted,
        deletion_settled(before, after, result),
    ensures
        !listed(after.rows, result.artifact.path@),
        after.rows.len() == if listed(before.rows, result.artifact.path@) {
            before.rows.len() - 1
        } else {
            before.rows.len() as int
        },
{
    let path = result.artifact.path@;
    match row_with_path(before.rows, path) {
        None => {
            if listed(before.rows, path) {
                let i = choose|i: int| 0 <= i < before.rows.len() && (#[trigger] before.rows[i]).path == path;
                assert(before.rows[i].path == path);
            }
        },
        Some(k) => {
            assert(before.rows[k].path == path);
            assert(listed(before.rows, path));
            if listed(after.rows, path) {
                let i = choose|i: int| 0 <= i < after.rows.len() && (#[trigger] after.rows[i]).path == path;
                let i0 = if i < k { i } else { i + 1 };
                assert(after.rows[i] == before.rows[i0]);
                assert(keys_differ(before.rows[i0], before.rows[k]));
            }
        },
    }
}

/// A tally replaces what the table knew of an artifact's size: after a
/// `Sized` event for a listed path, the one row with that path shows
/// exactly the reported bytes and modification time, whatever it showed
/// before, and keeps its matcher and find order.
pub proof fn lemma_sized_row_shows_report(
    before: AppView,
    after: AppView,
    artifact: Artifact,
    bytes: u64,
    last_modified: Option<Timestamp>,
)
    requires
        well_formed(before),
        well_formed(after),
        listed(before.rows, artifact.path@),
        applied(before, after, ScanEvent::Sized { artifact, bytes, last_modified }),
    ensures
        listed(after.rows, artifact.path@),
        after.rows.len() == before.rows.len(),
        forall|i: int, j: int|
            0 <= i < after.rows.len() && 0 <= j < before.rows.len() && (#[trigger] after.rows[i]).path
                == artifact.path@ && (#[trigger] before.rows[j]).path == artifact.path@ ==> {
                &&& after.rows[i].bytes == Some(bytes)
                &&& after.rows[i].last_modified == last_modified
                &&& after.rows[i].matcher_id == before.rows[j].matcher_id
                &&& after.rows[i].sequence == before.rows[j].sequence
            },
{
    let path = artifact.path@;
    let i0 = choose|i: int| 0 <= i < before.rows.len() && (#[trigger] before.rows[i]).path == path;
    assert(before.rows[i0].path == path);
    let k = row_with_path(before.rows, path)->0;
    let updated = sized_row(before.rows[k], bytes, last_modified);
    let p = choose|p: int|
        0 <= p < before.rows.len() && after.rows == #[trigger] before.rows.remove(k).insert(p, updated);
    assert(after.rows[p] == updated);
    assert forall|i: int, j: int|
        0 <= i < after.rows.len() && 0 <= j < before.rows.len() && (#[trigger] after.rows[i]).path
            == path && (#[trigger] before.rows[j]).path == path implies {
            &&& after.rows[i].bytes == Some(bytes)
            &&& after.rows[i].last_modified == last_modified
            &&& after.rows[i].matcher_id == before.rows[j].matcher_id
            &&& after.rows[i].sequence == before.rows[j].sequence
        } by {
        if i != p {
            assert(keys_differ(after.rows[i], after.rows[p]));
        }
        if j != k {
            assert(keys_differ(before.rows[j], before.rows[k]));
        }
    }
}

/// The display order of a well-formed table: every sized row comes before
/// every row still being sized; sized rows run from largest to smallest,
/// rows of equal size by path; rows still being sized run in the order
/// they were found.
pub proof fn lemma_display_order(v: AppView, i: int, j: int)
    requires
        well_formed(v),
        0 <= i < j < v.rows.len(),
    ensures
        v.rows[i].bytes is None ==> v.rows[j].bytes is None,
        (v.rows[i].bytes is Some && v.rows[j].bytes is Some) ==> (v.rows[i].bytes->0
            > v.rows[j].bytes->0 || (v.rows[i].bytes->0 == v.rows[j].bytes->0 && path_less(
            v.rows[i].path,
            v.rows[j].path,
        ))),
        v.rows[i].bytes is None ==> v.rows[i].sequence < v.rows[j].sequence,
{
    assert(row_before(v.rows[i], v.rows[j]));
}

/// The byte total adds up: the total of two runs of rows is the sum of
/// their totals, a sized row counts its bytes and a row still being sized
/// counts nothing.
pub proof fn lemma_bytes_total_adds(a: Seq<RowView>, b: Seq<RowView>)
    ensures
        bytes_total(a + b) == bytes_total(a) + bytes_total(b),
        forall|r: RowView| #[trigger] bytes_total(seq![r]) == match r.bytes {
            Some(x) => x as int,
            None => 0,
        },
    decreases b.len(),
{
    assert forall|r: RowView| #[trigger] bytes_total(seq![r]) == match r.bytes {
        Some(x) => x as int,
        None => 0,
    } by {
        assert(seq![r].drop_last() =~= Seq::<RowView>::empty());
        assert(bytes_total(Seq::<RowView>::empty()) == 0);
        assert(seq![r].last() == r);
    }
    if b.len() == 0 {
        assert(a + b =~= a);
    } else {
        lemma_bytes_total_adds(a, b.drop_last());
        assert((a + b).drop_last() =~= a + b.drop_last());
        assert((a + b).last() == b.last());
    }
}

/// A newly found path joins the table once: the table grows by exactly
/// one row, listed under that path and matcher, not yet sized, numbered
/// next in find order; every other row stays, and a row is selected.
pub proof fn lemma_found_adds_one_row(before: AppView, after: AppView, artifact: Artifact)
    requires
        !listed(before.rows, artifact.path@),
        applied(before, after, ScanEvent::Found { artifact }),
    ensures
        after.rows.len() == before.rows.len() + 1,
        exists|i: int|
            0 <= i < after.rows.len() && (#[trigger] after.rows[i]).path == artifact.path@
                && after.rows[i].matcher_id == artifact.matcher_id@ && after.rows[i].bytes is None
                && after.rows[i].last_modified is None && after.rows[i].sequence
                == before.next_sequence,
        after.next_sequence == before.next_sequence + 1,
        after.selected is Some,
        forall|path: Seq<PartView>| listed(before.rows, path) ==> listed(after.rows, path),
{
    if row_with_path(before.rows, artifact.path@) is Some {
        let k = row_with_path(before.rows, artifact.path@)->0;
        assert(before.rows[k].path == artifact.path@);
    }
    let p = choose|p: int|
        0 <= p <= before.rows.len() && after.rows == #[trigger] before.rows.insert(
            p,
            found_row(artifact, before.next_sequence),
        );
    assert(after.rows[p] == found_row(artifact, before.next_sequence));
    lemma_rows_persist(before, after, ScanEvent::Found { artifact });
}

/// Removing a row keeps the highlight in place: the highlighted index
/// stays while a row is still there, moves up to the new last row when it
/// was the last one, and goes away with the last row; the rows before the
/// removed one keep their places.
pub proof fn lemma_removal_keeps_highlight(before: AppView, after: AppView, path: Seq<PartView>)
    requires
        well_formed(before),
        listed(before.rows, path),
        removed(before, after, path),
    ensures
        after.rows.len() == before.rows.len() - 1,
        before.selected is Some && before.selected->0 < after.rows.len() ==> after.selected
            == before.selected,
        before.selected is Some && before.selected->0 == after.rows.len() && after.rows.len() > 0
            ==> after.selected == Some((after.rows.len() - 1) as nat),
        after.rows.len() == 0 ==> after.selected is None,
        forall|i: int|
            0 <= i < before.rows.len() && (forall|j: int| 0 <= j <= i ==> (#[trigger] before.rows[j]).path
                != path) ==> after.rows[i] == before.rows[i],
{
    let i0 = choose|i: int| 0 <= i < before.rows.len() && (#[trigger] before.rows[i]).path == path;
    assert(before.rows[i0].path == path);
    let k = row_with_path(before.rows, path)->0;
    assert forall|i: int|
        0 <= i < before.rows.len() && (forall|j: int| 0 <= j <= i ==> (#[trigger] before.rows[j]).path
            != path) implies after.rows[i] == before.rows[i] by {
        if i >= k {
            assert(before.rows[k].path == path);
        }
    }
}

} // verus!
