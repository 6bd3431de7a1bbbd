//! The result table: its state, its layout arithmetic, the text it shows,
//! and what the keys do.
pub mod app;
pub mod format;
pub mod view;

use vstd::prelude::*;
use app::{cursor_move_defined, row_views, well_formed, App, AppView};
use crate::location::Location;
use crate::matcher::Artifact;

verus! {

/// A key, as far as the table cares.
#[derive(Clone, Copy, Debug, PartialEq, Eq, Structural)]
pub enum Key {
    Char(char),
    Up,
    Down,
    Enter,
    Other,
}

/// Something the terminal reported.
#[derive(Clone, Copy, Debug, PartialEq, Eq, Structural)]
pub enum Input {
    /// A key event: the key, whether Control was held, and whether the key
    /// was released rather than pressed.
    Key { key: Key, ctrl: bool, release: bool },
    /// Anything else.
    Other,
}

/// The key quits: `q`, or Control-C.
pub open spec fn quits(key: Key, ctrl: bool) -> bool {
    (ctrl && key == Key::Char('c')) || key == Key::Char('q')
}

/// How far the key moves the selection: `j` and Down one row on, `k` and
/// Up one row back.
pub open spec fn key_delta(key: Key) -> Option<i32> {
    if key == Key::Char('j') || key == Key::Down {
        Some(1i32)
    } else if key == Key::Char('k') || key == Key::Up {
        Some(-1i32)
    } else {
        None
    }
}

/// A key press on the table: the result tells whether to quit; keys that
/// move the selection move it. What a key asks to be done outside the
/// table is `key_action`'s.
pub fn handle_key(app: &mut App, key: Key, ctrl: bool) -> (r: bool)
    requires
        key_defined(old(app)@, key, ctrl),
    ensures
        key_taken(old(app)@, final(app)@, key, ctrl, r),
{
    if ctrl && key == Key::Char('c') {
        return true;
    }
    match key {
        Key::Char('q') => true,
        Key::Char('j') | Key::Down => {
            app.move_cursor(1);
            false
        },
        Key::Char('k') | Key::Up => {
            app.move_cursor(-1);
            false
        },
        _ => false,
    }
}

/// `Space` and `Enter` delete the highlighted folder, at once and without
/// asking.
pub open spec fn deletes(key: Key) -> bool {
    key == Key::Char(' ') || key == Key::Enter
}

/// `o` opens the highlighted folder in the file manager.
pub open spec fn opens(key: Key) -> bool {
    key == Key::Char('o')
}

/// What a key asks to be done with the highlighted folder, outside the
/// table.
#[derive(Debug)]
pub enum KeyAction {
    /// Delete this artifact.
    Delete(Artifact),
    /// Open this folder in the file manager.
    Open(Location),
}

/// The action a key asks for: deleting or opening the highlighted row's
/// folder, and nothing when no row is highlighted or the key asks for
/// neither.
pub open spec fn action_asked(v: AppView, key: Key, r: Option<KeyAction>) -> bool {
    match v.selected {
        Some(s) => if deletes(key) {
            r matches Some(KeyAction::Delete(a)) && a.matcher_id@ == v.rows[s as int].matcher_id
                && a.path@ == v.rows[s as int].path
        } else if opens(key) {
            r matches Some(KeyAction::Open(p)) && p@ == v.rows[s as int].path
        } else {
            r is None
        },
        None => r is None,
    }
}

/// What a key press asks to be done with the highlighted folder. The
/// table state itself is left to `handle_key`, which these keys do not
/// change.
pub fn key_action(app: &App, key: Key) -> (r: Option<KeyAction>)
    ensures
        action_asked(app@, key, r),
{
    let delete = match key {
        Key::Char(' ') | Key::Enter => true,
        Key::Char('o') => false,
        _ => {
            return None;
        },
    };
    let s = match app.selected_index() {
        Some(s) => s,
        None => {
            return None;
        },
    };
    let rows = app.rows();
    assert(row_views(rows@)[s as int] == rows@[s as int]@);
    let row = &rows[s];
    if delete {
        Some(KeyAction::Delete(row.artifact.duplicate()))
    } else {
        Some(KeyAction::Open(row.artifact.path.duplicate()))
    }
}

/// Taking in the key keeps the cursor within its integer range.
pub open spec fn key_defined(v: AppView, key: Key, ctrl: bool) -> bool {
    (!quits(key, ctrl) && key_delta(key) is Some) ==> cursor_move_defined(v, key_delta(key)->0)
}

pub open spec fn input_defined(v: AppView, input: Input) -> bool {
    match input {
        Input::Key { key, ctrl, release } => !release ==> key_defined(v, key, ctrl),
        Input::Other => true,
    }
}

/// A key press taken in: the result tells whether it quits, and only
/// moving keys change the state.
pub open spec fn key_taken(before: AppView, after: AppView, key: Key, ctrl: bool, quit: bool) -> bool {
    &&& quit == quits(key, ctrl)
    &&& (quits(key, ctrl) || key_delta(key) is None) ==> after == before
    &&& (!quits(key, ctrl) && key_delta(key) is Some) ==> moved(before, after, key_delta(key)->0)
}

/// `after` is `before` with the cursor moved by `delta`.
pub open spec fn moved(before: AppView, after: AppView, delta: i32) -> bool {
    if before.done && before.rows.len() > 0 {
        after == (AppView { selected: app::moved_selection(before, delta), ..before })
    } else {
        after == before
    }
}

/// What the terminal reported, taken in: key releases and other events are
/// ignored; the result tells whether to quit.
pub fn on_input(app: &mut App, input: Input) -> (r: bool)
    requires
        input_defined(old(app)@, input),
    ensures
        match input {
            Input::Key { key, ctrl, release } => if release {
                !r && final(app)@ == old(app)@
            } else {
                key_taken(old(app)@, final(app)@, key, ctrl, r)
            },
            Input::Other => !r && final(app)@ == old(app)@,
        },
{
    match input {
        Input::Key { key, ctrl, release } => {
            if release {
                false
            } else {
                handle_key(app, key, ctrl)
            }
        },
        Input::Other => false,
    }
}

/// The selection keys: `j` and Down move the selection one row on,
/// stopping at the last row; `k` and Up move it one row back, stopping at
/// the first. They never quit and change nothing but the selection, and
/// only once the scan is over and a row is listed; before that they
/// change nothing.
pub proof fn lemma_selection_keys(before: AppView, after: AppView, key: Key, ctrl: bool, quit: bool)
    requires
        well_formed(before),
        key == Key::Char('j') || key == Key::Down || key == Key::Char('k') || key == Key::Up,
        key_taken(before, after, key, ctrl, quit),
    ensures
        !quit,
        !(before.done && before.rows.len() > 0) ==> after == before,
        before.done && before.rows.len() > 0 ==> {
            let s = before.selected->0;
            &&& before.selected is Some
            &&& after == AppView { selected: after.selected, ..before }
            &&& (key == Key::Char('j') || key == Key::Down) ==> after.selected == Some(
                if s + 1 < before.rows.len() {
                    (s + 1) as nat
                } else {
                    s
                },
            )
            &&& (key == Key::Char('k') || key == Key::Up) ==> after.selected == Some(
                if s == 0 {
                    0
                } else {
                    (s - 1) as nat
                },
            )
        },
{
}

/// Quitting: `q`, and `c` with Control held, quit and leave the table as
/// it is; no other key quits.
pub proof fn lemma_quit_keys(before: AppView, after: AppView, key: Key, ctrl: bool, quit: bool)
    requires
        key_taken(before, after, key, ctrl, quit),
    ensures
        quit <==> (key == Key::Char('q') || (ctrl && key == Key::Char('c'))),
        quit ==> after == before,
{
}

/// The outside actions: with a row highlighted, Space and Enter ask to
/// delete that row's artifact, and `o` to open its folder; with no row
/// highlighted, or for any other key, nothing is asked.
pub proof fn lemma_action_keys(v: AppView, key: Key, r: Option<KeyAction>)
    requires
        well_formed(v),
        action_asked(v, key, r),
    ensures
        (key == Key::Char(' ') || key == Key::Enter) && v.rows.len() > 0 ==> (r matches Some(
            KeyAction::Delete(a),
        ) && a.path@ == v.rows[v.selected->0 as int].path && a.matcher_id@ == v.rows[v.selected->0 as int].matcher_id),
        key == Key::Char('o') && v.rows.len() > 0 ==> (r matches Some(KeyAction::Open(p)) && p@
            == v.rows[v.selected->0 as int].path),
        v.rows.len() == 0 || !(key == Key::Char(' ') || key == Key::Enter || key == Key::Char('o'))
            ==> r is None,
{
}

} // verus!
