//! Layout arithmetic of the result table.
use vstd::prelude::*;

verus! {

pub const PATH_MIN_WIDTH: u16 = 8;

pub const MATCHER_WIDTH: u16 = 13;

pub const MODIFIED_WIDTH: u16 = 10;

pub const SIZE_WIDTH: u16 = 12;

pub const HIGHLIGHT_WIDTH: u16 = 2;

pub const COLUMN_SPACING: u16 = 1;

pub const COLUMN_GAP_COUNT: u16 = 3;

/// What the path column gets of a table `width` cells wide: whatever the
/// highlight mark, the fixed columns and the gaps between columns leave.
pub open spec fn path_width(width: u16) -> nat {
    let taken = HIGHLIGHT_WIDTH + MATCHER_WIDTH + MODIFIED_WIDTH + SIZE_WIDTH + COLUMN_GAP_COUNT
        * COLUMN_SPACING;
    if width >= taken {
        (width - taken) as nat
    } else {
        0
    }
}

pub fn path_column_width(width: u16) -> (r: usize)
    ensures
        r == path_width(width),
{
    width.saturating_sub(
        HIGHLIGHT_WIDTH + MATCHER_WIDTH + MODIFIED_WIDTH + SIZE_WIDTH + COLUMN_GAP_COUNT
            * COLUMN_SPACING,
    ) as usize
}

/// The first row shown: the previous first row (kept within the table),
/// moved just enough for the selected row to be among the `visible` rows
/// shown (at least one).
pub open spec fn scroll_start(scroll: nat, len: nat, selection: Option<nat>, visible: nat) -> nat {
    let start = if scroll < len - 1 { scroll } else { (len - 1) as nat };
    let window = if visible > 1 { visible } else { 1 };
    match selection {
        None => start,
        Some(s) => if s < start {
            s
        } else if s >= start + window {
            (s + 1 - window) as nat
        } else {
            start
        },
    }
}

/// The first shown row plus the window stays within `usize`, where the
/// selection lies at or after the first shown row.
pub open spec fn window_fits(scroll: nat, len: nat, selection: Option<nat>, visible: nat) -> bool {
    let start = if scroll < len - 1 { scroll } else { (len - 1) as nat };
    let window = if visible > 1 { visible } else { 1 };
    selection matches Some(s) && s >= start ==> start + window <= usize::MAX
}

pub open spec fn opt_nat(o: Option<usize>) -> Option<nat> {
    match o {
        Some(x) => Some(x as nat),
        None => None,
    }
}

pub fn scrolled_start(scroll: usize, len: usize, selection: Option<usize>, visible_rows: usize) -> (r: usize)
    requires
        len >= 1,
        window_fits(scroll as nat, len as nat, opt_nat(selection), visible_rows as nat),
    ensures
        r == scroll_start(scroll as nat, len as nat, opt_nat(selection), visible_rows as nat),
{
    let mut start: usize = if scroll < len - 1 { scroll } else { len - 1 };
    let selected = match selection {
        Some(s) => s,
        None => {
            return start;
        },
    };
    if selected < start {
        return selected;
    }
    let window: usize = if visible_rows > 1 { visible_rows } else { 1 };
    if selected >= start + window {
        start = selected - window + 1;
    }
    start
}

/// One past the last row shown.
pub fn window_end(start: usize, visible_rows: usize, len: usize) -> (r: usize)
    ensures
        r == (if start + visible_rows < len { start + visible_rows } else { len as int }),
{
    if visible_rows < len && start < len - visible_rows {
        start + visible_rows
    } else {
        len
    }
}

/// The spinner shown while scanning turns one step every 200 milliseconds
/// through `|`, `/`, `-`, `\`.
pub open spec fn spinner_at(elapsed_millis: u128) -> char {
    let step = (elapsed_millis / 200) % 4;
    if step == 0 {
        '|'
    } else if step == 1 {
        '/'
    } else if step == 2 {
        '-'
    } else {
        '\\'
    }
}

pub fn spinner_frame(elapsed_millis: u128) -> (r: char)
    ensures
        r == spinner_at(elapsed_millis),
{
    let step: u128 = elapsed_millis / 200 % 4;
    if step == 0 {
        '|'
    } else if step == 1 {
        '/'
    } else if step == 2 {
        '-'
    } else {
        '\\'
    }
}

/// Scrolling keeps the selected row in view and moves no more than it has
/// to: the selected row lies among the `visible` rows shown (at least
/// one) from the new first row; when the previous first row (kept within
/// the table) already showed it, the view stays; otherwise the selected row
/// ends up at the edge of the view it came in from. With no selection the
/// view stays.
pub proof fn lemma_scroll_keeps_selection_visible(
    scroll: nat,
    len: nat,
    selection: Option<nat>,
    visible: nat,
)
    requires
        len >= 1,
    ensures
        ({
            let r = scroll_start(scroll, len, selection, visible);
            let previous = if scroll < len { scroll } else { (len - 1) as nat };
            let window = if visible == 0 { 1 } else { visible };
            &&& selection is None ==> r == previous
            &&& selection matches Some(s) ==> {
                &&& r <= s < r + window
                &&& previous <= s < previous + window ==> r == previous
                &&& s < previous ==> r == s
                &&& s >= previous + window ==> s == r + window - 1
            }
        }),
{
}

} // verus!
