//! Mouse input: which sidebar entry or task row a click lands on, where a
//! scroll happens, and when two clicks make a double click.
use vstd::prelude::*;
use crate::session::{selectable, SidebarItem, SidebarSpec, items_view};

verus! {

/// A rectangle of terminal cells, as the layout placed it.
#[derive(Debug, Clone, Copy, PartialEq, Eq, Structural)]
pub struct Rect {
    pub x: u16,
    pub y: u16,
    pub width: u16,
    pub height: u16,
}

/// `a + b`, saturating at `u16::MAX`.
pub open spec fn sat_add(a: u16, b: u16) -> int {
    if a + b > u16::MAX {
        u16::MAX as int
    } else {
        a + b
    }
}

/// Whether the cell is in the rectangle, its border included.
pub open spec fn inside(r: Rect, col: u16, row: u16) -> bool {
    col >= r.x && col < sat_add(r.x, r.width) && row >= r.y && row < sat_add(r.y, r.height)
}

impl Rect {
    /// Whether the cell at `col`, `row` is in the rectangle, its border
    /// included.
    pub fn contains(&self, col: u16, row: u16) -> (r: bool)
        ensures
            r == inside(*self, col, row),
    {
        col >= self.x && col < self.x.saturating_add(self.width) && row >= self.y && row
            < self.y.saturating_add(self.height)
    }
}

/// The areas of the last frame that clicks are resolved against.
#[derive(Debug, Clone, Copy, PartialEq, Eq, Structural)]
pub struct Rects {
    pub sidebar: Rect,
    pub task_pane: Rect,
    /// How many sidebar entries are scrolled out of view above the first
    /// row.
    pub sidebar_offset: usize,
}

/// What a mouse event asks for.
#[derive(Debug, Clone, Copy, PartialEq, Eq, Structural)]
pub enum MouseAction {
    SelectSidebar(usize),
    ClickTaskPane { row: usize },
    Scroll { in_task_pane: bool, delta: isize },
}

/// Whether the row is strictly inside the rectangle's top and bottom
/// borders.
pub open spec fn between_borders(r: Rect, row: u16) -> bool {
    row > r.y && row < sat_add(r.y, r.height) - 1
}

/// What a click at `col`, `row` asks for: the sidebar entry under it (not
/// on the border, not a header or separator, and one that exists), or the
/// row of the task pane under it (not on the border); nothing elsewhere.
pub open spec fn click_action(col: u16, row: u16, rects: Rects, items: Seq<SidebarSpec>) -> Option<MouseAction> {
    let sb = rects.sidebar;
    let tp = rects.task_pane;
    if inside(sb, col, row) {
        let index = row - sb.y - 1 + rects.sidebar_offset;
        if !between_borders(sb, row) || index >= items.len() || !selectable(items[index]) {
            None
        } else {
            Some(MouseAction::SelectSidebar(index as usize))
        }
    } else if inside(tp, col, row) {
        if !between_borders(tp, row) {
            None
        } else {
            Some(MouseAction::ClickTaskPane { row: (row - tp.y - 1) as usize })
        }
    } else {
        None
    }
}

/// The action for a click at `col`, `row`.
pub fn resolve_mouse_action(col: u16, row: u16, rects: &Rects, sidebar_items: &[SidebarItem]) -> (r:
    Option<MouseAction>)
    ensures
        r == click_action(col, row, *rects, items_view(sidebar_items@)),
{
    let sb = &rects.sidebar;
    if sb.contains(col, row) {
        let bottom = sb.y.saturating_add(sb.height);
        let last = if bottom == 0 {
            0
        } else {
            bottom - 1
        };
        if row <= sb.y || row >= last {
            return None;
        }
        let inner_row = (row - sb.y - 1) as usize;
        if rects.sidebar_offset >= sidebar_items.len() || inner_row >= sidebar_items.len()
            - rects.sidebar_offset {
            return None;
        }
        let index = inner_row + rects.sidebar_offset;
        assert(items_view(sidebar_items@)[index as int] == sidebar_items@[index as int]@);
        if sidebar_items[index].is_selectable() {
            return Some(MouseAction::SelectSidebar(index));
        } else {
            return None;
        }
    }
    let tp = &rects.task_pane;
    if tp.contains(col, row) {
        let bottom = tp.y.saturating_add(tp.height);
        let last = if bottom == 0 {
            0
        } else {
            bottom - 1
        };
        if row <= tp.y || row >= last {
            return None;
        }
        let inner_row = (row - tp.y - 1) as usize;
        return Some(MouseAction::ClickTaskPane { row: inner_row });
    }
    None
}

/// What a scroll of `delta` at `col`, `row` asks for: a scroll of the pane
/// under it; nothing elsewhere.
pub open spec fn scroll_action(col: u16, row: u16, rects: Rects, delta: isize) -> Option<MouseAction> {
    if inside(rects.sidebar, col, row) {
        Some(MouseAction::Scroll { in_task_pane: false, delta })
    } else if inside(rects.task_pane, col, row) {
        Some(MouseAction::Scroll { in_task_pane: true, delta })
    } else {
        None
    }
}

/// The action for a scroll of `delta` at `col`, `row`.
pub fn resolve_scroll_action(col: u16, row: u16, rects: &Rects, delta: isize) -> (r: Option<MouseAction>)
    ensures
        r == scroll_action(col, row, *rects, delta),
{
    if rects.sidebar.contains(col, row) {
        return Some(MouseAction::Scroll { in_task_pane: false, delta });
    }
    if rects.task_pane.contains(col, row) {
        return Some(MouseAction::Scroll { in_task_pane: true, delta });
    }
    None
}

/// A point in time.
#[verifier::external_type_specification]
#[verifier::external_body]
pub struct ExInstant(std::time::Instant);

/// The current time (`Instant::now`); nothing is known of its value.
#[verifier::external_body]
fn now() -> std::time::Instant {
    std::time::Instant::now()
}

/// The milliseconds since `t` (`Instant::elapsed`, then
/// `Duration::as_millis`); nothing is known of the value, which depends on
/// the clock.
#[verifier::external_body]
fn elapsed_millis(t: &std::time::Instant) -> u128 {
    t.elapsed().as_millis()
}

/// The longest pause, in milliseconds, between the two clicks of a double
/// click (exclusive).
pub const DOUBLE_CLICK_MILLIS: u128 = 500;

/// Whether a click on `task_index`, `elapsed_ms` milliseconds after a click
/// on `prev_index`, completes a double click.
pub fn is_double_click(prev_index: usize, task_index: usize, elapsed_ms: u128) -> (r: bool)
    ensures
        r == (prev_index == task_index && elapsed_ms < DOUBLE_CLICK_MILLIS),
{
    prev_index == task_index && elapsed_ms < DOUBLE_CLICK_MILLIS
}

/// Tells double clicks on a task apart from single clicks.
pub struct DoubleClickTracker {
    last_click: Option<(std::time::Instant, usize)>,
}

impl DoubleClickTracker {
    /// The task of the last click that did not complete a double click.
    pub closed spec fn last_index(&self) -> Option<usize> {
        match self.last_click {
            Some(c) => Some(c.1),
            None => None,
        }
    }

    /// A tracker that has seen no click.
    pub fn new() -> (r: DoubleClickTracker)
        ensures
            r.last_index() is None,
    {
        DoubleClickTracker { last_click: None }
    }

    /// Records a click on `task_index` and says whether it completes a
    /// double click: a click on the same task as the last one, less than
    /// 500 ms after it. A double click starts over; any other click becomes
    /// the last one.
    pub fn record(&mut self, task_index: usize) -> (r: bool)
        ensures
            r ==> old(self).last_index() == Some(task_index) && final(self).last_index() is None,
            !r ==> final(self).last_index() == Some(task_index),
    {
        if let Some((instant, prev_index)) = self.last_click.take() {
            if is_double_click(prev_index, task_index, elapsed_millis(&instant)) {
                return true;
            }
        }
        self.last_click = Some((now(), task_index));
        false
    }
}

} // verus!
