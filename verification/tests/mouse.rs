use ttd::mouse::{
    is_double_click, resolve_mouse_action, resolve_scroll_action, DoubleClickTracker, MouseAction,
    Rect, Rects,
};
use ttd::session::SidebarItem;

fn rects() -> Rects {
    Rects {
        sidebar: Rect {
            x: 0,
            y: 0,
            width: 24,
            height: 10,
        },
        task_pane: Rect {
            x: 24,
            y: 0,
            width: 56,
            height: 10,
        },
        sidebar_offset: 0,
    }
}

fn items() -> Vec<SidebarItem> {
    vec![
        SidebarItem::SmartList(0),
        SidebarItem::Separator,
        SidebarItem::ProjectsHeader,
        SidebarItem::Project("+Home".to_string()),
    ]
}

#[test]
fn rect_contains_its_border_but_not_past_it() {
    let r = Rect {
        x: 1,
        y: 2,
        width: 3,
        height: 4,
    };
    assert!(r.contains(1, 2));
    assert!(r.contains(3, 5));
    assert!(!r.contains(4, 2));
    assert!(!r.contains(1, 6));
    assert!(!r.contains(0, 2));
}

#[test]
fn click_on_a_sidebar_entry_selects_it() {
    assert_eq!(
        resolve_mouse_action(5, 1, &rects(), &items()),
        Some(MouseAction::SelectSidebar(0))
    );
    assert_eq!(
        resolve_mouse_action(5, 4, &rects(), &items()),
        Some(MouseAction::SelectSidebar(3))
    );
}

#[test]
fn click_on_headers_borders_or_past_the_entries_does_nothing() {
    assert_eq!(resolve_mouse_action(5, 2, &rects(), &items()), None);
    assert_eq!(resolve_mouse_action(5, 3, &rects(), &items()), None);
    assert_eq!(resolve_mouse_action(5, 0, &rects(), &items()), None);
    assert_eq!(resolve_mouse_action(5, 9, &rects(), &items()), None);
    assert_eq!(resolve_mouse_action(5, 6, &rects(), &items()), None);
}

#[test]
fn sidebar_offset_shifts_the_entry() {
    let mut r = rects();
    r.sidebar_offset = 2;
    assert_eq!(
        resolve_mouse_action(5, 2, &r, &items()),
        Some(MouseAction::SelectSidebar(3))
    );
}

#[test]
fn click_in_the_task_pane_gives_the_inner_row() {
    assert_eq!(
        resolve_mouse_action(30, 3, &rects(), &items()),
        Some(MouseAction::ClickTaskPane { row: 2 })
    );
    assert_eq!(resolve_mouse_action(30, 0, &rects(), &items()), None);
    assert_eq!(resolve_mouse_action(90, 3, &rects(), &items()), None);
}

#[test]
fn scroll_goes_to_the_pane_under_the_pointer() {
    assert_eq!(
        resolve_scroll_action(3, 3, &rects(), -1),
        Some(MouseAction::Scroll {
            in_task_pane: false,
            delta: -1
        })
    );
    assert_eq!(
        resolve_scroll_action(30, 3, &rects(), 1),
        Some(MouseAction::Scroll {
            in_task_pane: true,
            delta: 1
        })
    );
    assert_eq!(resolve_scroll_action(30, 30, &rects(), 1), None);
}

#[test]
fn double_click_needs_the_same_task_within_the_pause() {
    assert!(is_double_click(2, 2, 100));
    assert!(!is_double_click(2, 2, 500));
    assert!(!is_double_click(1, 2, 10));
}

#[test]
fn tracker_reports_a_quick_second_click_and_starts_over() {
    let mut tracker = DoubleClickTracker::new();
    assert!(!tracker.record(3));
    assert!(tracker.record(3));
    assert!(!tracker.record(3));
    assert!(!tracker.record(4));
}
