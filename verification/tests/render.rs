use ttd::mouse::Rect;
use ttd::app::FocusArea;
use ttd::render::{
    active_filter_title, centered_rect, compute_scroll_offset, editor_cursor, editor_cursor_fits,
    scroll_for_rows, sidebar_label, task_pane_lines, tasks_title, visual_line_count,
};
use ttd::session::{SidebarItem, Snapshot, TuiSession};
use ttd::task::{StoredTask, Task, TaskId};
use ttd::smartlist::parse_list;

fn lines(v: &[&str]) -> Vec<String> {
    v.iter().map(|s| s.to_string()).collect()
}

#[test]
fn no_scroll_without_selection_or_size() {
    let l = lines(&["a", "b", "c"]);
    assert_eq!(compute_scroll_offset(&l, None, 10, 2), 0);
    assert_eq!(compute_scroll_offset(&l, Some(2), 0, 2), 0);
    assert_eq!(compute_scroll_offset(&l, Some(2), 10, 0), 0);
    assert_eq!(compute_scroll_offset(&l, Some(3), 10, 2), 0);
}

#[test]
fn scroll_brings_the_selected_line_into_view() {
    let l = lines(&["a", "b", "c", "d", "e"]);
    assert_eq!(compute_scroll_offset(&l, Some(4), 10, 2), 3);
    assert_eq!(compute_scroll_offset(&l, Some(1), 10, 2), 0);
}

#[test]
fn wrapped_lines_count_their_rows() {
    let l = lines(&["Hello World", "x"]);
    assert_eq!(compute_scroll_offset(&l, Some(1), 10, 1), 2);
    assert_eq!(compute_scroll_offset(&l, Some(0), 20, 1), 0);
}

#[test]
fn scroll_for_rows_is_the_overshoot() {
    assert_eq!(scroll_for_rows(10, 4), 6);
    assert_eq!(scroll_for_rows(4, 10), 0);
    assert_eq!(scroll_for_rows(4, 4), 0);
}

#[test]
fn visual_line_count_rounds_up() {
    assert_eq!(visual_line_count("", 10), 1);
    assert_eq!(visual_line_count("abc", 0), 1);
    assert_eq!(visual_line_count("abcdefghij", 10), 1);
    assert_eq!(visual_line_count("abcdefghijk", 10), 2);
    assert_eq!(visual_line_count("ééé", 2), 2);
}

#[test]
fn centered_rect_is_in_the_middle() {
    let area = Rect {
        x: 0,
        y: 0,
        width: 80,
        height: 24,
    };
    assert_eq!(
        centered_rect(area, 52, 7),
        Rect {
            x: 14,
            y: 8,
            width: 52,
            height: 7
        }
    );
    let small = Rect {
        x: 0,
        y: 0,
        width: 40,
        height: 5,
    };
    assert_eq!(
        centered_rect(small, 68, 12),
        Rect {
            x: 0,
            y: 0,
            width: 40,
            height: 5
        }
    );
}

#[test]
fn centered_rect_leaves_the_odd_spare_cell_after_the_dialog() {
    let area = Rect {
        x: 3,
        y: 2,
        width: 81,
        height: 25,
    };
    assert_eq!(
        centered_rect(area, 40, 10),
        Rect {
            x: 23,
            y: 9,
            width: 40,
            height: 10
        }
    );
}

#[test]
fn sidebar_labels_and_titles() {
    let lists = vec![parse_list("---\nname: Today\n---\ndue <= today\n", "today.list")];
    assert_eq!(sidebar_label(&SidebarItem::SmartList(0), &lists), "Today");
    assert_eq!(sidebar_label(&SidebarItem::SmartList(3), &lists), "");
    assert_eq!(sidebar_label(&SidebarItem::Project("+Home".to_string()), &lists), "  +Home");
    assert_eq!(sidebar_label(&SidebarItem::ContextsHeader, &lists), "CONTEXTS");
    assert_eq!(sidebar_label(&SidebarItem::Separator, &lists), "──────────────────────");
    assert_eq!(active_filter_title(&SidebarItem::SmartList(0), &lists), "Today");
    assert_eq!(active_filter_title(&SidebarItem::SmartList(3), &lists), "Filters");
    assert_eq!(active_filter_title(&SidebarItem::Context("@phone".to_string()), &lists), "@phone");
    assert_eq!(active_filter_title(&SidebarItem::ProjectsHeader, &lists), "Projects");
}

#[test]
fn tasks_title_counts_the_tasks() {
    assert_eq!(tasks_title("Today", 3), "Today (3)");
    assert_eq!(tasks_title("+Home", 12), "+Home (12)");
    assert_eq!(tasks_title("Done", 0), "Done (0)");
}

#[test]
fn editor_cursor_on_the_line_and_on_a_shortcut() {
    let modal = Rect {
        x: 6,
        y: 6,
        width: 12,
        height: 12,
    };
    assert!(editor_cursor_fits("abc", 3, modal, None));
    assert_eq!(editor_cursor("abc", 3, modal, None), Some((10, 7)));
    assert_eq!(editor_cursor("abcdefghijkl", 12, modal, None), Some((9, 8)));
    assert_eq!(editor_cursor("abc", 3, modal, Some((3, 2))), Some((9, 14)));
    let narrow = Rect {
        x: 0,
        y: 0,
        width: 2,
        height: 5,
    };
    assert_eq!(editor_cursor("abc", 3, narrow, None), None);
}

fn stored(name: &str, raw: &str) -> StoredTask {
    StoredTask {
        id: TaskId {
            file_name: name.to_string(),
        },
        task: Task {
            raw: raw.to_string(),
            done: false,
            priority: None,
            completion_date: None,
            creation_date: None,
            description: raw.to_string(),
            projects: vec!["p".to_string()],
            contexts: Vec::new(),
            tags: Vec::new(),
        },
    }
}

#[test]
fn task_pane_lines_separate_tasks_and_mark_the_selection() {
    let snapshot = Snapshot {
        open_tasks: vec![stored("a.txt", "Alpha +p"), stored("b.txt", "Bravo +p")],
        done_tasks: Vec::new(),
    };
    let mut session = TuiSession::open(snapshot, Vec::new(), "2026-03-29");
    session.select_sidebar_item(SidebarItem::Project("+p".to_string()));
    session.app_mut().focus = FocusArea::TaskList;
    session.dispatch_key(Some(ttd::app::AppAction::MoveDown));
    let per_task = vec![
        vec!["Alpha +p".to_string()],
        vec!["Bravo +p".to_string(), "  more".to_string()],
    ];
    let (lines, selected) = task_pane_lines(&session, &per_task, 8);
    assert_eq!(lines, vec!["Alpha +p", "  ────", "Bravo +p", "  more"]);
    assert_eq!(selected, Some(3));

    session.app_mut().search_query = "p".to_string();
    let (lines, selected) = task_pane_lines(&session, &per_task, 8);
    assert_eq!(lines[0], "Search: p");
    assert_eq!(lines[1], "");
    assert_eq!(selected, Some(5));
}

#[test]
fn task_pane_of_an_empty_entry_says_so() {
    let session = TuiSession::welcome("2026-03-29");
    let (lines, selected) = task_pane_lines(&session, &Vec::new(), 20);
    assert_eq!(lines, vec!["No tasks in this view"]);
    assert_eq!(selected, None);
}
