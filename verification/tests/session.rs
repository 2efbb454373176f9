use ttd::app::{
    app_accepts_compound_tokens, AppAction, AppMode, AppState, ConflictChoice, EditorState, FocusArea,
};
use ttd::session::{SidebarItem, Snapshot, StoreRequest, TuiSession};
use ttd::smartlist::{parse_list, SmartList};
use ttd::task::{StoredTask, Task, TaskId};

fn task(name: &str, raw: &str, done: bool, projects: &[&str], contexts: &[&str], due: Option<&str>) -> StoredTask {
    StoredTask {
        id: TaskId {
            file_name: name.to_string(),
        },
        task: Task {
            raw: raw.to_string(),
            done,
            priority: None,
            completion_date: None,
            creation_date: None,
            description: raw.to_string(),
            projects: projects.iter().map(|p| p.to_string()).collect(),
            contexts: contexts.iter().map(|c| c.to_string()).collect(),
            tags: due
                .map(|d| vec![("due".to_string(), d.to_string())])
                .unwrap_or_default(),
        },
    }
}

fn snapshot() -> Snapshot {
    Snapshot {
        open_tasks: vec![
            task("a.txt", "Pay rent +Home due:2026-03-28", false, &["Home"], &[], Some("2026-03-28")),
            task("b.txt", "Call Mom @phone due:2026-03-29", false, &[], &["phone"], Some("2026-03-29")),
            task("c.txt", "Read book +Fun", false, &["Fun"], &[], None),
        ],
        done_tasks: vec![task("d.txt", "x File taxes +Home", true, &["Home"], &[], None)],
    }
}

fn lists() -> Vec<SmartList> {
    vec![
        parse_list("---\nname: Today\n---\ndue <= today\n", "today.list"),
        parse_list("---\nname: Done\n---\ndone\n", "done.list"),
    ]
}

fn names(session: &TuiSession) -> Vec<String> {
    session
        .visible_tasks()
        .iter()
        .map(|t| t.id.file_name.clone())
        .collect()
}

fn open() -> TuiSession {
    TuiSession::open(snapshot(), lists(), "2026-03-29")
}

#[test]
fn welcome_session_is_empty_and_not_refreshable() {
    let session = TuiSession::welcome("2026-03-29");
    assert_eq!(session.app().mode, AppMode::Welcome);
    assert!(session.sidebar_items().is_empty());
    assert!(session.visible_tasks().is_empty());
    assert!(session.selected_task().is_none());
    assert_eq!(session.active_sidebar_item(), SidebarItem::SmartList(0));
    assert!(!session.can_auto_refresh());
}

#[test]
fn open_builds_the_sidebar() {
    let session = open();
    assert_eq!(
        session.sidebar_items(),
        &[
            SidebarItem::SmartList(0),
            SidebarItem::SmartList(1),
            SidebarItem::Separator,
            SidebarItem::ProjectsHeader,
            SidebarItem::Project("+Fun".to_string()),
            SidebarItem::Project("+Home".to_string()),
            SidebarItem::Separator,
            SidebarItem::ContextsHeader,
            SidebarItem::Context("@phone".to_string()),
        ]
    );
    assert_eq!(session.active_sidebar_item(), SidebarItem::SmartList(0));
    assert!(session.can_auto_refresh());
    assert_eq!(session.smart_lists().len(), 2);
    assert_eq!(session.smart_list_for_active().unwrap().name, "Today");
}

#[test]
fn open_shows_the_first_list_and_selects_its_first_task() {
    let session = open();
    assert_eq!(names(&session), vec!["a.txt", "b.txt"]);
    assert_eq!(session.selected_task().unwrap().id.file_name, "a.txt");
    let selected = session.app().selected_task.as_ref().unwrap();
    assert_eq!(selected.id.file_name, "a.txt");
    assert_eq!(selected.raw, "Pay rent +Home due:2026-03-28");
    assert_eq!(session.visible_groups().len(), 1);
    assert_eq!(session.visible_groups()[0].tasks.len(), 2);
}

#[test]
fn project_entry_shows_open_and_done_tasks_with_the_project() {
    let mut session = open();
    session.select_sidebar_item(SidebarItem::Project("+Home".to_string()));
    assert_eq!(names(&session), vec!["a.txt", "d.txt"]);
    assert!(session.smart_list_for_active().is_none());
    assert_eq!(session.visible_groups()[0].label, "");
    session.select_sidebar_item(SidebarItem::Context("@phone".to_string()));
    assert_eq!(names(&session), vec!["b.txt"]);
}

#[test]
fn done_list_reads_done_tasks() {
    let mut session = open();
    session.select_sidebar_item(SidebarItem::SmartList(1));
    assert_eq!(names(&session), vec!["d.txt"]);
}

#[test]
fn headers_show_nothing() {
    let mut session = open();
    session.select_sidebar_item(SidebarItem::ProjectsHeader);
    assert!(session.visible_tasks().is_empty());
    assert!(session.selected_task().is_none());
    assert!(session.app().selected_task.is_none());
}

#[test]
fn moving_in_the_sidebar_skips_headers() {
    let mut session = open();
    assert_eq!(session.app().focus, FocusArea::Sidebar);
    session.dispatch_key(Some(AppAction::MoveDown));
    assert_eq!(session.active_sidebar_item(), SidebarItem::SmartList(1));
    session.dispatch_key(Some(AppAction::MoveDown));
    assert_eq!(session.active_sidebar_item(), SidebarItem::Project("+Fun".to_string()));
    session.dispatch_key(Some(AppAction::MoveBottom));
    assert_eq!(session.active_sidebar_item(), SidebarItem::Context("@phone".to_string()));
    session.dispatch_key(Some(AppAction::MoveDown));
    assert_eq!(session.active_sidebar_item(), SidebarItem::Context("@phone".to_string()));
    session.dispatch_key(Some(AppAction::MoveTop));
    assert_eq!(session.active_sidebar_item(), SidebarItem::SmartList(0));
    session.dispatch_key(Some(AppAction::MoveUp));
    assert_eq!(session.active_sidebar_item(), SidebarItem::SmartList(0));
}

#[test]
fn moving_in_the_task_list_stops_at_the_ends() {
    let mut session = open();
    session.app_mut().focus = FocusArea::TaskList;
    session.dispatch_key(Some(AppAction::MoveDown));
    assert_eq!(session.selected_task().unwrap().id.file_name, "b.txt");
    session.dispatch_key(Some(AppAction::MoveDown));
    assert_eq!(session.selected_task().unwrap().id.file_name, "b.txt");
    session.dispatch_key(Some(AppAction::MoveUp));
    assert_eq!(session.selected_task().unwrap().id.file_name, "a.txt");
    session.dispatch_key(Some(AppAction::MoveBottom));
    assert_eq!(session.selected_task().unwrap().id.file_name, "b.txt");
    session.dispatch_key(Some(AppAction::MoveTop));
    assert_eq!(session.selected_task().unwrap().id.file_name, "a.txt");
    assert_eq!(session.app().selected_task.as_ref().unwrap().id.file_name, "a.txt");
}

#[test]
fn search_filters_ignoring_case_and_keeps_the_selection() {
    let mut session = open();
    session.app_mut().focus = FocusArea::TaskList;
    session.dispatch_key(Some(AppAction::MoveDown));
    session.app_mut().search_query = "MOM".to_string();
    session.dispatch_key(Some(AppAction::AppendToSearch('M')));
    assert_eq!(names(&session), vec!["b.txt"]);
    assert_eq!(session.selected_task().unwrap().id.file_name, "b.txt");
    session.app_mut().search_query = String::new();
    session.dispatch_key(Some(AppAction::BackspaceSearch));
    assert_eq!(names(&session), vec!["a.txt", "b.txt"]);
    assert_eq!(session.selected_task().unwrap().id.file_name, "b.txt");
}

#[test]
fn search_results_wrap_around() {
    let mut session = open();
    session.app_mut().search_query = "due".to_string();
    session.dispatch_key(Some(AppAction::Cancel));
    assert_eq!(names(&session), vec!["a.txt", "b.txt"]);
    session.dispatch_key(Some(AppAction::PreviousSearchResult));
    assert_eq!(session.selected_task().unwrap().id.file_name, "b.txt");
    session.dispatch_key(Some(AppAction::NextSearchResult));
    assert_eq!(session.selected_task().unwrap().id.file_name, "a.txt");
}

#[test]
fn search_result_keys_do_nothing_without_a_query() {
    let mut session = open();
    session.dispatch_key(Some(AppAction::NextSearchResult));
    assert_eq!(session.selected_task().unwrap().id.file_name, "a.txt");
}

#[test]
fn store_actions_come_back_as_requests() {
    let mut session = open();
    assert!(matches!(
        session.dispatch_key(Some(AppAction::ToggleDone)),
        StoreRequest::MarkDone(ref id, ref day) if id.file_name == "a.txt" && day == "2026-03-29"
    ));
    assert!(matches!(
        session.dispatch_key(Some(AppAction::RestoreCompleted)),
        StoreRequest::Nothing
    ));
    assert!(matches!(
        session.dispatch_key(Some(AppAction::OpenSelected)),
        StoreRequest::Nothing
    ));
    session.app_mut().confirm_delete = true;
    assert!(!session.can_auto_refresh());
    assert!(matches!(
        session.dispatch_key(Some(AppAction::OpenSelected)),
        StoreRequest::Delete(ref id) if id.file_name == "a.txt"
    ));
    assert!(matches!(session.dispatch_key(Some(AppAction::Refresh)), StoreRequest::Reload));
    assert!(matches!(
        session.dispatch_key(Some(AppAction::SubmitEditor)),
        StoreRequest::SaveEditor
    ));
    assert!(matches!(session.dispatch_key(None), StoreRequest::Nothing));
    assert!(matches!(
        session.dispatch_key(Some(AppAction::ResolveConflict(ConflictChoice::OverwriteExternal))),
        StoreRequest::ResolveConflict(ConflictChoice::OverwriteExternal)
    ));
}

#[test]
fn restore_is_asked_for_done_tasks_only() {
    let mut session = open();
    session.select_sidebar_item(SidebarItem::SmartList(1));
    assert!(matches!(
        session.dispatch_key(Some(AppAction::RestoreCompleted)),
        StoreRequest::Restore(ref id) if id.file_name == "d.txt"
    ));
    assert!(matches!(
        session.dispatch_key(Some(AppAction::ToggleDone)),
        StoreRequest::Nothing
    ));
}

#[test]
fn welcome_path_is_taken_only_with_paths() {
    let mut session = TuiSession::welcome("2026-03-30");
    assert!(matches!(
        session.dispatch_key(Some(AppAction::SubmitWelcomePath("/tmp/todo".to_string()))),
        StoreRequest::Nothing
    ));
    assert!(matches!(
        session.dispatch_key_with_paths(Some(AppAction::SubmitWelcomePath("   ".to_string()))),
        StoreRequest::Nothing
    ));
    assert!(matches!(
        session.dispatch_key_with_paths(Some(AppAction::SubmitWelcomePath("  /tmp/todo.txt.d ".to_string()))),
        StoreRequest::OpenTaskDir(ref p) if p == "/tmp/todo.txt.d"
    ));
}

#[test]
fn refresh_keeps_the_selected_task_where_it_moved() {
    let mut session = open();
    session.app_mut().focus = FocusArea::TaskList;
    session.dispatch_key(Some(AppAction::MoveDown));
    let mut next = snapshot();
    next.open_tasks.insert(
        0,
        task("z.txt", "New thing due:2026-03-20", false, &[], &[], Some("2026-03-20")),
    );
    session.refresh(next);
    assert_eq!(names(&session), vec!["z.txt", "a.txt", "b.txt"]);
    assert_eq!(session.selected_task().unwrap().id.file_name, "b.txt");
}

#[test]
fn refresh_falls_back_to_the_old_position() {
    let mut session = open();
    session.app_mut().focus = FocusArea::TaskList;
    session.dispatch_key(Some(AppAction::MoveDown));
    let mut next = snapshot();
    next.open_tasks.remove(1);
    session.refresh(next);
    assert_eq!(names(&session), vec!["a.txt"]);
    assert_eq!(session.selected_task().unwrap().id.file_name, "a.txt");
}

#[test]
fn refresh_moves_off_an_entry_that_disappeared() {
    let mut session = open();
    session.select_sidebar_item(SidebarItem::Context("@phone".to_string()));
    let mut next = snapshot();
    next.open_tasks.remove(1);
    session.refresh(next);
    assert_eq!(session.active_sidebar_item(), SidebarItem::SmartList(0));
}

#[test]
fn finish_delete_closes_the_confirmation() {
    let mut session = open();
    session.app_mut().confirm_delete = true;
    let mut next = snapshot();
    next.open_tasks.remove(0);
    session.finish_delete(next);
    assert!(!session.app().confirm_delete);
    assert_eq!(names(&session), vec!["b.txt"]);
}

#[test]
fn finish_editor_save_selects_the_new_task() {
    let mut session = open();
    let editor = EditorState {
        raw_line: "Buy milk due:2026-03-29".to_string(),
        task_id: None,
    };
    let parsed = task("", "Buy milk due:2026-03-29", false, &[], &[], Some("2026-03-29")).task;
    let mut next = snapshot();
    next.open_tasks.push(task("n.txt", "Buy milk due:2026-03-29", false, &[], &[], Some("2026-03-29")));
    session.finish_editor_save(&editor, &parsed, next);
    assert_eq!(names(&session), vec!["a.txt", "b.txt", "n.txt"]);
    assert_eq!(session.selected_task().unwrap().id.file_name, "n.txt");
}

#[test]
fn app_state_new_accepts_compound_tokens_only_in_main() {
    assert!(app_accepts_compound_tokens(&AppState::new(AppMode::Main)));
    assert!(!app_accepts_compound_tokens(&AppState::new(AppMode::Welcome)));
    let mut app = AppState::new(AppMode::Main);
    app.search_active = true;
    assert!(!app_accepts_compound_tokens(&app));
}

#[test]
fn project_entry_ranks_its_tasks() {
    let snapshot = Snapshot {
        open_tasks: vec![
            task("b.txt", "Bravo +p", false, &["p"], &[], None),
            task("a.txt", "Alpha +p", false, &["p"], &[], None),
        ],
        done_tasks: Vec::new(),
    };
    let mut session = TuiSession::open(snapshot, Vec::new(), "2026-03-29");
    session.select_sidebar_item(SidebarItem::Project("+p".to_string()));
    assert_eq!(names(&session), vec!["a.txt", "b.txt"]);
}

#[test]
fn poll_refresh_reloads_only_changes_when_allowed() {
    let mut session = open();
    assert!(session.poll_refresh(true));
    assert!(!session.poll_refresh(false));
    session.app_mut().confirm_delete = true;
    assert!(!session.poll_refresh(true));
    assert!(!TuiSession::welcome("2026-03-29").poll_refresh(true));
}
