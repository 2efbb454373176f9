use ttd::app::{
    handle_key, save_step, settle_conflict, AppAction, AppMode, AppState, ConflictChoice,
    EditorState, FocusArea, SaveStep, SelectedTask,
};
use ttd::task::TaskId;

fn id(name: &str) -> TaskId {
    TaskId {
        file_name: name.to_string(),
    }
}

#[test]
fn welcome_keys_edit_and_submit_the_path() {
    let mut app = AppState::new(AppMode::Welcome);
    assert!(handle_key(&mut app, "/").is_none());
    assert!(handle_key(&mut app, "x").is_none());
    assert!(handle_key(&mut app, "y").is_none());
    assert!(handle_key(&mut app, "backspace").is_none());
    assert_eq!(app.welcome_input, "/x");
    assert!(matches!(
        handle_key(&mut app, "enter"),
        Some(AppAction::SubmitWelcomePath(ref p)) if p == "/x"
    ));
    assert!(app.welcome_input.is_empty());
    handle_key(&mut app, "esc");
    assert!(app.should_quit);
}

#[test]
fn main_keys_name_commands() {
    let mut app = AppState::new(AppMode::Main);
    assert!(matches!(handle_key(&mut app, "j"), Some(AppAction::MoveDown)));
    assert!(matches!(handle_key(&mut app, "gg"), Some(AppAction::MoveTop)));
    assert!(matches!(handle_key(&mut app, "G"), Some(AppAction::MoveBottom)));
    assert!(matches!(handle_key(&mut app, "x"), Some(AppAction::ToggleDone)));
    assert!(handle_key(&mut app, "tab").is_none());
    assert_eq!(app.focus, FocusArea::TaskList);
    assert!(handle_key(&mut app, "d").is_none());
    assert!(!app.confirm_delete);
    assert!(handle_key(&mut app, "q").is_none());
    assert!(app.should_quit);
}

#[test]
fn search_keys_type_the_query() {
    let mut app = AppState::new(AppMode::Main);
    handle_key(&mut app, "/");
    assert!(app.search_active);
    assert!(matches!(handle_key(&mut app, "a"), Some(AppAction::AppendToSearch('a'))));
    assert!(matches!(handle_key(&mut app, "b"), Some(AppAction::AppendToSearch('b'))));
    assert!(matches!(handle_key(&mut app, "backspace"), Some(AppAction::BackspaceSearch)));
    assert_eq!(app.search_query, "a");
    assert!(matches!(handle_key(&mut app, "ctrl+n"), Some(AppAction::NextSearchResult)));
    assert!(handle_key(&mut app, "enter").is_none());
    assert!(!app.search_active);
    assert_eq!(app.search_query, "a");
    assert!(matches!(handle_key(&mut app, "esc"), Some(AppAction::Cancel)));
    assert!(app.search_query.is_empty());
}

#[test]
fn editor_and_delete_keys() {
    let mut app = AppState::new(AppMode::Main);
    app.selected_task = Some(SelectedTask::with_original_raw(
        id("a.txt"),
        "Call".to_string(),
        "Call".to_string(),
    ));
    handle_key(&mut app, "e");
    assert_eq!(app.editor.as_ref().unwrap().raw_line, "Call");
    handle_key(&mut app, "!");
    assert_eq!(app.editor.as_ref().unwrap().raw_line, "Call!");
    assert!(matches!(handle_key(&mut app, "enter"), Some(AppAction::SubmitEditor)));
    handle_key(&mut app, "esc");
    assert!(app.editor.is_none());
    handle_key(&mut app, "d");
    assert!(app.confirm_delete);
    assert!(matches!(handle_key(&mut app, "y"), Some(AppAction::OpenSelected)));
    assert!(handle_key(&mut app, "n").is_none());
    assert!(!app.confirm_delete);
}

#[test]
fn conflict_keys_choose_how_to_settle() {
    let mut app = AppState::new(AppMode::Main);
    app.save_conflict = true;
    assert!(matches!(
        handle_key(&mut app, "o"),
        Some(AppAction::ResolveConflict(ConflictChoice::OverwriteExternal))
    ));
    assert!(matches!(
        handle_key(&mut app, "esc"),
        Some(AppAction::ResolveConflict(ConflictChoice::Cancel))
    ));
    assert!(handle_key(&mut app, "j").is_none());
}

#[test]
fn save_step_creates_writes_or_reports_a_conflict() {
    let new_line = EditorState {
        raw_line: "New".to_string(),
        task_id: None,
    };
    assert!(matches!(save_step(&new_line, &None, ""), SaveStep::Create(ref l) if l == "New"));
    let edit = EditorState {
        raw_line: "Edited".to_string(),
        task_id: Some(id("a.txt")),
    };
    let selected = Some(SelectedTask::with_original_raw(
        id("a.txt"),
        "Old".to_string(),
        "Old".to_string(),
    ));
    assert!(matches!(
        save_step(&edit, &selected, "Old"),
        SaveStep::Write(ref i, ref l) if i.file_name == "a.txt" && l == "Edited"
    ));
    assert!(matches!(save_step(&edit, &selected, "Changed elsewhere"), SaveStep::Conflict));
}

#[test]
fn settle_conflict_closes_it() {
    let mut app = AppState::new(AppMode::Main);
    app.save_conflict = true;
    app.editor = Some(EditorState {
        raw_line: "Mine".to_string(),
        task_id: Some(id("a.txt")),
    });
    assert!(settle_conflict(&mut app, ConflictChoice::Cancel).is_none());
    assert!(!app.save_conflict);
    assert!(app.editor.is_some());
    app.save_conflict = true;
    let taken = settle_conflict(&mut app, ConflictChoice::OverwriteExternal).unwrap();
    assert_eq!(taken.raw_line, "Mine");
    assert!(app.editor.is_none());
}
