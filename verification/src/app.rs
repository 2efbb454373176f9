//! The interface state of the terminal UI that the session reads and
//! updates: the mode, the focused pane, the search, the editor, and the
//! selected task.
use vstd::prelude::*;
use crate::task::TaskId;
use crate::text::{chars_eq, chars_of, is_lit, push_char, string_of};
use vstd::string::StrSliceExecFns;

verus! {

/// Whether the UI asks for a task directory or shows the tasks.
#[derive(Debug, Clone, Copy, PartialEq, Eq, Structural)]
pub enum AppMode {
    Welcome,
    Main,
}

/// The pane that the navigation keys move in.
#[derive(Debug, Clone, Copy, PartialEq, Eq, Structural)]
pub enum FocusArea {
    Sidebar,
    TaskList,
}

/// How to settle a save that found the task changed on disk.
#[derive(Debug, Clone, Copy, PartialEq, Eq, Structural)]
pub enum ConflictChoice {
    ReloadExternal,
    OverwriteExternal,
    Cancel,
}

/// The line being edited, and the task it edits (none for a new task).
#[derive(Debug)]
pub struct EditorState {
    pub raw_line: String,
    pub task_id: Option<TaskId>,
}

/// The task the UI shows as selected.
#[derive(Debug)]
pub struct SelectedTask {
    pub id: TaskId,
    pub raw: String,
    pub original_raw: String,
}

/// A selected task with its text as characters.
pub struct SelectedView {
    pub id: Seq<char>,
    pub raw: Seq<char>,
    pub original_raw: Seq<char>,
}

impl View for SelectedTask {
    type V = SelectedView;

    open spec fn view(&self) -> SelectedView {
        SelectedView { id: self.id@, raw: self.raw@, original_raw: self.original_raw@ }
    }
}

impl SelectedTask {
    /// The task `id` with line `raw`, as it read `original_raw` when selected.
    pub fn with_original_raw(id: TaskId, raw: String, original_raw: String) -> (r: SelectedTask)
        ensures
            r@ == (SelectedView { id: id@, raw: raw@, original_raw: original_raw@ }),
    {
        SelectedTask { id, raw, original_raw }
    }
}

/// What a key asks the session to do.
#[derive(Debug)]
pub enum AppAction {
    MoveDown,
    MoveUp,
    MoveTop,
    MoveBottom,
    SubmitWelcomePath(String),
    AppendToSearch(char),
    BackspaceSearch,
    Cancel,
    NextSearchResult,
    PreviousSearchResult,
    OpenSelected,
    SubmitEditor,
    ToggleDone,
    RestoreCompleted,
    Refresh,
    ResolveConflict(ConflictChoice),
}

/// The state of the interface.
#[derive(Debug)]
pub struct AppState {
    pub mode: AppMode,
    pub focus: FocusArea,
    pub welcome_input: String,
    pub search_query: String,
    pub search_active: bool,
    pub confirm_delete: bool,
    pub editor: Option<EditorState>,
    pub save_conflict: bool,
    pub selected_task: Option<SelectedTask>,
    pub should_quit: bool,
}

/// `a` is a fresh interface in `mode`, apart from the selected task: nothing
/// typed, nothing open, the sidebar focused.
pub open spec fn is_fresh(a: AppState, mode: AppMode) -> bool {
    &&& a.mode == mode
    &&& a.focus == FocusArea::Sidebar
    &&& a.welcome_input@ == Seq::<char>::empty()
    &&& a.search_query@ == Seq::<char>::empty()
    &&& !a.search_active
    &&& !a.confirm_delete
    &&& a.editor is None
    &&& !a.save_conflict
    &&& !a.should_quit
}

impl AppState {
    /// A fresh interface in `mode`, with no task selected.
    pub fn new(mode: AppMode) -> (r: AppState)
        ensures
            is_fresh(r, mode),
            r.selected_task is None,
    {
        AppState {
            mode,
            focus: FocusArea::Sidebar,
            welcome_input: String::new(),
            search_query: String::new(),
            search_active: false,
            confirm_delete: false,
            editor: None,
            save_conflict: false,
            selected_task: None,
            should_quit: false,
        }
    }
}

/// Whether a key may be the first of a two-key command such as `gg`: only
/// in the main view, with no text being typed and no dialog open.
pub fn app_accepts_compound_tokens(app: &AppState) -> (r: bool)
    ensures
        r == (app.mode == AppMode::Main && !app.search_active && !app.confirm_delete
            && app.editor is None && !app.save_conflict),
{
    app.mode == AppMode::Main && !app.search_active && !app.confirm_delete && app.editor.is_none()
        && !app.save_conflict
}

/// What saving the editor does with the task directory.
#[derive(Debug)]
pub enum SaveStep {
    /// Create a task with the line.
    Create(String),
    /// Write the line to the task.
    Write(TaskId, String),
    /// Do not write: the task changed on disk since it was selected.
    Conflict,
}

/// The step for saving `editor`, where `selected` is the selected task
/// and `on_disk` the edited task's line as the directory holds it now: a
/// new line is created; an existing task is written unless it is the
/// selected one and its line on disk is no longer the one it had when
/// selected.
pub fn save_step(editor: &EditorState, selected: &Option<SelectedTask>, on_disk: &str) -> (r: SaveStep)
    ensures
        match editor.task_id {
            None => r matches SaveStep::Create(l) && l@ == editor.raw_line@,
            Some(id) => if (selected matches Some(t) && t.id@ == id@ && t.original_raw@ != on_disk@) {
                r is Conflict
            } else {
                r matches SaveStep::Write(i, l) && i@ == id@ && l@ == editor.raw_line@
            },
        },
{
    match &editor.task_id {
        None => SaveStep::Create(editor.raw_line.clone()),
        Some(id) => {
            let changed = match selected {
                Some(t) => {
                    if t.id.file_name == id.file_name {
                        let a = chars_of(t.original_raw.as_str());
                        let b = chars_of(on_disk);
                        !chars_eq(a.as_slice(), b.as_slice())
                    } else {
                        false
                    }
                },
                None => false,
            };
            if changed {
                SaveStep::Conflict
            } else {
                SaveStep::Write(id.duplicate(), editor.raw_line.clone())
            }
        },
    }
}

/// Settles a save conflict as chosen: the conflict closes; reloading the
/// other version drops the editor, overwriting takes the editor out and
/// returns it for the caller to write (and then reload), cancelling keeps
/// it open.
pub fn settle_conflict(app: &mut AppState, choice: ConflictChoice) -> (r: Option<EditorState>)
    ensures
        !final(app).save_conflict,
        match choice {
            ConflictChoice::ReloadExternal => r is None && *final(app) == (AppState {
                save_conflict: false,
                editor: None,
                ..*old(app)
            }),
            ConflictChoice::OverwriteExternal => r == old(app).editor && *final(app) == (AppState {
                save_conflict: false,
                editor: None,
                ..*old(app)
            }),
            ConflictChoice::Cancel => r is None && *final(app) == (AppState {
                save_conflict: false,
                ..*old(app)
            }),
        },
{
    app.save_conflict = false;
    match choice {
        ConflictChoice::ReloadExternal => {
            app.editor = None;
            None
        },
        ConflictChoice::OverwriteExternal => app.editor.take(),
        ConflictChoice::Cancel => None,
    }
}

/// The character of a one-character key name.
pub open spec fn key_char(key: Seq<char>) -> Option<char> {
    if key.len() == 1 {
        Some(key[0])
    } else {
        None
    }
}

/// `s` without its last character, if it has one.
pub open spec fn without_last(s: Seq<char>) -> Seq<char> {
    if s.len() > 0 {
        s.drop_last()
    } else {
        s
    }
}

/// `b` is `a` with the text `t` typed into or erased from it: `new` is
/// what the text becomes.
pub open spec fn edited(old_text: Seq<char>, key: Seq<char>, new_text: Seq<char>) -> bool {
    if key == "backspace"@ {
        new_text == without_last(old_text)
    } else {
        match key_char(key) {
            Some(c) => new_text == old_text.push(c),
            None => new_text == old_text,
        }
    }
}

/// What a key does on the welcome screen: `enter` submits the typed path
/// and clears it, `esc` quits, other keys edit the path.
pub open spec fn welcome_key(a: AppState, key: Seq<char>, b: AppState, r: Option<AppAction>) -> bool {
    if key == "enter"@ {
        &&& r matches Some(AppAction::SubmitWelcomePath(p)) && p@ == a.welcome_input@
        &&& b == (AppState { welcome_input: b.welcome_input, ..a })
        &&& b.welcome_input@ == Seq::<char>::empty()
    } else if key == "esc"@ {
        r is None && b == (AppState { should_quit: true, ..a })
    } else {
        &&& r is None
        &&& b == (AppState { welcome_input: b.welcome_input, ..a })
        &&& edited(a.welcome_input@, key, b.welcome_input@)
    }
}

/// What a key does while a save conflict is open: `r`, `o`, `c` or `esc`
/// choose how to settle it.
pub open spec fn conflict_key(key: Seq<char>) -> Option<ConflictChoice> {
    if key == "r"@ {
        Some(ConflictChoice::ReloadExternal)
    } else if key == "o"@ {
        Some(ConflictChoice::OverwriteExternal)
    } else if key == "c"@ || key == "esc"@ {
        Some(ConflictChoice::Cancel)
    } else {
        None
    }
}

/// What a key does while the editor is open: `enter` saves, `esc` closes
/// it, other keys edit the line.
pub open spec fn editor_key(a: AppState, key: Seq<char>, b: AppState, r: Option<AppAction>) -> bool {
    if key == "enter"@ {
        r matches Some(AppAction::SubmitEditor) && b == a
    } else if key == "esc"@ {
        r is None && b == (AppState { editor: None, ..a })
    } else {
        &&& r is None
        &&& b == (AppState { editor: b.editor, ..a })
        &&& b.editor matches Some(e) && (a.editor matches Some(ae) && e.task_id == ae.task_id
            && edited(ae.raw_line@, key, e.raw_line@))
    }
}

/// What a key does while a search is typed: `enter` ends typing, `esc`
/// clears the search, `ctrl+n`/`ctrl+p` move among the results, other
/// keys edit the query.
pub open spec fn search_key(a: AppState, key: Seq<char>, b: AppState, r: Option<AppAction>) -> bool {
    if key == "enter"@ {
        r is None && b == (AppState { search_active: false, ..a })
    } else if key == "esc"@ {
        &&& r matches Some(AppAction::Cancel)
        &&& b == (AppState { search_active: false, search_query: b.search_query, ..a })
        &&& b.search_query@ == Seq::<char>::empty()
    } else if key == "ctrl+n"@ {
        r matches Some(AppAction::NextSearchResult) && b == a
    } else if key == "ctrl+p"@ {
        r matches Some(AppAction::PreviousSearchResult) && b == a
    } else if key == "backspace"@ {
        &&& r matches Some(AppAction::BackspaceSearch)
        &&& b == (AppState { search_query: b.search_query, ..a })
        &&& b.search_query@ == without_last(a.search_query@)
    } else {
        match key_char(key) {
            Some(c) => {
                &&& r matches Some(AppAction::AppendToSearch(x)) && x == c
                &&& b == (AppState { search_query: b.search_query, ..a })
                &&& b.search_query@ == a.search_query@.push(c)
            },
            None => r is None && b == a,
        }
    }
}

/// The command a key names in the main view, for the keys that only ask
/// the session for an action.
pub open spec fn command_key(key: Seq<char>) -> Option<AppAction> {
    if key == "j"@ {
        Some(AppAction::MoveDown)
    } else if key == "k"@ {
        Some(AppAction::MoveUp)
    } else if key == "gg"@ || key == "home"@ {
        Some(AppAction::MoveTop)
    } else if key == "G"@ || key == "end"@ {
        Some(AppAction::MoveBottom)
    } else if key == "n"@ {
        Some(AppAction::NextSearchResult)
    } else if key == "N"@ {
        Some(AppAction::PreviousSearchResult)
    } else if key == "x"@ {
        Some(AppAction::ToggleDone)
    } else if key == "u"@ {
        Some(AppAction::RestoreCompleted)
    } else if key == "r"@ {
        Some(AppAction::Refresh)
    } else {
        None
    }
}

/// What a key does in the main view when nothing is open.
pub open spec fn main_key(a: AppState, key: Seq<char>, b: AppState, r: Option<AppAction>) -> bool {
    if key == "q"@ {
        r is None && b == (AppState { should_quit: true, ..a })
    } else if command_key(key) is Some {
        r == command_key(key) && b == a
    } else if key == "tab"@ || key == "left"@ || key == "right"@ {
        r is None && b == (AppState {
            focus: if a.focus == FocusArea::Sidebar {
                FocusArea::TaskList
            } else {
                FocusArea::Sidebar
            },
            ..a
        })
    } else if key == "/"@ {
        r is None && b == (AppState { search_active: true, ..a })
    } else if key == "d"@ {
        r is None && b == (AppState { confirm_delete: a.selected_task is Some, ..a })
    } else if key == "a"@ {
        &&& r is None
        &&& b == (AppState { editor: b.editor, ..a })
        &&& b.editor matches Some(e) && e.raw_line@ == Seq::<char>::empty() && e.task_id is None
    } else if key == "e"@ || key == "enter"@ {
        &&& r is None
        &&& b == (AppState { editor: b.editor, ..a })
        &&& match a.selected_task {
            Some(t) => b.editor matches Some(e) && e.raw_line@ == t.raw@ && (e.task_id matches Some(
                i,
            ) && i@ == t.id@),
            None => b.editor == a.editor,
        }
    } else if key == "esc"@ && a.search_query@.len() > 0 {
        &&& r matches Some(AppAction::Cancel)
        &&& b == (AppState { search_query: b.search_query, ..a })
        &&& b.search_query@ == Seq::<char>::empty()
    } else {
        r is None && b == a
    }
}

/// What a key does to the interface state and which action it asks of
/// the session, by what is open: the welcome screen, a save conflict, the
/// delete confirmation (`y` or `enter` deletes, any other key closes it),
/// the editor, a search being typed, or nothing.
pub open spec fn key_outcome(a: AppState, key: Seq<char>, b: AppState, r: Option<AppAction>) -> bool {
    if a.mode == AppMode::Welcome {
        welcome_key(a, key, b, r)
    } else if a.save_conflict {
        b == a && match conflict_key(key) {
            Some(c) => r matches Some(AppAction::ResolveConflict(x)) && x == c,
            None => r is None,
        }
    } else if a.confirm_delete {
        if key == "y"@ || key == "enter"@ {
            r matches Some(AppAction::OpenSelected) && b == a
        } else {
            r is None && b == (AppState { confirm_delete: false, ..a })
        }
    } else if a.editor is Some {
        editor_key(a, key, b, r)
    } else if a.search_active {
        search_key(a, key, b, r)
    } else {
        main_key(a, key, b, r)
    }
}

/// `s` edited by the key: `backspace` erases the last character, a
/// one-character key appends it, other keys leave it.
fn edit_text(s: &mut String, key: &[char])
    ensures
        edited(old(s)@, key@, final(s)@),
{
    if is_lit(key, "backspace") {
        let cs = chars_of(s.as_str());
        if cs.len() > 0 {
            let kept = crate::text::slice_range(cs.as_slice(), 0, cs.len() - 1);
            *s = string_of(kept);
            assert(s@ =~= without_last(old(s)@));
        }
    } else if key.len() == 1 {
        push_char(s, key[0]);
    }
    proof {
        reveal_strlit("backspace");
    }
}

fn command_of(k: &[char]) -> (r: Option<AppAction>)
    ensures
        r == command_key(k@),
{
    if is_lit(k, "j") {
        Some(AppAction::MoveDown)
    } else if is_lit(k, "k") {
        Some(AppAction::MoveUp)
    } else if is_lit(k, "gg") || is_lit(k, "home") {
        Some(AppAction::MoveTop)
    } else if is_lit(k, "G") || is_lit(k, "end") {
        Some(AppAction::MoveBottom)
    } else if is_lit(k, "n") {
        Some(AppAction::NextSearchResult)
    } else if is_lit(k, "N") {
        Some(AppAction::PreviousSearchResult)
    } else if is_lit(k, "x") {
        Some(AppAction::ToggleDone)
    } else if is_lit(k, "u") {
        Some(AppAction::RestoreCompleted)
    } else if is_lit(k, "r") {
        Some(AppAction::Refresh)
    } else {
        None
    }
}

/// Applies the key named `key` to the interface state and returns the
/// action it asks of the session, if any.
pub fn handle_key(app: &mut AppState, key: &str) -> (r: Option<AppAction>)
    ensures
        key_outcome(*old(app), key@, *final(app), r),
{
    let k = chars_of(key);
    let k = k.as_slice();
    if app.mode == AppMode::Welcome {
        if is_lit(k, "enter") {
            let path = app.welcome_input.clone();
            app.welcome_input = String::new();
            return Some(AppAction::SubmitWelcomePath(path));
        } else if is_lit(k, "esc") {
            app.should_quit = true;
            return None;
        } else {
            edit_text(&mut app.welcome_input, k);
            return None;
        }
    }
    if app.save_conflict {
        if is_lit(k, "r") {
            return Some(AppAction::ResolveConflict(ConflictChoice::ReloadExternal));
        } else if is_lit(k, "o") {
            return Some(AppAction::ResolveConflict(ConflictChoice::OverwriteExternal));
        } else if is_lit(k, "c") || is_lit(k, "esc") {
            return Some(AppAction::ResolveConflict(ConflictChoice::Cancel));
        } else {
            return None;
        }
    }
    if app.confirm_delete {
        if is_lit(k, "y") || is_lit(k, "enter") {
            return Some(AppAction::OpenSelected);
        } else {
            app.confirm_delete = false;
            return None;
        }
    }
    if app.editor.is_some() {
        if is_lit(k, "enter") {
            return Some(AppAction::SubmitEditor);
        } else if is_lit(k, "esc") {
            app.editor = None;
            return None;
        } else {
            let mut editor = app.editor.take().unwrap();
            edit_text(&mut editor.raw_line, k);
            app.editor = Some(editor);
            return None;
        }
    }
    if app.search_active {
        if is_lit(k, "enter") {
            app.search_active = false;
            return None;
        } else if is_lit(k, "esc") {
            app.search_active = false;
            app.search_query = String::new();
            return Some(AppAction::Cancel);
        } else if is_lit(k, "ctrl+n") {
            return Some(AppAction::NextSearchResult);
        } else if is_lit(k, "ctrl+p") {
            return Some(AppAction::PreviousSearchResult);
        } else if is_lit(k, "backspace") {
            edit_text(&mut app.search_query, k);
            return Some(AppAction::BackspaceSearch);
        } else if k.len() == 1 {
            let c = k[0];
            edit_text(&mut app.search_query, k);
            proof {
                reveal_strlit("backspace");
            }
            return Some(AppAction::AppendToSearch(c));
        } else {
            return None;
        }
    }
    if is_lit(k, "q") {
        app.should_quit = true;
        return None;
    }
    let command = command_of(k);
    if command.is_some() {
        return command;
    }
    if is_lit(k, "tab") || is_lit(k, "left") || is_lit(k, "right") {
        app.focus = match app.focus {
            FocusArea::Sidebar => FocusArea::TaskList,
            FocusArea::TaskList => FocusArea::Sidebar,
        };
        None
    } else if is_lit(k, "/") {
        app.search_active = true;
        None
    } else if is_lit(k, "d") {
        app.confirm_delete = app.selected_task.is_some();
        None
    } else if is_lit(k, "a") {
        app.editor = Some(EditorState { raw_line: String::new(), task_id: None });
        None
    } else if is_lit(k, "e") || is_lit(k, "enter") {
        let editor = match &app.selected_task {
            Some(t) => Some(EditorState { raw_line: t.raw.clone(), task_id: Some(t.id.duplicate()) }),
            None => None,
        };
        if editor.is_some() {
            app.editor = editor;
        }
        None
    } else if is_lit(k, "esc") && app.search_query.as_str().unicode_len() > 0 {
        app.search_query = String::new();
        Some(AppAction::Cancel)
    } else {
        None
    }
}

} // verus!
