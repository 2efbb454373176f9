//! The layout arithmetic of the terminal view: how far the task pane
//! scrolls to keep the selected line in sight, how many rows a wrapped
//! line takes, and where a centered dialog goes.
use vstd::prelude::*;
use crate::mouse::Rect;
use crate::session::{SidebarItem, SidebarSpec, TuiSession};
use crate::task::{stored_view, StoredView};
use crate::date::{decimal, decimal_digits};
use crate::smartlist::SmartList;
use crate::text::strs;
use vstd::string::StrSliceExecFns;

verus! {

/// How many rows `lines` take when wrapped at word boundaries to `width`
/// columns, whitespace kept (the count a wrapping ratatui `Paragraph`
/// reports).
pub uninterp spec fn wrapped_rows(lines: Seq<Seq<char>>, width: u16) -> usize;

/// The rows that `lines` take when wrapped to `width` columns
/// (`Paragraph::line_count` of a paragraph of the lines, wrapped with
/// `Wrap { trim: false }`). The result is named: it is a function of the
/// lines' text and the width alone.
#[verifier::external_body]
fn wrapped_line_count(lines: &[String], width: u16) -> (r: usize)
    ensures
        r == wrapped_rows(strs(lines@), width),
{
    let text: Vec<ratatui::text::Line<'_>> = lines.iter().map(
        |s| ratatui::text::Line::from(ratatui::text::Span::raw(s.as_str())),
    ).collect();
    ratatui::widgets::Paragraph::new(text).wrap(ratatui::widgets::Wrap { trim: false }).line_count(width)
}

/// The scroll offset that brings the row before `visual_row_end` into a
/// pane of `pane_height` rows: how far `visual_row_end` overshoots the
/// pane, cut to 16 bits.
pub open spec fn scroll_rows(visual_row_end: usize, pane_height: usize) -> u16 {
    if visual_row_end > pane_height {
        (visual_row_end - pane_height) as u16
    } else {
        0
    }
}

/// The scroll offset for a selected line that ends on row `visual_row_end`
/// of a pane `pane_height` rows high.
pub fn scroll_for_rows(visual_row_end: usize, pane_height: usize) -> (r: u16)
    ensures
        r == scroll_rows(visual_row_end, pane_height),
{
    if visual_row_end > pane_height {
        #[verifier::truncate]
        ((visual_row_end - pane_height) as u16)
    } else {
        0
    }
}

/// The scroll offset of the task pane: none without a selected line, a
/// pane of no size, or a selection past the lines; else enough that the
/// selected line's last row, with the lines above it wrapped to
/// `inner_width`, is in the pane.
pub open spec fn scroll_offset(
    lines: Seq<Seq<char>>,
    selected_line_index: Option<usize>,
    inner_width: u16,
    pane_height: usize,
) -> u16 {
    match selected_line_index {
        Some(sel) => if inner_width == 0 || pane_height == 0 || sel >= lines.len() {
            0
        } else {
            scroll_rows(wrapped_rows(lines.take(sel + 1), inner_width), pane_height)
        },
        None => 0,
    }
}

/// How far the task pane scrolls so that the selected line shows.
pub fn compute_scroll_offset(
    lines: &[String],
    selected_line_index: Option<usize>,
    inner_width: u16,
    pane_height: usize,
) -> (r: u16)
    ensures
        r == scroll_offset(strs(lines@), selected_line_index, inner_width, pane_height),
{
    let sel = match selected_line_index {
        Some(sel) => sel,
        None => return 0,
    };
    if inner_width == 0 || pane_height == 0 || sel >= lines.len() {
        return 0;
    }
    let prefix = &lines[0..sel + 1];
    assert(strs(prefix@) =~= strs(lines@).take(sel + 1));
    let visual_row_end = wrapped_line_count(prefix, inner_width);
    scroll_for_rows(visual_row_end, pane_height)
}

/// The rows a line of `n` characters takes at `width` columns, a line
/// breaking anywhere: at least one.
pub open spec fn visual_rows(n: nat, width: nat) -> nat {
    if n == 0 || width == 0 {
        1
    } else {
        ((n + width - 1) / (width as int)) as nat
    }
}

/// The rows `text` takes at `width` columns when it may break anywhere.
pub fn visual_line_count(text: &str, width: usize) -> (r: usize)
    ensures
        r == visual_rows(text@.len(), width as nat),
{
    let n = text.unicode_len();
    if n == 0 || width == 0 {
        return 1;
    }
    let r = (n - 1) / width + 1;
    assert(((n - 1) / (width as int)) + 1 == (n + width - 1) / (width as int)) by (nonlinear_arith)
        requires
            n >= 1,
            width >= 1,
    {
        assert((n - 1 + width) / (width as int) == (n - 1) / (width as int) + 1);
    }
    r
}

/// The part of `area` that a layout of a `before`-long piece, a `len`-long
/// piece and the rest gives the second piece, across (`horizontal`) or down
/// the area.
pub uninterp spec fn middle_piece(area: Rect, horizontal: bool, before: u16, len: u16) -> Rect;

/// The piece `len` long that starts `before` into `area`, across
/// (`horizontal`) or down the area.
pub open spec fn piece_at(area: Rect, horizontal: bool, before: u16, len: u16) -> Rect {
    if horizontal {
        Rect { x: (area.x + before) as u16, y: area.y, width: len, height: area.height }
    } else {
        Rect { x: area.x, y: (area.y + before) as u16, width: area.width, height: len }
    }
}

/// Whether `area` lies inside the `u16` plane and the two pieces fit in
/// its length along the split.
pub open spec fn pieces_fit(area: Rect, horizontal: bool, before: u16, len: u16) -> bool {
    &&& area.x + area.width <= u16::MAX
    &&& area.y + area.height <= u16::MAX
    &&& before + len <= (if horizontal { area.width } else { area.height })
}

/// The second piece of `area` split into a `before`-long piece, a
/// `len`-long piece and the rest (ratatui's `Layout::split` with the
/// constraints `Length(before)`, `Length(len)`, `Min(0)` and the default
/// flex, margin and spacing). The result is named: it is a function of the
/// arguments alone. Where the two lengths fit, the solver gives each length
/// exactly and the second piece starts `before` into the area; where they
/// do not, the compromise the solver finds is left unsaid.
#[verifier::external_body]
fn split_middle(area: Rect, horizontal: bool, before: u16, len: u16) -> (r: Rect)
    ensures
        r == middle_piece(area, horizontal, before, len),
        pieces_fit(area, horizontal, before, len) ==> r == piece_at(area, horizontal, before, len),
{
    let direction = match horizontal {
        true => ratatui::layout::Direction::Horizontal,
        false => ratatui::layout::Direction::Vertical,
    };
    let constraints = [
        ratatui::layout::Constraint::Length(before),
        ratatui::layout::Constraint::Length(len),
        ratatui::layout::Constraint::Min(0),
    ];
    let area = ratatui::layout::Rect::new(area.x, area.y, area.width, area.height);
    let piece = ratatui::layout::Layout::default().direction(direction).constraints(constraints).split(area)[1];
    Rect { x: piece.x, y: piece.y, width: piece.width, height: piece.height }
}

/// The rectangle of a dialog `width` by `height` centered in `area`
/// (shrunk to fit): the spare columns and rows split evenly, the odd one
/// after the dialog. An area that runs past the `u16` plane goes through
/// the layout solver's own result.
pub open spec fn centered(area: Rect, width: u16, height: u16) -> Rect {
    let rows: u16 = if height < area.height { height } else { area.height };
    let cols: u16 = if width < area.width { width } else { area.width };
    let top: u16 = ((area.height - rows) / 2) as u16;
    let left: u16 = ((area.width - cols) / 2) as u16;
    if area.x + area.width <= u16::MAX && area.y + area.height <= u16::MAX {
        Rect { x: (area.x + left) as u16, y: (area.y + top) as u16, width: cols, height: rows }
    } else {
        middle_piece(middle_piece(area, false, top, rows), true, left, cols)
    }
}

/// A dialog `width` by `height` centered in `area`.
pub fn centered_rect(area: Rect, width: u16, height: u16) -> (r: Rect)
    ensures
        r == centered(area, width, height),
{
    let spare_rows = if area.height > height {
        area.height - height
    } else {
        0
    };
    let rows = if height < area.height {
        height
    } else {
        area.height
    };
    let down = split_middle(area, false, spare_rows / 2, rows);
    let spare_cols = if area.width > width {
        area.width - width
    } else {
        0
    };
    let cols = if width < area.width {
        width
    } else {
        area.width
    };
    split_middle(down, true, spare_cols / 2, cols)
}

/// The name of the smart list at `index`, if there is one.
pub open spec fn list_name(lists: Seq<SmartList>, index: usize) -> Option<Seq<char>> {
    if index < lists.len() {
        Some(lists[index as int].name@)
    } else {
        None
    }
}

/// The text of a sidebar entry: the smart list's name, a rule for a
/// separator, the headers in capitals, projects and contexts indented.
pub open spec fn label_of(item: SidebarSpec, lists: Seq<SmartList>) -> Seq<char> {
    match item {
        SidebarSpec::SmartList(i) => match list_name(lists, i) {
            Some(n) => n,
            None => Seq::<char>::empty(),
        },
        SidebarSpec::Separator => "──────────────────────"@,
        SidebarSpec::ProjectsHeader => "PROJECTS"@,
        SidebarSpec::Project(v) => "  "@ + v,
        SidebarSpec::ContextsHeader => "CONTEXTS"@,
        SidebarSpec::Context(v) => "  "@ + v,
    }
}

/// The title of the panes for the active entry: the smart list's name, the
/// project or context, or the header's name.
pub open spec fn title_of(item: SidebarSpec, lists: Seq<SmartList>) -> Seq<char> {
    match item {
        SidebarSpec::SmartList(i) => match list_name(lists, i) {
            Some(n) => n,
            None => "Filters"@,
        },
        SidebarSpec::Project(v) => v,
        SidebarSpec::Context(v) => v,
        SidebarSpec::ProjectsHeader => "Projects"@,
        SidebarSpec::ContextsHeader => "Contexts"@,
        SidebarSpec::Separator => "Filters"@,
    }
}

fn text(s: &str) -> (r: String)
    ensures
        r@ == s@,
{
    s.to_string()
}

/// The text a sidebar entry is shown with.
pub fn sidebar_label(item: &SidebarItem, lists: &[SmartList]) -> (r: String)
    ensures
        r@ == label_of(item@, lists@),
{
    match item {
        SidebarItem::SmartList(index) => {
            if *index < lists.len() {
                lists[*index].name.clone()
            } else {
                String::new()
            }
        },
        SidebarItem::Separator => text("──────────────────────"),
        SidebarItem::ProjectsHeader => text("PROJECTS"),
        SidebarItem::Project(value) => text("  ").concat(value.as_str()),
        SidebarItem::ContextsHeader => text("CONTEXTS"),
        SidebarItem::Context(value) => text("  ").concat(value.as_str()),
    }
}

/// The title the panes get for the active entry.
pub fn active_filter_title(item: &SidebarItem, lists: &[SmartList]) -> (r: String)
    ensures
        r@ == title_of(item@, lists@),
{
    match item {
        SidebarItem::SmartList(index) => {
            if *index < lists.len() {
                lists[*index].name.clone()
            } else {
                text("Filters")
            }
        },
        SidebarItem::Project(value) => value.clone(),
        SidebarItem::Context(value) => value.clone(),
        SidebarItem::ProjectsHeader => text("Projects"),
        SidebarItem::ContextsHeader => text("Contexts"),
        SidebarItem::Separator => text("Filters"),
    }
}

/// The row and column, inside the editor dialog's border, of the cursor:
/// on the edited line (`cursor_pos` characters in) without a date
/// shortcut; with a shortcut (its label's length and its cursor), on the
/// shortcut's input line, five rows below the rows the line takes. The
/// dialog's inner width is `w`.
pub open spec fn cursor_place(raw_len: nat, cursor_pos: usize, w: int, shortcut: Option<(usize, usize)>) -> (int, int) {
    match shortcut {
        Some(sc) => {
            let col_in_line = sc.0 + 7 + sc.1;
            (visual_rows(raw_len, w as nat) + 5 + col_in_line / w, col_in_line % w)
        },
        None => ((cursor_pos as int) / w, (cursor_pos as int) % w),
    }
}

/// Whether placing the cursor stays within the numbers it is computed in.
pub open spec fn cursor_fits(raw_len: nat, cursor_pos: usize, modal: Rect, shortcut: Option<(usize, usize)>) -> bool {
    let w = modal.width - 2;
    w > 0 ==> {
        let (row, col) = cursor_place(raw_len, cursor_pos, w, shortcut);
        &&& (shortcut matches Some(sc) ==> sc.0 + 7 + sc.1 <= usize::MAX && visual_rows(raw_len, w as nat)
            + 5 + (sc.0 + 7 + sc.1) / w <= usize::MAX)
        &&& modal.x + 1 + col <= u16::MAX
        &&& modal.y + 1 + (row as u16) <= u16::MAX
    }
}

/// Where the editor dialog `modal` shows the cursor: none when the dialog
/// has no inner width, else the cell at the place `cursor_place` gives,
/// inside the border (the row cut to 16 bits).
pub open spec fn cursor_cell(raw_len: nat, cursor_pos: usize, modal: Rect, shortcut: Option<(usize, usize)>) -> Option<(u16, u16)> {
    let w = modal.width - 2;
    if w <= 0 {
        None
    } else {
        let (row, col) = cursor_place(raw_len, cursor_pos, w, shortcut);
        Some(((modal.x + 1 + col) as u16, (modal.y + 1 + (row as u16)) as u16))
    }
}

/// Whether `editor_cursor` can place the cursor (see `cursor_fits`).
pub fn editor_cursor_fits(raw_line: &str, cursor_pos: usize, modal: Rect, shortcut: Option<(usize, usize)>) -> (r: bool)
    ensures
        r == cursor_fits(raw_line@.len(), cursor_pos, modal, shortcut),
{
    if modal.width <= 2 {
        return true;
    }
    let w = (modal.width - 2) as usize;
    let (row, col): (usize, usize) = match shortcut {
        Some((label_len, pos)) => {
            if label_len > usize::MAX - 7 || pos > usize::MAX - 7 - label_len {
                return false;
            }
            let col_in_line = label_len + 7 + pos;
            let raw_rows = visual_line_count(raw_line, w);
            if raw_rows > usize::MAX - 5 || col_in_line / w > usize::MAX - 5 - raw_rows {
                return false;
            }
            (raw_rows + 5 + col_in_line / w, col_in_line % w)
        },
        None => (cursor_pos / w, cursor_pos % w),
    };
    #[verifier::truncate]
    let row16 = row as u16;
    (modal.x as u32) + 1 + (col as u32) <= 65535 && (modal.y as u32) + 1 + (row16 as u32) <= 65535
}

/// The cell of the editor's cursor in the dialog `modal`, for the edited
/// line `raw_line` with the cursor `cursor_pos` characters in, or, with a
/// date shortcut open, its label's length and its input's cursor.
pub fn editor_cursor(raw_line: &str, cursor_pos: usize, modal: Rect, shortcut: Option<(usize, usize)>) -> (r: Option<(u16, u16)>)
    requires
        cursor_fits(raw_line@.len(), cursor_pos, modal, shortcut),
    ensures
        r == cursor_cell(raw_line@.len(), cursor_pos, modal, shortcut),
{
    if modal.width <= 2 {
        return None;
    }
    let w = (modal.width - 2) as usize;
    let (row, col): (usize, usize) = match shortcut {
        Some((label_len, pos)) => {
            let raw_rows = visual_line_count(raw_line, w);
            let col_in_line = label_len + 7 + pos;
            (raw_rows + 5 + col_in_line / w, col_in_line % w)
        },
        None => (cursor_pos / w, cursor_pos % w),
    };
    #[verifier::truncate]
    let row16 = row as u16;
    let x = modal.x + 1 + (col as u16);
    let y = modal.y + 1 + row16;
    Some((x, y))
}

/// The title of the task pane: the entry's title and the number of tasks
/// shown, as `Title (n)`.
pub open spec fn pane_title(title: Seq<char>, n: nat) -> Seq<char> {
    title + " ("@ + decimal(n) + ")"@
}

/// The title of the task pane for the entry titled `title` showing `n`
/// tasks.
pub fn tasks_title(title: &str, n: usize) -> (r: String)
    ensures
        r@ == pane_title(title@, n as nat),
{
    let digits = decimal_digits(n as u64);
    let mut out = text(title);
    out.append(" (");
    let mut i: usize = 0;
    let ghost start = out@;
    while i < digits.len()
        invariant
            i <= digits@.len(),
            out@ == start + digits@.take(i as int),
        decreases digits@.len() - i,
    {
        crate::text::push_char(&mut out, digits[i]);
        assert(start + digits@.take(i + 1) =~= (start + digits@.take(i as int)).push(digits@[i as int]));
        i = i + 1;
    }
    assert(digits@.take(digits@.len() as int) =~= digits@);
    out.append(")");
    proof {
        reveal_strlit(" (");
        reveal_strlit(")");
    }
    assert(out@ =~= pane_title(title@, n as nat));
    out
}

/// The line between two tasks: two spaces and a rule four columns
/// narrower than the pane.
pub open spec fn separator(width: u16) -> Seq<char> {
    "  "@ + Seq::new(if width >= 4 { (width - 4) as nat } else { 0 }, |i: int| '─')
}

/// The lines of the first `k` tasks, each task's lines followed by a
/// separator unless it is the last of `n`.
pub open spec fn pane_body(lines: Seq<Seq<Seq<char>>>, k: int, n: int, width: u16) -> Seq<Seq<char>>
    decreases k,
{
    if k <= 0 {
        Seq::empty()
    } else {
        pane_body(lines, k - 1, n, width) + lines[k - 1] + (if k - 1 < n - 1 {
            seq![separator(width)]
        } else {
            Seq::empty()
        })
    }
}

/// The index in the body of the last line of the last of the first `k`
/// tasks stored under `id`.
pub open spec fn selected_in_body(
    tasks: Seq<StoredView>,
    lines: Seq<Seq<Seq<char>>>,
    k: int,
    width: u16,
    id: Option<Seq<char>>,
) -> Option<int>
    decreases k,
{
    if k <= 0 {
        None
    } else if id == Some(tasks[k - 1].id) {
        Some(pane_body(lines, k - 1, tasks.len() as int, width).len() + lines[k - 1].len() - 1)
    } else {
        selected_in_body(tasks, lines, k - 1, width, id)
    }
}

/// The lines above the tasks: the search, when one is typed or active,
/// and an empty line.
pub open spec fn pane_header(query: Seq<char>, search_active: bool) -> Seq<Seq<char>> {
    if query.len() > 0 {
        seq!["Search: "@ + query, Seq::<char>::empty()]
    } else if search_active {
        seq!["Search: "@, Seq::<char>::empty()]
    } else {
        Seq::empty()
    }
}

/// The text of the task pane and the index of the selected task's last
/// line: a notice when no tasks are shown, else the search header and each
/// task's lines (`lines`, one entry per shown task) with separators.
pub open spec fn pane_lines(
    tasks: Seq<StoredView>,
    lines: Seq<Seq<Seq<char>>>,
    query: Seq<char>,
    search_active: bool,
    id: Option<Seq<char>>,
    width: u16,
) -> (Seq<Seq<char>>, Option<int>) {
    if tasks.len() == 0 {
        (seq!["No tasks in this view"@], None)
    } else {
        let h = pane_header(query, search_active);
        (
            h + pane_body(lines, tasks.len() as int, tasks.len() as int, width),
            match selected_in_body(tasks, lines, tasks.len() as int, width, id) {
                Some(i) => Some(h.len() + i),
                None => None,
            },
        )
    }
}

/// The view of lines per task.
pub open spec fn lines_view(v: Seq<Vec<String>>) -> Seq<Seq<Seq<char>>> {
    v.map_values(|l: Vec<String>| strs(l@))
}

fn separator_line(width: u16) -> (r: String)
    ensures
        r@ == separator(width),
{
    let n: u16 = if width >= 4 {
        width - 4
    } else {
        0
    };
    let mut out = text("  ");
    proof {
        reveal_strlit("  ");
    }
    let ghost start = out@;
    let mut i: u16 = 0;
    while i < n
        invariant
            i <= n,
            out@ == start + Seq::new(i as nat, |j: int| '─'),
        decreases n - i,
    {
        crate::text::push_char(&mut out, '─');
        assert(start + Seq::new((i + 1) as nat, |j: int| '─') =~= (start + Seq::new(
            i as nat,
            |j: int| '─',
        )).push('─'));
        i = i + 1;
    }
    out
}

/// The text of the task pane of `session` and the index of the selected
/// task's last line, given the lines each shown task is drawn with and the
/// pane's inner width.
pub fn task_pane_lines(session: &TuiSession, task_lines: &Vec<Vec<String>>, inner_width: u16) -> (r: (
    Vec<String>,
    Option<usize>,
))
    requires
        task_lines@.len() == session.shown().len(),
        forall|i: int| 0 <= i < task_lines@.len() ==> (#[trigger] task_lines@[i])@.len() > 0,
    ensures
        ({
            let id = match session.state().selected_task {
                Some(t) => Some(t.id@),
                None => None,
            };
            let (ls, sel) = pane_lines(
                session.shown(),
                lines_view(task_lines@),
                session.state().search_query@,
                session.state().search_active,
                id,
                inner_width,
            );
            &&& strs(r.0@) == ls
            &&& match r.1 {
                Some(i) => sel == Some(i as int),
                None => sel is None,
            }
        }),
{
    let tasks = session.visible_tasks();
    let app = session.app();
    let ghost tv = stored_view(tasks@);
    let ghost lv = lines_view(task_lines@);
    let ghost id = match session.state().selected_task {
        Some(t) => Some(t.id@),
        None => None,
    };
    let mut out: Vec<String> = Vec::new();
    if tasks.len() == 0 {
        out.push(text("No tasks in this view"));
        proof {
            reveal_strlit("No tasks in this view");
        }
        assert(strs(out@) =~= seq!["No tasks in this view"@]);
        return (out, None);
    }
    let query = app.search_query.as_str();
    if query.unicode_len() > 0 {
        out.push(text("Search: ").concat(query));
        out.push(String::new());
    } else if app.search_active {
        out.push(text("Search: "));
        out.push(String::new());
    }
    let ghost h = pane_header(app.search_query@, app.search_active);
    assert(strs(out@) =~= h);
    let ghost hl = out@.len();
    let n = tasks.len();
    let mut sel: Option<usize> = None;
    let mut i: usize = 0;
    while i < n
        invariant
            i <= n,
            n == tv.len(),
            n == task_lines@.len(),
            tv == stored_view(tasks@),
            lv == lines_view(task_lines@),
            forall|k: int| 0 <= k < task_lines@.len() ==> (#[trigger] task_lines@[k])@.len() > 0,
            hl == h.len(),
            strs(out@) == h + pane_body(lv, i as int, n as int, inner_width),
            match sel {
                Some(s) => selected_in_body(tv, lv, i as int, inner_width, id) == Some(s - hl),
                None => selected_in_body(tv, lv, i as int, inner_width, id) is None,
            },
            id == match app.selected_task {
                Some(t) => Some(t.id@),
                None => None,
            },
        decreases n - i,
    {
        let ghost before = strs(out@);
        let lines = &task_lines[i];
        let mut j: usize = 0;
        while j < lines.len()
            invariant
                j <= lines@.len(),
                strs(out@) == before + strs(lines@).take(j as int),
            decreases lines@.len() - j,
        {
            out.push(lines[j].clone());
            assert(before + strs(lines@).take(j + 1) =~= (before + strs(lines@).take(j as int)).push(lines@[j as int]@));
            j = j + 1;
        }
        assert(strs(lines@).take(lines@.len() as int) =~= strs(lines@));
        assert(lv[i as int] == strs(lines@));
        let is_selected = match &app.selected_task {
            Some(t) => t.id.file_name == tasks[i].id.file_name,
            None => false,
        };
        assert(tv[i as int] == tasks@[i as int]@);
        if is_selected {
            sel = Some(out.len() - 1);
        }
        let ghost mid = strs(out@);
        assert(mid == before + lv[i as int]);
        if i + 1 < n {
            let sep = separator_line(inner_width);
            out.push(sep);
            assert(strs(out@) =~= mid.push(separator(inner_width)));
        }
        assert(pane_body(lv, i + 1, n as int, inner_width) == pane_body(lv, i as int, n as int, inner_width)
            + lv[i as int] + (if i < n - 1 {
            seq![separator(inner_width)]
        } else {
            Seq::<Seq<char>>::empty()
        }));
        assert(strs(out@) =~= h + pane_body(lv, i + 1, n as int, inner_width));
        i = i + 1;
    }
    (out, sel)
}

} // verus!
