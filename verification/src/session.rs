//! The state of the terminal session: the sidebar of smart lists, projects
//! and contexts, the tasks the active item shows, and the selected task.
//!
//! Loading and saving tasks is done by the caller, which hands the session
//! the snapshot of tasks it read.
use vstd::prelude::*;
use crate::smartlist::{
    list_ok_on, blocks_view, evaluate, group, groups_view, is_grouping, is_stable_sort, list_ok, selected,
    CondSpec, Condition, SmartList, TaskGroup,
};
use crate::ranking::{is_ranked, rank_tasks};
use crate::app::{is_fresh, AppAction, AppMode, AppState, ConflictChoice, EditorState, FocusArea, SelectedTask, SelectedView};
use crate::task::{
    copy_tasks, opt_view, stored_view, strings_view, StoredTask, StoredView, TaskId, TaskView,
};
use crate::text::{
    chars_of, contains_chars, contains_seq, increasing, insert_sorted_unique, lowercase, strs,
    to_lowercase, trim, trimmed,
};
use vstd::string::StringExecFns;
use vstd::string::StrSliceExecFns;

verus! {

/// An entry of the sidebar.
#[derive(Debug, Clone, PartialEq, Eq)]
pub enum SidebarItem {
    SmartList(usize),
    Separator,
    ProjectsHeader,
    Project(String),
    ContextsHeader,
    Context(String),
}

/// A sidebar entry with its text as characters.
pub enum SidebarSpec {
    SmartList(usize),
    Separator,
    ProjectsHeader,
    Project(Seq<char>),
    ContextsHeader,
    Context(Seq<char>),
}

impl View for SidebarItem {
    type V = SidebarSpec;

    open spec fn view(&self) -> SidebarSpec {
        match self {
            SidebarItem::SmartList(i) => SidebarSpec::SmartList(*i),
            SidebarItem::Separator => SidebarSpec::Separator,
            SidebarItem::ProjectsHeader => SidebarSpec::ProjectsHeader,
            SidebarItem::Project(p) => SidebarSpec::Project(p@),
            SidebarItem::ContextsHeader => SidebarSpec::ContextsHeader,
            SidebarItem::Context(c) => SidebarSpec::Context(c@),
        }
    }
}

pub open spec fn items_view(v: Seq<SidebarItem>) -> Seq<SidebarSpec> {
    v.map_values(|i: SidebarItem| i@)
}

impl SidebarItem {
    /// A copy of the item.
    pub fn duplicate(&self) -> (r: SidebarItem)
        ensures
            r@ == self@,
    {
        match self {
            SidebarItem::SmartList(i) => SidebarItem::SmartList(*i),
            SidebarItem::Separator => SidebarItem::Separator,
            SidebarItem::ProjectsHeader => SidebarItem::ProjectsHeader,
            SidebarItem::Project(p) => SidebarItem::Project(p.clone()),
            SidebarItem::ContextsHeader => SidebarItem::ContextsHeader,
            SidebarItem::Context(c) => SidebarItem::Context(c.clone()),
        }
    }

    /// Whether two items are the same entry.
    pub fn same(&self, other: &SidebarItem) -> (r: bool)
        ensures
            r == (self@ == other@),
    {
        match (self, other) {
            (SidebarItem::SmartList(a), SidebarItem::SmartList(b)) => *a == *b,
            (SidebarItem::Separator, SidebarItem::Separator) => true,
            (SidebarItem::ProjectsHeader, SidebarItem::ProjectsHeader) => true,
            (SidebarItem::Project(a), SidebarItem::Project(b)) => *a == *b,
            (SidebarItem::ContextsHeader, SidebarItem::ContextsHeader) => true,
            (SidebarItem::Context(a), SidebarItem::Context(b)) => *a == *b,
            _ => false,
        }
    }

    /// Whether the entry shows tasks (headers and separators do not).
    pub fn is_selectable(&self) -> (r: bool)
        ensures
            r == selectable(self@),
    {
        match self {
            SidebarItem::ProjectsHeader | SidebarItem::ContextsHeader | SidebarItem::Separator => false,
            _ => true,
        }
    }
}

pub open spec fn selectable(i: SidebarSpec) -> bool {
    !(i is ProjectsHeader || i is ContextsHeader || i is Separator)
}

/// The tasks of the task directory: the open ones and the done ones.
#[derive(Debug)]
pub struct Snapshot {
    pub open_tasks: Vec<StoredTask>,
    pub done_tasks: Vec<StoredTask>,
}

impl Snapshot {
    pub open spec fn all(&self) -> Seq<StoredView> {
        stored_view(self.open_tasks@) + stored_view(self.done_tasks@)
    }

    pub open spec fn open(&self) -> Seq<StoredView> {
        stored_view(self.open_tasks@)
    }

    /// An empty snapshot.
    pub fn empty() -> (r: Snapshot)
        ensures
            r.all() == Seq::<StoredView>::empty(),
            r.open() == Seq::<StoredView>::empty(),
    {
        let r = Snapshot { open_tasks: Vec::new(), done_tasks: Vec::new() };
        assert(r.all() =~= Seq::<StoredView>::empty());
        assert(r.open() =~= Seq::<StoredView>::empty());
        r
    }

    /// Copies of all tasks, the open ones first.
    pub fn all_tasks(&self) -> (r: Vec<StoredTask>)
        ensures
            stored_view(r@) == self.all(),
    {
        let mut all = copy_tasks(self.open_tasks.as_slice());
        let mut done = copy_tasks(self.done_tasks.as_slice());
        let ghost a = stored_view(all@);
        let ghost d = stored_view(done@);
        all.append(&mut done);
        assert(stored_view(all@) =~= a + d);
        all
    }
}

// ── Sidebar ───────────────────────────────────────────────────────────────────

/// The projects (or contexts) of a task.
pub open spec fn words_of(t: TaskView, projects: bool) -> Seq<Seq<char>> {
    if projects {
        t.projects
    } else {
        t.contexts
    }
}

/// The character that marks projects (`'+'`) or contexts (`'@'`).
pub open spec fn tag_char(projects: bool) -> char {
    if projects {
        '+'
    } else {
        '@'
    }
}

/// Whether `w` is a project (`+name`) or context (`@name`) of one of the tasks.
pub open spec fn tag_word(all: Seq<StoredView>, projects: bool, w: Seq<char>) -> bool {
    exists|i: int, j: int|
        0 <= i < all.len() && 0 <= j < words_of(all[i].task, projects).len() && w == seq![
            tag_char(projects),
        ] + #[trigger] words_of(all[i].task, projects)[j]
}

/// The sidebar: one entry per smart list, a separator after them when there
/// are any, the projects header, the projects, a separator, the contexts
/// header and the contexts.
pub open spec fn sidebar_layout(n: nat, projects: Seq<Seq<char>>, contexts: Seq<Seq<char>>) -> Seq<
    SidebarSpec,
> {
    Seq::new(n, |i: int| SidebarSpec::SmartList(i as usize)) + (if n > 0 {
        seq![SidebarSpec::Separator]
    } else {
        seq![]
    }) + seq![SidebarSpec::ProjectsHeader] + projects.map_values(
        |p: Seq<char>| SidebarSpec::Project(p),
    ) + seq![SidebarSpec::Separator, SidebarSpec::ContextsHeader] + contexts.map_values(
        |c: Seq<char>| SidebarSpec::Context(c),
    )
}

/// `items` is the sidebar for `n` smart lists and the tasks `all`: projects
/// (`+name`) and contexts (`@name`) each once, in string order.
pub open spec fn is_sidebar(items: Seq<SidebarSpec>, n: nat, all: Seq<StoredView>) -> bool {
    exists|ps: Seq<Seq<char>>, cs: Seq<Seq<char>>|
        {
            &&& increasing(ps)
            &&& increasing(cs)
            &&& (forall|w: Seq<char>| ps.contains(w) <==> tag_word(all, true, w))
            &&& (forall|w: Seq<char>| cs.contains(w) <==> tag_word(all, false, w))
            &&& #[trigger] sidebar_layout(n, ps, cs) == items
        }
}

fn prefixed(prefix: char, word: &String) -> (r: String)
    ensures
        r@ == seq![prefix] + word@,
{
    let mut s = String::new();
    crate::text::push_char(&mut s, prefix);
    assert(s@ =~= seq![prefix]);
    s.concat(word.as_str())
}

/// The distinct `+project` (or `@context`) words of the tasks, in order.
fn tag_words(all: &Vec<StoredTask>, projects: bool) -> (r: Vec<String>)
    ensures
        increasing(strs(r@)),
        forall|w: Seq<char>| strs(r@).contains(w) <==> tag_word(stored_view(all@), projects, w),
{
    let ghost sv = stored_view(all@);
    let mut out: Vec<String> = Vec::new();
    assert(strs(out@) =~= Seq::<Seq<char>>::empty());
    let prefix = if projects {
        '+'
    } else {
        '@'
    };
    let mut i: usize = 0;
    while i < all.len()
        invariant
            i <= all@.len(),
            sv == stored_view(all@),
            prefix == tag_char(projects),
            increasing(strs(out@)),
            forall|w: Seq<char>|
                strs(out@).contains(w) <==> tag_word(sv.take(i as int), projects, w),
        decreases all@.len() - i,
    {
        let words = if projects {
            &all[i].task.projects
        } else {
            &all[i].task.contexts
        };
        let ghost wv = strings_view(words@);
        assert(wv == words_of(sv[i as int].task, projects));
        let mut j: usize = 0;
        while j < words.len()
            invariant
                i < all@.len(),
                j <= words@.len(),
                sv == stored_view(all@),
                wv == strings_view(words@),
                wv == words_of(sv[i as int].task, projects),
                prefix == tag_char(projects),
                increasing(strs(out@)),
                forall|w: Seq<char>|
                    strs(out@).contains(w) <==> (tag_word(sv.take(i as int), projects, w) || exists|
                        k: int,
                    |
                        0 <= k < j && w == seq![prefix] + #[trigger] wv[k]),
            decreases words@.len() - j,
        {
            let ghost before = strs(out@);
            let word = prefixed(prefix, &words[j]);
            let ghost nw = word@;
            insert_sorted_unique(&mut out, word);
            assert forall|w: Seq<char>|
                strs(out@).contains(w) <==> (tag_word(sv.take(i as int), projects, w) || exists|
                    k: int,
                |
                    0 <= k < j + 1 && w == seq![prefix] + #[trigger] wv[k]) by {
                assert(strs(out@).contains(w) <==> (before.contains(w) || w == nw));
                if w == nw {
                    assert(0 <= j < j + 1 && w == seq![prefix] + wv[j as int]);
                }
                if exists|k: int| 0 <= k < j + 1 && w == seq![prefix] + #[trigger] wv[k] {
                    let k = choose|k: int| 0 <= k < j + 1 && w == seq![prefix] + #[trigger] wv[k];
                    if k < j {
                        assert(0 <= k < j && w == seq![prefix] + wv[k]);
                    }
                }
            }
            j = j + 1;
        }
        assert forall|w: Seq<char>|
            strs(out@).contains(w) <==> tag_word(sv.take(i + 1), projects, w) by {
            let t = sv.take(i + 1);
            if tag_word(t, projects, w) {
                let (a, b) = choose|a: int, b: int|
                    0 <= a < t.len() && 0 <= b < words_of(t[a].task, projects).len() && w == seq![
                        tag_char(projects),
                    ] + #[trigger] words_of(t[a].task, projects)[b];
                if a < i {
                    assert(t[a] == sv.take(i as int)[a]);
                    assert(w == seq![tag_char(projects)] + words_of(
                        sv.take(i as int)[a].task,
                        projects,
                    )[b]);
                } else {
                    assert(t[a] == sv[i as int]);
                    assert(w == seq![prefix] + wv[b]);
                }
            }
            if tag_word(sv.take(i as int), projects, w) {
                let (a, b) = choose|a: int, b: int|
                    0 <= a < sv.take(i as int).len() && 0 <= b < words_of(
                        sv.take(i as int)[a].task,
                        projects,
                    ).len() && w == seq![tag_char(projects)] + #[trigger] words_of(
                        sv.take(i as int)[a].task,
                        projects,
                    )[b];
                assert(t[a] == sv.take(i as int)[a]);
                assert(w == seq![tag_char(projects)] + words_of(t[a].task, projects)[b]);
            }
            if exists|k: int| 0 <= k < wv.len() && w == seq![prefix] + #[trigger] wv[k] {
                let k = choose|k: int| 0 <= k < wv.len() && w == seq![prefix] + #[trigger] wv[k];
                assert(t[i as int] == sv[i as int]);
                assert(w == seq![tag_char(projects)] + words_of(t[i as int].task, projects)[k]);
            }
        }
        i = i + 1;
    }
    assert(sv.take(all@.len() as int) =~= sv);
    out
}

/// The sidebar entries for the smart lists and the tasks.
fn build_sidebar_items(smart_lists: &Vec<SmartList>, snapshot: &Snapshot) -> (r: Vec<SidebarItem>)
    ensures
        is_sidebar(items_view(r@), smart_lists@.len(), snapshot.all()),
{
    let all = snapshot.all_tasks();
    let projects = tag_words(&all, true);
    let contexts = tag_words(&all, false);
    let ghost ps = strs(projects@);
    let ghost cs = strs(contexts@);
    let n = smart_lists.len();
    let mut items: Vec<SidebarItem> = Vec::new();
    let mut i: usize = 0;
    while i < n
        invariant
            i <= n,
            items_view(items@) == Seq::new(i as nat, |k: int| SidebarSpec::SmartList(k as usize)),
        decreases n - i,
    {
        let ghost before = items_view(items@);
        items.push(SidebarItem::SmartList(i));
        assert(items_view(items@) =~= before.push(SidebarSpec::SmartList(i)));
        assert(items_view(items@) =~= Seq::new((i + 1) as nat, |k: int| SidebarSpec::SmartList(k as usize)));
        i = i + 1;
    }
    let ghost lists_part = items_view(items@);
    if n > 0 {
        items.push(SidebarItem::Separator);
    }
    items.push(SidebarItem::ProjectsHeader);
    let ghost head = items_view(items@);
    assert(head =~= lists_part + (if n > 0 {
        seq![SidebarSpec::Separator]
    } else {
        seq![]
    }) + seq![SidebarSpec::ProjectsHeader]);
    let mut j: usize = 0;
    while j < projects.len()
        invariant
            j <= projects@.len(),
            ps == strs(projects@),
            items_view(items@) == head + ps.take(j as int).map_values(|p: Seq<char>| SidebarSpec::Project(p)),
        decreases projects@.len() - j,
    {
        let ghost before = items_view(items@);
        items.push(SidebarItem::Project(projects[j].clone()));
        assert(items_view(items@) =~= before.push(SidebarSpec::Project(ps[j as int])));
        assert(ps.take(j + 1).map_values(|p: Seq<char>| SidebarSpec::Project(p)) =~= ps.take(j as int).map_values(|p: Seq<char>| SidebarSpec::Project(p)).push(SidebarSpec::Project(ps[j as int])));
        assert(items_view(items@) =~= head + ps.take(j + 1).map_values(|p: Seq<char>| SidebarSpec::Project(p)));
        j = j + 1;
    }
    assert(ps.take(ps.len() as int) =~= ps);
    let ghost with_projects = items_view(items@);
    items.push(SidebarItem::Separator);
    items.push(SidebarItem::ContextsHeader);
    let ghost mid = items_view(items@);
    assert(mid =~= with_projects + seq![SidebarSpec::Separator, SidebarSpec::ContextsHeader]);
    let mut k: usize = 0;
    while k < contexts.len()
        invariant
            k <= contexts@.len(),
            cs == strs(contexts@),
            items_view(items@) == mid + cs.take(k as int).map_values(|c: Seq<char>| SidebarSpec::Context(c)),
        decreases contexts@.len() - k,
    {
        let ghost before = items_view(items@);
        items.push(SidebarItem::Context(contexts[k].clone()));
        assert(items_view(items@) =~= before.push(SidebarSpec::Context(cs[k as int])));
        assert(cs.take(k + 1).map_values(|c: Seq<char>| SidebarSpec::Context(c)) =~= cs.take(k as int).map_values(|c: Seq<char>| SidebarSpec::Context(c)).push(SidebarSpec::Context(cs[k as int])));
        assert(items_view(items@) =~= mid + cs.take(k + 1).map_values(|c: Seq<char>| SidebarSpec::Context(c)));
        k = k + 1;
    }
    assert(cs.take(cs.len() as int) =~= cs);
    assert(items_view(items@) =~= sidebar_layout(n as nat, ps, cs));
    items
}

// ── The tasks an entry shows ──────────────────────────────────────────────────

/// Whether some condition of the list asks for done tasks (`done`).
pub open spec fn wants_done(list: SmartList) -> bool {
    let bs = blocks_view(list.blocks@);
    exists|i: int, j: int|
        0 <= i < bs.len() && 0 <= j < bs[i].len() && #[trigger] bs[i][j] == (CondSpec::DoneFilter {
            done: true,
        })
}

/// The tasks a smart list is evaluated on: all of them when it asks for
/// done tasks, else the open ones.
pub open spec fn list_input(s: Snapshot, list: SmartList) -> Seq<StoredView> {
    if wants_done(list) {
        s.all()
    } else {
        s.open()
    }
}

fn needs_done_tasks(list: &SmartList) -> (r: bool)
    ensures
        r == wants_done(*list),
{
    let ghost bs = blocks_view(list.blocks@);
    let mut i: usize = 0;
    while i < list.blocks.len()
        invariant
            i <= list.blocks@.len(),
            bs == blocks_view(list.blocks@),
            forall|a: int, b: int|
                0 <= a < i && 0 <= b < bs[a].len() ==> #[trigger] bs[a][b]
                    != (CondSpec::DoneFilter { done: true }),
        decreases list.blocks@.len() - i,
    {
        let conds = &list.blocks[i].conditions;
        let mut j: usize = 0;
        while j < conds.len()
            invariant
                i < list.blocks@.len(),
                j <= conds@.len(),
                conds == list.blocks@[i as int].conditions,
                bs == blocks_view(list.blocks@),
                forall|b: int|
                    0 <= b < j ==> #[trigger] bs[i as int][b] != (CondSpec::DoneFilter { done: true }),
            decreases conds@.len() - j,
        {
            if let Condition::DoneFilter { done } = &conds[j] {
                if *done {
                    assert(bs[i as int][j as int] == (CondSpec::DoneFilter { done: true }));
                    return true;
                }
            }
            j = j + 1;
        }
        i = i + 1;
    }
    false
}

/// `s` without a leading `c`.
pub open spec fn strip_char(s: Seq<char>, c: char) -> Seq<char> {
    if s.len() > 0 && s[0] == c {
        s.drop_first()
    } else {
        s
    }
}

/// Whether the task has `word` among its projects (or contexts).
pub open spec fn has_word(projects: bool, word: Seq<char>) -> spec_fn(StoredView) -> bool {
    |x: StoredView| words_of(x.task, projects).contains(word)
}

/// Whether the smart list can be evaluated for the entry: entries that show
/// a smart list without a parse error need its evaluation to run.
pub open spec fn entry_ok(s: Snapshot, item: SidebarSpec, today: Seq<char>, lists: Seq<SmartList>) -> bool {
    match item {
        SidebarSpec::SmartList(i) => i < lists.len() && lists[i as int].parse_error is None
            ==> list_ok_on(lists[i as int], list_input(s, lists[i as int]), today),
        _ => true,
    }
}

/// `v` is what the entry shows before the search: a smart list's evaluation
/// (nothing for a list that failed to parse or does not exist), the tasks
/// with the project or context in rank order (see `ranking`), nothing for
/// headers and separators.
pub open spec fn is_entry_view(
    v: Seq<StoredView>,
    s: Snapshot,
    item: SidebarSpec,
    today: Seq<char>,
    lists: Seq<SmartList>,
) -> bool {
    match item {
        SidebarSpec::SmartList(i) => if i < lists.len() && lists[i as int].parse_error is None {
            is_stable_sort(
                v,
                selected(lists[i as int], list_input(s, lists[i as int]), today),
                lists[i as int].sort_directives@,
            )
        } else {
            v == Seq::<StoredView>::empty()
        },
        SidebarSpec::Project(p) => exists|o: Seq<StoredView>|
            #[trigger] is_ranked(o, s.all(), today) && v == o.filter(has_word(true, strip_char(p, '+'))),
        SidebarSpec::Context(c) => exists|o: Seq<StoredView>|
            #[trigger] is_ranked(o, s.all(), today) && v == o.filter(has_word(false, strip_char(c, '@'))),
        _ => v == Seq::<StoredView>::empty(),
    }
}

fn strip_leading(s: &String, c: char) -> (r: Vec<char>)
    ensures
        r@ == strip_char(s@, c),
{
    let cs = chars_of(s.as_str());
    if cs.len() > 0 && cs[0] == c {
        let rest = crate::text::slice_range(cs.as_slice(), 1, cs.len());
        assert(rest@ =~= s@.drop_first());
        vstd::slice::slice_to_vec(rest)
    } else {
        cs
    }
}

fn contains_word(words: &Vec<String>, word: &[char]) -> (r: bool)
    ensures
        r == strings_view(words@).contains(word@),
{
    let ghost ws = strings_view(words@);
    let mut i: usize = 0;
    while i < words.len()
        invariant
            i <= words@.len(),
            ws == strings_view(words@),
            forall|j: int| 0 <= j < i ==> ws[j] != word@,
        decreases words@.len() - i,
    {
        let w = chars_of(words[i].as_str());
        if crate::text::chars_eq(w.as_slice(), word) {
            assert(ws[i as int] == word@);
            return true;
        }
        i = i + 1;
    }
    false
}

/// The tasks having the project (or context) `word`, in their order.
fn with_word(all: &Vec<StoredTask>, projects: bool, word: &[char]) -> (r: Vec<StoredTask>)
    ensures
        stored_view(r@) == stored_view(all@).filter(has_word(projects, word@)),
{
    let ghost sv = stored_view(all@);
    let ghost pred = has_word(projects, word@);
    let mut out: Vec<StoredTask> = Vec::new();
    let mut i: usize = 0;
    while i < all.len()
        invariant
            i <= all@.len(),
            sv == stored_view(all@),
            pred == has_word(projects, word@),
            stored_view(out@) == sv.take(i as int).filter(pred),
        decreases all@.len() - i,
    {
        assert(sv.take(i + 1) =~= sv.take(i as int).push(sv[i as int]));
        proof {
            sv.take(i as int).lemma_filter_push(sv[i as int], pred);
        }
        assert(sv[i as int] == all@[i as int]@);
        let words = if projects {
            &all[i].task.projects
        } else {
            &all[i].task.contexts
        };
        if contains_word(words, word) {
            out.push(all[i].duplicate());
            assert(stored_view(out@) =~= sv.take(i as int).filter(pred).push(sv[i as int]));
        }
        i = i + 1;
    }
    assert(sv.take(all@.len() as int) =~= sv);
    out
}

/// The tasks of the snapshot, open and done, in rank order.
fn ordered_tasks(snapshot: &Snapshot, today: &str) -> (r: Vec<StoredTask>)
    ensures
        is_ranked(stored_view(r@), snapshot.all(), today@),
{
    let all = snapshot.all_tasks();
    rank_tasks(all.as_slice(), today)
}

/// The tasks an entry shows before the search is applied.
fn filter_snapshot(
    snapshot: &Snapshot,
    active: &SidebarItem,
    today: &str,
    smart_lists: &Vec<SmartList>,
) -> (r: Vec<StoredTask>)
    requires
        entry_ok(*snapshot, active@, today@, smart_lists@),
    ensures
        is_entry_view(stored_view(r@), *snapshot, active@, today@, smart_lists@),
{
    match active {
        SidebarItem::SmartList(index) => {
            if *index < smart_lists.len() {
                let smart_list = &smart_lists[*index];
                if smart_list.parse_error.is_some() {
                    let r: Vec<StoredTask> = Vec::new();
                    assert(stored_view(r@) =~= Seq::<StoredView>::empty());
                    return r;
                }
                let all_tasks = if needs_done_tasks(smart_list) {
                    snapshot.all_tasks()
                } else {
                    copy_tasks(snapshot.open_tasks.as_slice())
                };
                assert(list_ok(*smart_list, all_tasks@, today@));
                evaluate(smart_list, all_tasks.as_slice(), today)
            } else {
                let r: Vec<StoredTask> = Vec::new();
                assert(stored_view(r@) =~= Seq::<StoredView>::empty());
                r
            }
        },
        SidebarItem::Project(project) => {
            let word = strip_leading(project, '+');
            let ordered = ordered_tasks(snapshot, today);
            let r = with_word(&ordered, true, word.as_slice());
            assert(is_ranked(stored_view(ordered@), snapshot.all(), today@));
            r
        },
        SidebarItem::Context(context) => {
            let word = strip_leading(context, '@');
            let ordered = ordered_tasks(snapshot, today);
            let r = with_word(&ordered, false, word.as_slice());
            assert(is_ranked(stored_view(ordered@), snapshot.all(), today@));
            r
        },
        _ => {
            let r: Vec<StoredTask> = Vec::new();
            assert(stored_view(r@) =~= Seq::<StoredView>::empty());
            r
        },
    }
}

/// Whether the task's line contains the query, ignoring case.
pub open spec fn raw_matches(q: Seq<char>) -> spec_fn(StoredView) -> bool {
    |x: StoredView| contains_seq(lowercase(x.task.raw), lowercase(q))
}

/// The tasks whose line contains the query, ignoring case; all of them for
/// an empty query.
pub open spec fn search_filter(v: Seq<StoredView>, q: Seq<char>) -> Seq<StoredView> {
    if q.len() == 0 {
        v
    } else {
        v.filter(raw_matches(q))
    }
}

/// The tasks whose line contains `query`, ignoring case, in their order.
pub fn apply_search_filter(tasks: Vec<StoredTask>, query: &str) -> (r: Vec<StoredTask>)
    ensures
        stored_view(r@) == search_filter(stored_view(tasks@), query@),
{
    if query.unicode_len() == 0 {
        return tasks;
    }
    let ghost sv = stored_view(tasks@);
    let ghost pred = raw_matches(query@);
    let needle_s = to_lowercase(query);
    let needle = chars_of(needle_s.as_str());
    let mut out: Vec<StoredTask> = Vec::new();
    let mut i: usize = 0;
    while i < tasks.len()
        invariant
            i <= tasks@.len(),
            sv == stored_view(tasks@),
            pred == raw_matches(query@),
            needle@ == lowercase(query@),
            stored_view(out@) == sv.take(i as int).filter(pred),
        decreases tasks@.len() - i,
    {
        assert(sv.take(i + 1) =~= sv.take(i as int).push(sv[i as int]));
        proof {
            sv.take(i as int).lemma_filter_push(sv[i as int], pred);
        }
        assert(sv[i as int] == tasks@[i as int]@);
        let hay_s = to_lowercase(tasks[i].task.raw.as_str());
        let hay = chars_of(hay_s.as_str());
        if contains_chars(hay.as_slice(), needle.as_slice()) {
            out.push(tasks[i].duplicate());
            assert(stored_view(out@) =~= sv.take(i as int).filter(pred).push(sv[i as int]));
        }
        i = i + 1;
    }
    assert(sv.take(tasks@.len() as int) =~= sv);
    out
}

// ── Keeping the selection across reloads ───────────────────────────────────────

/// The parts of a task that identify it apart from where it is stored.
#[derive(Debug)]
struct LogicalTaskKey {
    priority: Option<char>,
    creation_date: Option<String>,
    description: String,
    projects: Vec<String>,
    contexts: Vec<String>,
    tags: Vec<(String, String)>,
}

/// The identifying parts of a task view.
pub struct LogicalView {
    pub priority: Option<char>,
    pub creation_date: Option<Seq<char>>,
    pub description: Seq<char>,
    pub projects: Seq<Seq<char>>,
    pub contexts: Seq<Seq<char>>,
    pub tags: Seq<(Seq<char>, Seq<char>)>,
}

pub open spec fn logical_of(t: TaskView) -> LogicalView {
    LogicalView {
        priority: t.priority,
        creation_date: t.creation_date,
        description: t.description,
        projects: t.projects,
        contexts: t.contexts,
        tags: t.tags,
    }
}

impl View for LogicalTaskKey {
    type V = LogicalView;

    closed spec fn view(&self) -> LogicalView {
        LogicalView {
            priority: self.priority,
            creation_date: opt_view(self.creation_date),
            description: self.description@,
            projects: strings_view(self.projects@),
            contexts: strings_view(self.contexts@),
            tags: crate::task::pairs_view(self.tags@),
        }
    }
}

fn strings_eq(a: &Vec<String>, b: &Vec<String>) -> (r: bool)
    ensures
        r == (strings_view(a@) == strings_view(b@)),
{
    if a.len() != b.len() {
        return false;
    }
    let mut i: usize = 0;
    while i < a.len()
        invariant
            a@.len() == b@.len(),
            i <= a@.len(),
            forall|j: int| 0 <= j < i ==> a@[j]@ == b@[j]@,
        decreases a@.len() - i,
    {
        if a[i] != b[i] {
            assert(strings_view(a@)[i as int] != strings_view(b@)[i as int]);
            return false;
        }
        i = i + 1;
    }
    assert(strings_view(a@) =~= strings_view(b@));
    true
}

fn pairs_eq(a: &Vec<(String, String)>, b: &Vec<(String, String)>) -> (r: bool)
    ensures
        r == (crate::task::pairs_view(a@) == crate::task::pairs_view(b@)),
{
    if a.len() != b.len() {
        return false;
    }
    let mut i: usize = 0;
    while i < a.len()
        invariant
            a@.len() == b@.len(),
            i <= a@.len(),
            forall|j: int| 0 <= j < i ==> a@[j].0@ == b@[j].0@ && a@[j].1@ == b@[j].1@,
        decreases a@.len() - i,
    {
        if a[i].0 != b[i].0 || a[i].1 != b[i].1 {
            assert(crate::task::pairs_view(a@)[i as int] != crate::task::pairs_view(b@)[i as int]);
            return false;
        }
        i = i + 1;
    }
    assert(crate::task::pairs_view(a@) =~= crate::task::pairs_view(b@));
    true
}

fn opt_string_eq(a: &Option<String>, b: &Option<String>) -> (r: bool)
    ensures
        r == (opt_view(*a) == opt_view(*b)),
{
    match (a, b) {
        (Some(x), Some(y)) => *x == *y,
        (None, None) => true,
        _ => false,
    }
}

impl LogicalTaskKey {
    fn from_task(task: &crate::task::Task) -> (r: LogicalTaskKey)
        ensures
            r@ == logical_of(task@),
    {
        LogicalTaskKey {
            priority: task.priority,
            creation_date: crate::task::clone_opt_string(&task.creation_date),
            description: task.description.clone(),
            projects: crate::task::clone_strings(&task.projects),
            contexts: crate::task::clone_strings(&task.contexts),
            tags: task.duplicate().tags,
        }
    }

    fn matches(&self, task: &crate::task::Task) -> (r: bool)
        ensures
            r == (self@ == logical_of(task@)),
    {
        let same_priority = match (self.priority, task.priority) {
            (Some(a), Some(b)) => a == b,
            (None, None) => true,
            _ => false,
        };
        same_priority && opt_string_eq(&self.creation_date, &task.creation_date)
            && self.description == task.description && strings_eq(&self.projects, &task.projects)
            && strings_eq(&self.contexts, &task.contexts) && pairs_eq(&self.tags, &task.tags)
    }
}

/// What the selection was, to find it again after the tasks change.
#[derive(Debug)]
struct SelectionTarget {
    task_id: Option<TaskId>,
    file_name: Option<String>,
    raw: Option<String>,
    logical: Option<LogicalTaskKey>,
    fallback_index: Option<usize>,
}

pub struct TargetView {
    pub task_id: Option<Seq<char>>,
    pub file_name: Option<Seq<char>>,
    pub raw: Option<Seq<char>>,
    pub logical: Option<LogicalView>,
    pub fallback_index: Option<usize>,
}

impl View for SelectionTarget {
    type V = TargetView;

    closed spec fn view(&self) -> TargetView {
        TargetView {
            task_id: match self.task_id {
                Some(id) => Some(id@),
                None => None,
            },
            file_name: opt_view(self.file_name),
            raw: opt_view(self.raw),
            logical: match self.logical {
                Some(l) => Some(l@),
                None => None,
            },
            fallback_index: self.fallback_index,
        }
    }
}

/// The target that remembers the stored task at `index`.
pub open spec fn target_of(x: StoredView, index: Option<usize>) -> TargetView {
    TargetView {
        task_id: Some(x.id),
        file_name: Some(x.id),
        raw: Some(x.task.raw),
        logical: Some(logical_of(x.task)),
        fallback_index: index,
    }
}

impl SelectionTarget {
    fn from_stored(stored: &StoredTask, index: Option<usize>) -> (r: SelectionTarget)
        ensures
            r@ == target_of(stored@, index),
    {
        SelectionTarget {
            task_id: Some(stored.id.duplicate()),
            file_name: Some(stored.id.file_name.clone()),
            raw: Some(stored.task.raw.clone()),
            logical: Some(LogicalTaskKey::from_task(&stored.task)),
            fallback_index: index,
        }
    }
}

/// The index of the first task that satisfies `p`.
pub open spec fn first_where(v: Seq<StoredView>, p: spec_fn(StoredView) -> bool) -> Option<int>
    decreases v.len(),
{
    if v.len() == 0 {
        None
    } else if p(v[0]) {
        Some(0)
    } else {
        match first_where(v.drop_first(), p) {
            Some(i) => Some(i + 1),
            None => None,
        }
    }
}

pub proof fn lemma_first_where(v: Seq<StoredView>, p: spec_fn(StoredView) -> bool)
    ensures
        first_where(v, p) matches Some(i) ==> 0 <= i < v.len() && p(v[i]) && forall|j: int|
            0 <= j < i ==> !p(#[trigger] v[j]),
        first_where(v, p) is None ==> forall|j: int| 0 <= j < v.len() ==> !p(#[trigger] v[j]),
    decreases v.len(),
{
    if v.len() > 0 && !p(v[0]) {
        lemma_first_where(v.drop_first(), p);
        assert forall|j: int| 1 <= j < v.len() implies v[j] == v.drop_first()[j - 1] by {}
    }
}

/// Where the selection goes among `v`: the task with the remembered id,
/// else the one in the remembered file, else the one with the remembered
/// line, else the one with the same parts, else the remembered position
/// (clamped), else the first task; nothing when there are no tasks.
pub open spec fn reselected(t: Option<TargetView>, v: Seq<StoredView>) -> Option<int> {
    let by_id = match t {
        Some(tv) => match tv.task_id {
            Some(id) => first_where(v, |x: StoredView| x.id == id),
            None => None,
        },
        None => None,
    };
    let by_file = match t {
        Some(tv) => match tv.file_name {
            Some(f) => first_where(v, |x: StoredView| x.id == f),
            None => None,
        },
        None => None,
    };
    let by_raw = match t {
        Some(tv) => match tv.raw {
            Some(r) => first_where(v, |x: StoredView| x.task.raw == r),
            None => None,
        },
        None => None,
    };
    let by_logical = match t {
        Some(tv) => match tv.logical {
            Some(l) => first_where(v, |x: StoredView| logical_of(x.task) == l),
            None => None,
        },
        None => None,
    };
    let by_position = match t {
        Some(tv) => match tv.fallback_index {
            Some(i) => if v.len() > 0 {
                Some(
                    if i < v.len() {
                        i as int
                    } else {
                        v.len() - 1
                    },
                )
            } else {
                None
            },
            None => None,
        },
        None => None,
    };
    if by_id is Some {
        by_id
    } else if by_file is Some {
        by_file
    } else if by_raw is Some {
        by_raw
    } else if by_logical is Some {
        by_logical
    } else if by_position is Some {
        by_position
    } else if v.len() > 0 {
        Some(0)
    } else {
        None
    }
}

fn position_by_id(v: &Vec<StoredTask>, id: &TaskId) -> (r: Option<usize>)
    ensures
        r matches Some(i) ==> first_where(stored_view(v@), |x: StoredView| x.id == id@) == Some(
            i as int,
        ),
        r is None ==> first_where(stored_view(v@), |x: StoredView| x.id == id@) is None,
{
    let ghost sv = stored_view(v@);
    let ghost p = |x: StoredView| x.id == id@;
    proof {
        lemma_first_where(sv, p);
    }
    let mut i: usize = 0;
    while i < v.len()
        invariant
            i <= v@.len(),
            sv == stored_view(v@),
            p == (|x: StoredView| x.id == id@),
            forall|j: int| 0 <= j < i ==> !p(#[trigger] sv[j]),
            first_where(sv, p) matches Some(k) ==> 0 <= k < sv.len() && p(sv[k]) && forall|j: int|
                0 <= j < k ==> !p(#[trigger] sv[j]),
            first_where(sv, p) is None ==> forall|j: int| 0 <= j < sv.len() ==> !p(#[trigger] sv[j]),
        decreases v@.len() - i,
    {
        assert(sv[i as int] == v@[i as int]@);
        if v[i].id.file_name == id.file_name {
            return Some(i);
        }
        i = i + 1;
    }
    None
}

fn position_by_raw(v: &Vec<StoredTask>, raw: &String) -> (r: Option<usize>)
    ensures
        r matches Some(i) ==> first_where(stored_view(v@), |x: StoredView| x.task.raw == raw@)
            == Some(i as int),
        r is None ==> first_where(stored_view(v@), |x: StoredView| x.task.raw == raw@) is None,
{
    let ghost sv = stored_view(v@);
    let ghost p = |x: StoredView| x.task.raw == raw@;
    proof {
        lemma_first_where(sv, p);
    }
    let mut i: usize = 0;
    while i < v.len()
        invariant
            i <= v@.len(),
            sv == stored_view(v@),
            p == (|x: StoredView| x.task.raw == raw@),
            forall|j: int| 0 <= j < i ==> !p(#[trigger] sv[j]),
            first_where(sv, p) matches Some(k) ==> 0 <= k < sv.len() && p(sv[k]) && forall|j: int|
                0 <= j < k ==> !p(#[trigger] sv[j]),
            first_where(sv, p) is None ==> forall|j: int| 0 <= j < sv.len() ==> !p(#[trigger] sv[j]),
        decreases v@.len() - i,
    {
        assert(sv[i as int] == v@[i as int]@);
        if v[i].task.raw == *raw {
            return Some(i);
        }
        i = i + 1;
    }
    None
}

fn position_by_logical(v: &Vec<StoredTask>, key: &LogicalTaskKey) -> (r: Option<usize>)
    ensures
        r matches Some(i) ==> first_where(stored_view(v@), |x: StoredView| logical_of(x.task) == key@)
            == Some(i as int),
        r is None ==> first_where(stored_view(v@), |x: StoredView| logical_of(x.task) == key@) is None,
{
    let ghost sv = stored_view(v@);
    let ghost p = |x: StoredView| logical_of(x.task) == key@;
    proof {
        lemma_first_where(sv, p);
    }
    let mut i: usize = 0;
    while i < v.len()
        invariant
            i <= v@.len(),
            sv == stored_view(v@),
            p == (|x: StoredView| logical_of(x.task) == key@),
            forall|j: int| 0 <= j < i ==> !p(#[trigger] sv[j]),
            first_where(sv, p) matches Some(k) ==> 0 <= k < sv.len() && p(sv[k]) && forall|j: int|
                0 <= j < k ==> !p(#[trigger] sv[j]),
            first_where(sv, p) is None ==> forall|j: int| 0 <= j < sv.len() ==> !p(#[trigger] sv[j]),
        decreases v@.len() - i,
    {
        assert(sv[i as int] == v@[i as int]@);
        if key.matches(&v[i].task) {
            return Some(i);
        }
        i = i + 1;
    }
    None
}

fn reselect_index(wanted: &Option<SelectionTarget>, visible: &Vec<StoredTask>) -> (r: Option<usize>)
    ensures
        match r {
            Some(i) => reselected(opt_target(*wanted), stored_view(visible@)) == Some(i as int),
            None => reselected(opt_target(*wanted), stored_view(visible@)) is None,
        },
{
    let n = visible.len();
    if let Some(target) = wanted {
        if let Some(id) = &target.task_id {
            if let Some(i) = position_by_id(visible, id) {
                return Some(i);
            }
        }
        if let Some(file_name) = &target.file_name {
            let id = TaskId { file_name: file_name.clone() };
            if let Some(i) = position_by_id(visible, &id) {
                return Some(i);
            }
        }
        if let Some(raw) = &target.raw {
            if let Some(i) = position_by_raw(visible, raw) {
                return Some(i);
            }
        }
        if let Some(logical) = &target.logical {
            if let Some(i) = position_by_logical(visible, logical) {
                return Some(i);
            }
        }
        if let Some(index) = target.fallback_index {
            if n > 0 {
                return Some(
                    if index < n {
                        index
                    } else {
                        n - 1
                    },
                );
            }
        }
    }
    if n > 0 {
        Some(0)
    } else {
        None
    }
}

spec fn opt_target(t: Option<SelectionTarget>) -> Option<TargetView> {
    match t {
        Some(x) => Some(x@),
        None => None,
    }
}


// ── The session ───────────────────────────────────────────────────────────────

/// Whether every smart list that parsed can be evaluated on the tasks it
/// reads. A list fails only where a `today + N` offset leaves the range of
/// day numbers, and evaluating such a list would fail as soon as it is
/// shown. The session asks this of every list, not only the one shown
/// first, when it is opened or reloaded: any later key or click may show
/// any list, and holding the lists to it once keeps every later step free
/// of that failure.
pub open spec fn lists_ok(s: Snapshot, lists: Seq<SmartList>, today: Seq<char>) -> bool {
    forall|i: int|
        0 <= i < lists.len() && lists[i].parse_error is None ==> list_ok_on(
            #[trigger] lists[i],
            list_input(s, lists[i]),
            today,
        )
}

/// The selected task as the interface shows it.
pub open spec fn selected_view(x: StoredView) -> SelectedView {
    SelectedView { id: x.id, raw: x.task.raw, original_raw: x.task.raw }
}

/// A single unlabelled group holding `v`.
pub open spec fn one_group(v: Seq<StoredView>) -> Seq<(Seq<char>, Seq<StoredView>)> {
    seq![(Seq::<char>::empty(), v)]
}

/// The entry the sidebar keeps after it is rebuilt: the active one while it
/// is still there, else the first entry that shows tasks, else the first
/// smart list.
pub open spec fn kept_active(active: SidebarSpec, items: Seq<SidebarSpec>) -> SidebarSpec {
    if items.contains(active) {
        active
    } else {
        match first_item(items) {
            Some(i) => items[i],
            None => SidebarSpec::SmartList(0),
        }
    }
}

/// The index of the first entry that shows tasks.
pub open spec fn first_item(items: Seq<SidebarSpec>) -> Option<int>
    decreases items.len(),
{
    if items.len() == 0 {
        None
    } else if selectable(items[0]) {
        Some(0)
    } else {
        match first_item(items.drop_first()) {
            Some(i) => Some(i + 1),
            None => None,
        }
    }
}

pub proof fn lemma_first_item(items: Seq<SidebarSpec>)
    ensures
        first_item(items) matches Some(i) ==> 0 <= i < items.len() && selectable(items[i])
            && forall|j: int| 0 <= j < i ==> !selectable(#[trigger] items[j]),
        first_item(items) is None ==> forall|j: int|
            0 <= j < items.len() ==> !selectable(#[trigger] items[j]),
    decreases items.len(),
{
    if items.len() > 0 && !selectable(items[0]) {
        lemma_first_item(items.drop_first());
        assert forall|j: int| 1 <= j < items.len() implies items[j] == items.drop_first()[j - 1] by {}
    }
}

/// Whether every smart list that parsed can be evaluated on the tasks it
/// reads: what `open` and the reloads need.
pub fn lists_can_run(snapshot: &Snapshot, lists: &Vec<SmartList>, today: &str) -> (r: bool)
    ensures
        r == lists_ok(*snapshot, lists@, today@),
{
    let mut i: usize = 0;
    while i < lists.len()
        invariant
            i <= lists@.len(),
            forall|j: int|
                0 <= j < i && lists@[j].parse_error is None ==> list_ok_on(
                    #[trigger] lists@[j],
                    list_input(*snapshot, lists@[j]),
                    today@,
                ),
        decreases lists@.len() - i,
    {
        let list = &lists[i];
        if list.parse_error.is_none() {
            let input = if needs_done_tasks(list) {
                snapshot.all_tasks()
            } else {
                copy_tasks(snapshot.open_tasks.as_slice())
            };
            if !crate::smartlist::list_can_run(list, input.as_slice(), today) {
                return false;
            }
        }
        i = i + 1;
    }
    true
}

/// A terminal session over a task directory: the sidebar, the tasks the
/// active entry shows, and the selected task.
pub struct TuiSession {
    app: AppState,
    has_store: bool,
    today: String,
    snapshot: Snapshot,
    smart_lists: Vec<SmartList>,
    sidebar_items: Vec<SidebarItem>,
    active_sidebar_item: SidebarItem,
    visible_tasks: Vec<StoredTask>,
    visible_groups: Vec<TaskGroup>,
    selected_task_index: Option<usize>,
}

impl TuiSession {
    /// The interface state.
    pub closed spec fn state(&self) -> AppState {
        self.app
    }

    /// Whether a task directory is open.
    pub closed spec fn store_open(&self) -> bool {
        self.has_store
    }

    /// The date the smart lists are evaluated for.
    pub closed spec fn day(&self) -> Seq<char> {
        self.today@
    }

    /// The tasks of the task directory.
    pub closed spec fn tasks(&self) -> Snapshot {
        self.snapshot
    }

    /// The smart lists.
    pub closed spec fn lists(&self) -> Seq<SmartList> {
        self.smart_lists@
    }

    /// The sidebar entries.
    pub closed spec fn items(&self) -> Seq<SidebarSpec> {
        items_view(self.sidebar_items@)
    }

    /// The active sidebar entry.
    pub closed spec fn active(&self) -> SidebarSpec {
        self.active_sidebar_item@
    }

    /// The tasks shown.
    pub closed spec fn shown(&self) -> Seq<StoredView> {
        stored_view(self.visible_tasks@)
    }

    /// The shown tasks in their groups.
    pub closed spec fn groups(&self) -> Seq<(Seq<char>, Seq<StoredView>)> {
        groups_view(self.visible_groups@)
    }

    /// The position of the selected task among the shown ones.
    pub closed spec fn selection(&self) -> Option<usize> {
        self.selected_task_index
    }

    /// The session's invariant: the smart lists can be evaluated on the
    /// tasks, and a task is selected, within range, exactly when tasks are
    /// shown.
    pub closed spec fn wf(&self) -> bool {
        &&& lists_ok(self.snapshot, self.smart_lists@, self.today@)
        &&& (self.selected_task_index matches Some(i) ==> i < self.visible_tasks@.len())
        &&& (self.selected_task_index is Some <==> self.visible_tasks@.len() > 0)
    }

    /// The shown tasks are those of the active entry that match the search
    /// `q`.
    pub open spec fn shows(&self, q: Seq<char>) -> bool {
        exists|e: Seq<StoredView>|
            is_entry_view(e, self.tasks(), self.active(), self.day(), self.lists()) && #[trigger] search_filter(
                e,
                q,
            ) == self.shown()
    }

    /// The groups are those of the active smart list over the shown tasks,
    /// or one group of all of them for other entries.
    pub open spec fn grouped(&self) -> bool {
        match self.active() {
            SidebarSpec::SmartList(i) => if i < self.lists().len() {
                let l = self.lists()[i as int];
                &&& l.group_directives@.len() == 0 ==> self.groups() == one_group(self.shown())
                &&& l.group_directives@.len() > 0 ==> is_grouping(
                    self.groups(),
                    self.shown(),
                    l.group_directives@[0],
                )
            } else {
                self.groups() == one_group(self.shown())
            },
            _ => self.groups() == one_group(self.shown()),
        }
    }

    /// The interface's selected task is the shown task at the selection.
    pub open spec fn synced(&self) -> bool {
        match self.selection() {
            Some(i) => self.state().selected_task matches Some(t) && 0 <= i < self.shown().len()
                && t@ == selected_view(self.shown()[i as int]),
            None => self.state().selected_task is None,
        }
    }

    /// `self` and `other` have the same tasks, lists, date and store.
    pub open spec fn same_source(&self, other: &TuiSession) -> bool {
        &&& self.store_open() == other.store_open()
        &&& self.day() == other.day()
        &&& self.tasks() == other.tasks()
        &&& self.lists() == other.lists()
    }

    /// `self` and `other` show the same sidebar and tasks.
    pub open spec fn same_view(&self, other: &TuiSession) -> bool {
        &&& self.items() == other.items()
        &&& self.active() == other.active()
        &&& self.shown() == other.shown()
        &&& self.groups() == other.groups()
    }

    /// A session with no task directory yet: the welcome screen.
    pub fn welcome(today: &str) -> (r: TuiSession)
        ensures
            r.wf(),
            is_fresh(r.state(), AppMode::Welcome),
            r.state().selected_task is None,
            !r.store_open(),
            r.day() == today@,
            r.tasks().all() == Seq::<StoredView>::empty(),
            r.lists() == Seq::<SmartList>::empty(),
            r.items() == Seq::<SidebarSpec>::empty(),
            r.active() == SidebarSpec::SmartList(0),
            r.shown() == Seq::<StoredView>::empty(),
            r.groups() == Seq::<(Seq<char>, Seq<StoredView>)>::empty(),
            r.selection() is None,
    {
        let r = TuiSession {
            app: AppState::new(AppMode::Welcome),
            has_store: false,
            today: today.to_string(),
            snapshot: Snapshot::empty(),
            smart_lists: Vec::new(),
            sidebar_items: Vec::new(),
            active_sidebar_item: SidebarItem::SmartList(0),
            visible_tasks: Vec::new(),
            visible_groups: Vec::new(),
            selected_task_index: None,
        };
        assert(r.items() =~= Seq::<SidebarSpec>::empty());
        assert(r.shown() =~= Seq::<StoredView>::empty());
        assert(r.groups() =~= Seq::<(Seq<char>, Seq<StoredView>)>::empty());
        r
    }

    /// The sidebar entries.
    pub fn sidebar_items(&self) -> (r: &[SidebarItem])
        ensures
            items_view(r@) == self.items(),
    {
        self.sidebar_items.as_slice()
    }

    /// The interface state.
    pub fn app(&self) -> (r: &AppState)
        ensures
            *r == self.state(),
    {
        &self.app
    }

    /// The active sidebar entry.
    pub fn active_sidebar_item(&self) -> (r: SidebarItem)
        ensures
            r@ == self.active(),
    {
        self.active_sidebar_item.duplicate()
    }

    /// The tasks shown.
    pub fn visible_tasks(&self) -> (r: &[StoredTask])
        ensures
            stored_view(r@) == self.shown(),
    {
        self.visible_tasks.as_slice()
    }

    /// The shown tasks in their groups.
    pub fn visible_groups(&self) -> (r: &[TaskGroup])
        ensures
            groups_view(r@) == self.groups(),
    {
        self.visible_groups.as_slice()
    }

    /// The smart lists.
    pub fn smart_lists(&self) -> (r: &[SmartList])
        ensures
            r@ == self.lists(),
    {
        self.smart_lists.as_slice()
    }

    /// The smart list of the active entry, if it is one that exists.
    pub fn smart_list_for_active(&self) -> (r: Option<&SmartList>)
        ensures
            r matches Some(l) ==> self.active() matches SidebarSpec::SmartList(i) && i
                < self.lists().len() && *l == self.lists()[i as int],
            r is None ==> !(self.active() matches SidebarSpec::SmartList(i) && i
                < self.lists().len()),
    {
        match &self.active_sidebar_item {
            SidebarItem::SmartList(index) => {
                if *index < self.smart_lists.len() {
                    Some(&self.smart_lists[*index])
                } else {
                    None
                }
            },
            _ => None,
        }
    }

    /// The selected task.
    pub fn selected_task(&self) -> (r: Option<&StoredTask>)
        requires
            self.wf(),
        ensures
            r matches Some(t) ==> self.selection() matches Some(i) && t@ == self.shown()[i as int],
            r is None ==> self.selection() is None,
    {
        match self.selected_task_index {
            Some(index) => Some(&self.visible_tasks[index]),
            None => None,
        }
    }

    /// Points the interface's selected task at the shown task at the
    /// selection.
    fn sync_selected_task(&mut self)
        requires
            old(self).selected_task_index matches Some(i) ==> i < old(self).visible_tasks@.len(),
        ensures
            final(self).synced(),
            final(self).app == (AppState { selected_task: final(self).app.selected_task, ..old(self).app }),
            *final(self) == (TuiSession { app: final(self).app, ..*old(self) }),
    {
        let sel = match self.selected_task_index {
            Some(index) => {
                let stored = &self.visible_tasks[index];
                Some(
                    SelectedTask::with_original_raw(
                        stored.id.duplicate(),
                        stored.task.raw.clone(),
                        stored.task.raw.clone(),
                    ),
                )
            },
            None => None,
        };
        self.app.selected_task = sel;
    }

    /// Recomputes the shown tasks, their groups and the selection (the first
    /// task) for the active entry and the search.
    fn rebuild_visible_tasks(&mut self)
        requires
            lists_ok(old(self).snapshot, old(self).smart_lists@, old(self).today@),
        ensures
            final(self).wf(),
            final(self).same_source(old(self)),
            final(self).items() == old(self).items(),
            final(self).active() == old(self).active(),
            final(self).shows(old(self).state().search_query@),
            final(self).grouped(),
            final(self).selection() == (if final(self).shown().len() == 0 {
                None::<usize>
            } else {
                Some(0usize)
            }),
            final(self).synced(),
            final(self).state() == (AppState {
                selected_task: final(self).state().selected_task,
                ..old(self).state()
            }),
    {
        let entry = filter_snapshot(
            &self.snapshot,
            &self.active_sidebar_item,
            self.today.as_str(),
            &self.smart_lists,
        );
        let ghost e = stored_view(entry@);
        let ghost q = self.app.search_query@;
        self.visible_tasks = apply_search_filter(entry, self.app.search_query.as_str());
        assert(search_filter(e, q) == self.shown());
        let groups = match self.smart_list_for_active() {
            Some(list) => group(list, self.visible_tasks.as_slice()),
            None => {
                let g = vec![TaskGroup { label: String::new(), tasks: copy_tasks(self.visible_tasks.as_slice()) }];
                assert(groups_view(g@) =~= one_group(stored_view(self.visible_tasks@)));
                g
            },
        };
        self.visible_groups = groups;
        self.selected_task_index = if self.visible_tasks.len() == 0 {
            None
        } else {
            Some(0)
        };
        self.sync_selected_task();
    }

    /// Rebuilds the sidebar from the lists and tasks, keeps the active entry
    /// while it is still there, and recomputes the shown tasks.
    fn rebuild(&mut self)
        requires
            lists_ok(old(self).snapshot, old(self).smart_lists@, old(self).today@),
        ensures
            final(self).wf(),
            final(self).same_source(old(self)),
            is_sidebar(final(self).items(), final(self).lists().len(), final(self).tasks().all()),
            final(self).active() == kept_active(old(self).active(), final(self).items()),
            final(self).shows(old(self).state().search_query@),
            final(self).grouped(),
            final(self).selection() == (if final(self).shown().len() == 0 {
                None::<usize>
            } else {
                Some(0usize)
            }),
            final(self).synced(),
            final(self).state() == (AppState {
                selected_task: final(self).state().selected_task,
                ..old(self).state()
            }),
    {
        self.sidebar_items = build_sidebar_items(&self.smart_lists, &self.snapshot);
        if !contains_item(&self.sidebar_items, &self.active_sidebar_item) {
            let next = match first_selectable(&self.sidebar_items) {
                Some(i) => self.sidebar_items[i].duplicate(),
                None => SidebarItem::SmartList(0),
            };
            self.active_sidebar_item = next;
        }
        self.rebuild_visible_tasks();
    }

    /// A session over the task directory whose tasks are `snapshot` and whose
    /// smart lists are `smart_lists`: the main view, with the first entry
    /// that shows tasks active unless the first smart list is there.
    /// Every smart list must be evaluable on the tasks (see `lists_ok`);
    /// `lists_can_run` tells a caller whether they are.
    pub fn open(snapshot: Snapshot, smart_lists: Vec<SmartList>, today: &str) -> (r: TuiSession)
        requires
            lists_ok(snapshot, smart_lists@, today@),
        ensures
            r.wf(),
            is_fresh(r.state(), AppMode::Main),
            r.store_open(),
            r.day() == today@,
            r.tasks() == snapshot,
            r.lists() == smart_lists@,
            is_sidebar(r.items(), smart_lists@.len(), snapshot.all()),
            r.active() == kept_active(SidebarSpec::SmartList(0), r.items()),
            r.shows(Seq::<char>::empty()),
            r.grouped(),
            r.selection() == (if r.shown().len() == 0 {
                None::<usize>
            } else {
                Some(0usize)
            }),
            r.synced(),
    {
        let mut session = TuiSession {
            app: AppState::new(AppMode::Main),
            has_store: true,
            today: today.to_string(),
            snapshot,
            smart_lists,
            sidebar_items: Vec::new(),
            active_sidebar_item: SidebarItem::SmartList(0),
            visible_tasks: Vec::new(),
            visible_groups: Vec::new(),
            selected_task_index: None,
        };
        session.rebuild();
        session
    }
}

/// Whether `item` is among `items`.
fn contains_item(items: &Vec<SidebarItem>, item: &SidebarItem) -> (r: bool)
    ensures
        r == items_view(items@).contains(item@),
{
    let ghost iv = items_view(items@);
    let mut i: usize = 0;
    while i < items.len()
        invariant
            i <= items@.len(),
            iv == items_view(items@),
            forall|j: int| 0 <= j < i ==> iv[j] != item@,
        decreases items@.len() - i,
    {
        if items[i].same(item) {
            assert(iv[i as int] == item@);
            return true;
        }
        i = i + 1;
    }
    false
}

/// The index of the first entry that shows tasks.
fn first_selectable(items: &Vec<SidebarItem>) -> (r: Option<usize>)
    ensures
        match r {
            Some(i) => i < items@.len() && first_item(items_view(items@)) == Some(i as int),
            None => first_item(items_view(items@)) is None,
        },
{
    let ghost iv = items_view(items@);
    proof {
        lemma_first_item(iv);
    }
    let mut i: usize = 0;
    while i < items.len()
        invariant
            i <= items@.len(),
            iv == items_view(items@),
            forall|j: int| 0 <= j < i ==> !selectable(#[trigger] iv[j]),
            first_item(iv) matches Some(k) ==> 0 <= k < iv.len() && selectable(iv[k]) && forall|j: int|
                0 <= j < k ==> !selectable(#[trigger] iv[j]),
            first_item(iv) is None ==> forall|j: int| 0 <= j < iv.len() ==> !selectable(#[trigger] iv[j]),
        decreases items@.len() - i,
    {
        if items[i].is_selectable() {
            assert(selectable(iv[i as int]));
            return Some(i);
        }
        i = i + 1;
    }
    None
}

// ── What the session does for an action ─────────────────────────────────────────

/// What the caller has to do with the task directory after an action; the
/// session itself never reads or writes files.
#[derive(Debug)]
pub enum StoreRequest {
    /// Nothing.
    Nothing,
    /// Check the directory, remember it in the configuration, and open a
    /// session over it.
    OpenTaskDir(String),
    /// Delete the task, then hand the reloaded tasks to `finish_delete`.
    Delete(TaskId),
    /// Mark the task done on the given date, then hand the reloaded tasks to
    /// `refresh`.
    MarkDone(TaskId, String),
    /// Mark the done task open again, then hand the reloaded tasks to
    /// `refresh`.
    Restore(TaskId),
    /// Reload the tasks and hand them to `refresh`.
    Reload,
    /// Save the editor's line; unless that ends in a conflict, hand the
    /// reloaded tasks to `finish_editor_save`.
    SaveEditor,
    /// Settle the save conflict as chosen; after an overwrite that settled
    /// it, reload the tasks and hand them to `refresh`.
    ResolveConflict(ConflictChoice),
}

/// Nothing selected for no tasks, else the first task.
pub open spec fn first_selection(v: Seq<StoredView>) -> Option<usize> {
    if v.len() == 0 {
        None
    } else {
        Some(0usize)
    }
}

/// `sel` is the index `r`, or nothing when `r` is.
pub open spec fn selection_is(sel: Option<usize>, r: Option<int>) -> bool {
    match sel {
        Some(i) => r == Some(i as int),
        None => r is None,
    }
}

/// `cur + delta`, kept within `0..len`.
pub open spec fn stepped(cur: int, delta: int, len: int) -> int {
    if cur + delta < 0 {
        0
    } else if cur + delta > len - 1 {
        len - 1
    } else {
        cur + delta
    }
}

/// The positions `0..n`.
pub open spec fn positions(n: nat) -> Seq<int> {
    Seq::new(n, |i: int| i)
}

/// Whether the entry at a position shows tasks.
pub open spec fn shows_tasks(items: Seq<SidebarSpec>) -> spec_fn(int) -> bool {
    |i: int| selectable(items[i])
}

/// The positions of the sidebar entries that show tasks.
pub open spec fn sel_positions(items: Seq<SidebarSpec>) -> Seq<int> {
    positions(items.len()).filter(shows_tasks(items))
}

/// The positions as integers.
pub open spec fn ints(v: Seq<usize>) -> Seq<int> {
    v.map_values(|u: usize| u as int)
}

/// The first place in `ps` whose entry is `active`.
pub open spec fn first_place(ps: Seq<int>, items: Seq<SidebarSpec>, active: SidebarSpec) -> Option<int>
    decreases ps.len(),
{
    if ps.len() == 0 {
        None
    } else if items[ps[0]] == active {
        Some(0)
    } else {
        match first_place(ps.drop_first(), items, active) {
            Some(k) => Some(k + 1),
            None => None,
        }
    }
}

/// The place of the active entry among the positions, the first place when
/// it is not there.
pub open spec fn place_of(ps: Seq<int>, items: Seq<SidebarSpec>, active: SidebarSpec) -> int {
    match first_place(ps, items, active) {
        Some(k) => k,
        None => 0,
    }
}

pub proof fn lemma_first_place(ps: Seq<int>, items: Seq<SidebarSpec>, active: SidebarSpec)
    ensures
        first_place(ps, items, active) matches Some(k) ==> 0 <= k < ps.len() && items[ps[k]]
            == active && forall|j: int| 0 <= j < k ==> items[#[trigger] ps[j]] != active,
        first_place(ps, items, active) is None ==> forall|j: int|
            0 <= j < ps.len() ==> items[#[trigger] ps[j]] != active,
    decreases ps.len(),
{
    if ps.len() > 0 && items[ps[0]] != active {
        lemma_first_place(ps.drop_first(), items, active);
        assert forall|j: int| 1 <= j < ps.len() implies ps[j] == ps.drop_first()[j - 1] by {}
    }
}

pub proof fn lemma_wrap(cur: int, delta: int, len: int)
    requires
        0 <= cur < len,
        delta == 1 || delta == -1,
    ensures
        (cur + delta) % len == (if cur + delta < 0 {
            len - 1
        } else if cur + delta >= len {
            0
        } else {
            cur + delta
        }),
{
    if cur + delta < 0 {
        assert((-1int) % len == len - 1) by (nonlinear_arith)
            requires
                len > 0,
        ;
    } else if cur + delta >= len {
        assert(len % len == 0) by (nonlinear_arith)
            requires
                len > 0,
        ;
    } else {
        assert((cur + delta) % len == cur + delta) by (nonlinear_arith)
            requires
                0 <= cur + delta < len,
        ;
    }
}

/// Whether the snapshot has a task stored under `id`.
pub open spec fn in_snapshot(s: Snapshot, id: Seq<char>) -> bool {
    exists|i: int| 0 <= i < s.all().len() && (#[trigger] s.all()[i]).id == id
}

/// The first task of `after` that `before` does not have.
pub open spec fn created_task(before: Snapshot, after: Snapshot) -> Option<StoredView> {
    match first_where(after.all(), |x: StoredView| !in_snapshot(before, x.id)) {
        Some(i) => Some(after.all()[i]),
        None => None,
    }
}

/// The target that remembers the edited line: its task, its line, its
/// parts as `parsed`, and for an existing task its position.
pub open spec fn editor_target(e: EditorState, parsed: TaskView, index: Option<usize>) -> TargetView {
    TargetView {
        task_id: match e.task_id {
            Some(id) => Some(id@),
            None => None,
        },
        file_name: match e.task_id {
            Some(id) => Some(id@),
            None => None,
        },
        raw: Some(e.raw_line@),
        logical: Some(logical_of(parsed)),
        fallback_index: if e.task_id is Some {
            index
        } else {
            None
        },
    }
}

/// Where the selection goes after the editor's line was saved and the tasks
/// reloaded to `after`: for a new task, the task that appeared, else the
/// saved line.
pub open spec fn saved_target(
    before: Snapshot,
    after: Snapshot,
    e: EditorState,
    parsed: TaskView,
    index: Option<usize>,
) -> TargetView {
    if e.task_id is None {
        match created_task(before, after) {
            Some(x) => target_of(x, index),
            None => editor_target(e, parsed, index),
        }
    } else {
        editor_target(e, parsed, index)
    }
}

impl TuiSession {
    /// What the selection remembers of the selected task.
    pub open spec fn current_target(&self) -> Option<TargetView> {
        match self.selection() {
            Some(i) => Some(target_of(self.shown()[i as int], Some(i))),
            None => None,
        }
    }

    /// `self` is `old` with the selection at `sel`.
    pub open spec fn with_selection(&self, old: &TuiSession, sel: Option<usize>) -> bool {
        &&& self.same_source(old)
        &&& self.same_view(old)
        &&& self.selection() == sel
        &&& self.synced()
        &&& self.state() == (AppState { selected_task: self.state().selected_task, ..old.state() })
    }

    /// `self` is `old` showing the entry `item`, with its first task selected.
    pub open spec fn switched_to(&self, old: &TuiSession, item: SidebarSpec) -> bool {
        &&& self.same_source(old)
        &&& self.items() == old.items()
        &&& self.active() == item
        &&& self.shows(old.state().search_query@)
        &&& self.grouped()
        &&& self.selection() == first_selection(self.shown())
        &&& self.synced()
        &&& self.state() == (AppState { selected_task: self.state().selected_task, ..old.state() })
    }

    /// `self` is `old` rebuilt over the tasks `snapshot`, with the selection
    /// where `target` finds it again.
    pub open spec fn reloaded(&self, old: &TuiSession, snapshot: Snapshot, target: Option<TargetView>) -> bool {
        &&& self.store_open() == old.store_open()
        &&& self.day() == old.day()
        &&& self.lists() == old.lists()
        &&& self.tasks() == snapshot
        &&& is_sidebar(self.items(), self.lists().len(), snapshot.all())
        &&& self.active() == kept_active(old.active(), self.items())
        &&& self.shows(old.state().search_query@)
        &&& self.grouped()
        &&& selection_is(self.selection(), reselected(target, self.shown()))
        &&& self.synced()
        &&& self.state() == (AppState { selected_task: self.state().selected_task, ..old.state() })
    }

    /// `self` is `old` after a step of `delta` in the task list.
    pub open spec fn moved_task_list(&self, old: &TuiSession, delta: int) -> bool {
        let cur = match old.selection() {
            Some(i) => i as int,
            None => 0,
        };
        if old.shown().len() == 0 {
            self.with_selection(old, None)
        } else {
            self.with_selection(old, Some(stepped(cur, delta, old.shown().len() as int) as usize))
        }
    }

    /// `self` is `old` after a step of `delta` among the sidebar entries
    /// that show tasks.
    pub open spec fn moved_sidebar(&self, old: &TuiSession, delta: int) -> bool {
        let ps = sel_positions(old.items());
        if ps.len() == 0 {
            *self == *old
        } else {
            self.switched_to(
                old,
                old.items()[ps[stepped(place_of(ps, old.items(), old.active()), delta, ps.len() as int)]],
            )
        }
    }

    /// `self` is `old` after a step of `delta` in the focused pane.
    pub open spec fn moved(&self, old: &TuiSession, delta: int) -> bool {
        match old.state().focus {
            FocusArea::Sidebar => self.moved_sidebar(old, delta),
            FocusArea::TaskList => self.moved_task_list(old, delta),
        }
    }

    /// `self` is `old` after a jump to the first (`top`) or last entry or
    /// task of the focused pane.
    pub open spec fn moved_to_edge(&self, old: &TuiSession, top: bool) -> bool {
        match old.state().focus {
            FocusArea::Sidebar => {
                let ps = sel_positions(old.items());
                if ps.len() == 0 {
                    *self == *old
                } else {
                    self.switched_to(
                        old,
                        old.items()[if top {
                            ps[0]
                        } else {
                            ps.last()
                        }],
                    )
                }
            },
            FocusArea::TaskList => if old.shown().len() == 0 {
                self.with_selection(old, None)
            } else {
                self.with_selection(
                    old,
                    Some(
                        if top {
                            0usize
                        } else {
                            (old.shown().len() - 1) as usize
                        },
                    ),
                )
            },
        }
    }

    /// `self` is `old` after a step of `delta` among the search results,
    /// wrapping around; nothing happens without a search or results.
    pub open spec fn moved_search(&self, old: &TuiSession, delta: int) -> bool {
        let cur = match old.selection() {
            Some(i) => i as int,
            None => 0,
        };
        if old.state().search_query@.len() == 0 || old.shown().len() == 0 {
            *self == *old
        } else {
            self.with_selection(old, Some(((cur + delta) % (old.shown().len() as int)) as usize))
        }
    }
}

/// What an action does: `new` and `r` are the session and the request after
/// `a` on `old`. The welcome path is taken only `with_paths`.
pub open spec fn dispatched(old: TuiSession, a: AppAction, new: TuiSession, r: StoreRequest, with_paths: bool) -> bool {
    let sel = old.selection();
    match a {
        AppAction::MoveDown => r is Nothing && new.moved(&old, 1),
        AppAction::MoveUp => r is Nothing && new.moved(&old, -1),
        AppAction::MoveTop => r is Nothing && new.moved_to_edge(&old, true),
        AppAction::MoveBottom => r is Nothing && new.moved_to_edge(&old, false),
        AppAction::SubmitWelcomePath(p) => new == old && if with_paths && trim(p@).len() > 0 {
            r matches StoreRequest::OpenTaskDir(d) && d@ == trim(p@)
        } else {
            r is Nothing
        },
        AppAction::AppendToSearch(_) => r is Nothing && if old.state().mode == AppMode::Main {
            new.reloaded(&old, old.tasks(), old.current_target())
        } else {
            new == old
        },
        AppAction::BackspaceSearch => r is Nothing && if old.state().mode == AppMode::Main {
            new.reloaded(&old, old.tasks(), old.current_target())
        } else {
            new == old
        },
        AppAction::Cancel => r is Nothing && if old.state().mode == AppMode::Main {
            new.reloaded(&old, old.tasks(), old.current_target())
        } else {
            new == old
        },
        AppAction::NextSearchResult => r is Nothing && new.moved_search(&old, 1),
        AppAction::PreviousSearchResult => r is Nothing && new.moved_search(&old, -1),
        AppAction::OpenSelected => new == old && match sel {
            Some(i) => if old.state().confirm_delete {
                r matches StoreRequest::Delete(id) && id@ == old.shown()[i as int].id
            } else {
                r is Nothing
            },
            None => r is Nothing,
        },
        AppAction::SubmitEditor => new == old && r is SaveEditor,
        AppAction::ToggleDone => new == old && match sel {
            Some(i) => if !old.shown()[i as int].task.done {
                r matches StoreRequest::MarkDone(id, day) && id@ == old.shown()[i as int].id
                    && day@ == old.day()
            } else {
                r is Nothing
            },
            None => r is Nothing,
        },
        AppAction::RestoreCompleted => new == old && match sel {
            Some(i) => if old.shown()[i as int].task.done {
                r matches StoreRequest::Restore(id) && id@ == old.shown()[i as int].id
            } else {
                r is Nothing
            },
            None => r is Nothing,
        },
        AppAction::Refresh => new == old && r is Reload,
        AppAction::ResolveConflict(c) => new == old && r == StoreRequest::ResolveConflict(c),
    }
}

proof fn lemma_reselected(t: Option<TargetView>, v: Seq<StoredView>)
    ensures
        reselected(t, v) matches Some(i) ==> 0 <= i < v.len(),
        reselected(t, v) is None <==> v.len() == 0,
{
    assert forall|p: spec_fn(StoredView) -> bool|
        (#[trigger] first_where(v, p)) is Some implies 0 <= first_where(v, p)->0 < v.len() by {
        lemma_first_where(v, p);
    }
}

/// `cur` moved by `delta` within `0..len`.
fn step(cur: usize, delta: isize, len: usize) -> (r: usize)
    requires
        cur < len,
        delta == 1 || delta == -1,
    ensures
        r == stepped(cur as int, delta as int, len as int),
        r < len,
{
    if delta > 0 {
        if cur + 1 >= len {
            len - 1
        } else {
            cur + 1
        }
    } else {
        if cur == 0 {
            0
        } else {
            cur - 1
        }
    }
}

/// `cur` moved by `delta` within `0..len`, wrapping around.
fn wrap(cur: usize, delta: isize, len: usize) -> (r: usize)
    requires
        cur < len,
        delta == 1 || delta == -1,
    ensures
        r as int == (cur + delta) % (len as int),
        r < len,
{
    proof {
        lemma_wrap(cur as int, delta as int, len as int);
    }
    if delta > 0 {
        if cur + 1 >= len {
            0
        } else {
            cur + 1
        }
    } else {
        if cur == 0 {
            len - 1
        } else {
            cur - 1
        }
    }
}

/// Whether the snapshot has a task stored under `id`.
fn snapshot_contains_task(snapshot: &Snapshot, wanted: &TaskId) -> (r: bool)
    ensures
        r == in_snapshot(*snapshot, wanted@),
{
    let ghost all = snapshot.all();
    let ghost n = snapshot.open_tasks@.len();
    let mut i: usize = 0;
    while i < snapshot.open_tasks.len()
        invariant
            i <= snapshot.open_tasks@.len(),
            all == snapshot.all(),
            n == snapshot.open_tasks@.len(),
            forall|j: int| 0 <= j < i ==> (#[trigger] all[j]).id != wanted@,
        decreases snapshot.open_tasks@.len() - i,
    {
        assert(all[i as int] == snapshot.open_tasks@[i as int]@);
        if snapshot.open_tasks[i].id.file_name == wanted.file_name {
            assert(all[i as int].id == wanted@);
            return true;
        }
        i = i + 1;
    }
    let mut k: usize = 0;
    while k < snapshot.done_tasks.len()
        invariant
            k <= snapshot.done_tasks@.len(),
            all == snapshot.all(),
            n == snapshot.open_tasks@.len(),
            all.len() == n + snapshot.done_tasks@.len(),
            forall|j: int| 0 <= j < n + k ==> (#[trigger] all[j]).id != wanted@,
        decreases snapshot.done_tasks@.len() - k,
    {
        assert(all[n + k] == snapshot.done_tasks@[k as int]@);
        if snapshot.done_tasks[k].id.file_name == wanted.file_name {
            assert(all[n + k].id == wanted@);
            return true;
        }
        k = k + 1;
    }
    false
}

/// The target for the first task of `after` that `before` does not have.
fn created_task_target(before: &Snapshot, after: &Snapshot, fallback_index: Option<usize>) -> (r:
    Option<SelectionTarget>)
    ensures
        opt_target(r) == match created_task(*before, *after) {
            Some(x) => Some(target_of(x, fallback_index)),
            None => None,
        },
{
    let all = after.all_tasks();
    let ghost sv = stored_view(all@);
    let ghost p = |x: StoredView| !in_snapshot(*before, x.id);
    proof {
        lemma_first_where(sv, p);
    }
    let mut i: usize = 0;
    while i < all.len()
        invariant
            i <= all@.len(),
            sv == stored_view(all@),
            sv == after.all(),
            p == (|x: StoredView| !in_snapshot(*before, x.id)),
            forall|j: int| 0 <= j < i ==> !p(#[trigger] sv[j]),
            first_where(sv, p) matches Some(k) ==> 0 <= k < sv.len() && p(sv[k]) && forall|j: int|
                0 <= j < k ==> !p(#[trigger] sv[j]),
            first_where(sv, p) is None ==> forall|j: int| 0 <= j < sv.len() ==> !p(#[trigger] sv[j]),
        decreases all@.len() - i,
    {
        assert(sv[i as int] == all@[i as int]@);
        if !snapshot_contains_task(before, &all[i].id) {
            return Some(SelectionTarget::from_stored(&all[i], fallback_index));
        }
        i = i + 1;
    }
    None
}

impl SelectionTarget {
    fn from_editor(editor: &EditorState, parsed: &crate::task::Task, fallback_index: Option<usize>) -> (r:
        SelectionTarget)
        ensures
            r@ == editor_target(*editor, parsed@, fallback_index),
    {
        let task_id = match &editor.task_id {
            Some(id) => Some(id.duplicate()),
            None => None,
        };
        let file_name = match &editor.task_id {
            Some(id) => Some(id.file_name.clone()),
            None => None,
        };
        SelectionTarget {
            task_id,
            file_name,
            raw: Some(editor.raw_line.clone()),
            logical: Some(LogicalTaskKey::from_task(parsed)),
            fallback_index: if editor.task_id.is_some() {
                fallback_index
            } else {
                None
            },
        }
    }
}

impl TuiSession {
    /// `self` with the interface state `a`.
    pub closed spec fn with_app(&self, a: AppState) -> TuiSession {
        TuiSession { app: a, ..*self }
    }

    /// `self` with the delete confirmation closed.
    pub closed spec fn without_confirm(&self) -> TuiSession {
        TuiSession { app: AppState { confirm_delete: false, ..self.app }, ..*self }
    }

    /// The shown tasks fit in memory.
    pub proof fn lemma_shown_len(&self)
        ensures
            self.shown().len() <= usize::MAX,
    {
        assert(self.visible_tasks@.len() == self.visible_tasks.len());
    }

    /// Changing the interface state keeps everything else, and the invariant.
    pub proof fn lemma_with_app(&self, a: AppState)
        ensures
            self.with_app(a).state() == a,
            self.with_app(a).same_source(self),
            self.with_app(a).same_view(self),
            self.with_app(a).selection() == self.selection(),
            self.wf() ==> self.with_app(a).wf(),
    {
    }

    /// Closing the delete confirmation keeps everything else, and the
    /// invariant.
    pub proof fn lemma_without_confirm(&self)
        ensures
            self.without_confirm().state() == (AppState { confirm_delete: false, ..self.state() }),
            self.without_confirm().same_source(self),
            self.without_confirm().same_view(self),
            self.without_confirm().selection() == self.selection(),
            self.without_confirm().current_target() == self.current_target(),
            self.wf() ==> self.without_confirm().wf(),
    {
    }

    /// The interface state, for changes.
    pub fn app_mut(&mut self) -> (r: &mut AppState)
        ensures
            *r == old(self).state(),
            *final(self) == old(self).with_app(*final(r)),
    {
        &mut self.app
    }

    /// Whether the tasks may be reloaded in the background: in the main view
    /// with a task directory, while no editor, conflict or delete
    /// confirmation is open.
    pub fn can_auto_refresh(&self) -> (r: bool)
        ensures
            r == (self.state().mode == AppMode::Main && self.store_open() && self.state().editor is None
                && !self.state().save_conflict && !self.state().confirm_delete),
    {
        self.app.mode == AppMode::Main && self.has_store && self.app.editor.is_none()
            && !self.app.save_conflict && !self.app.confirm_delete
    }

    /// Whether a background check that found the task directory `changed`
    /// (or that has nothing to compare with) leads to a reload: only when
    /// the session may refresh on its own.
    pub fn poll_refresh(&self, changed: bool) -> (r: bool)
        ensures
            r == (self.state().mode == AppMode::Main && self.store_open() && self.state().editor is None
                && !self.state().save_conflict && !self.state().confirm_delete && changed),
    {
        self.can_auto_refresh() && changed
    }

    fn current_selection_target(&self) -> (r: Option<SelectionTarget>)
        requires
            self.wf(),
        ensures
            opt_target(r) == self.current_target(),
    {
        match self.selected_task_index {
            Some(i) => Some(SelectionTarget::from_stored(&self.visible_tasks[i], Some(i))),
            None => None,
        }
    }

    /// Selects the task that `wanted` finds among the shown ones.
    fn reselect_task(&mut self, wanted: Option<SelectionTarget>)
        requires
            lists_ok(old(self).snapshot, old(self).smart_lists@, old(self).today@),
        ensures
            final(self).wf(),
            selection_is(final(self).selection(), reselected(opt_target(wanted), old(self).shown())),
            final(self).synced(),
            final(self).same_source(old(self)),
            final(self).same_view(old(self)),
            final(self).state() == (AppState {
                selected_task: final(self).state().selected_task,
                ..old(self).state()
            }),
    {
        proof {
            lemma_reselected(opt_target(wanted), stored_view(self.visible_tasks@));
        }
        self.selected_task_index = reselect_index(&wanted, &self.visible_tasks);
        self.sync_selected_task();
    }

    fn replace_snapshot_and_reselect(&mut self, snapshot: Snapshot, wanted: Option<SelectionTarget>)
        requires
            lists_ok(snapshot, old(self).smart_lists@, old(self).today@),
        ensures
            final(self).wf(),
            final(self).reloaded(old(self), snapshot, opt_target(wanted)),
    {
        self.snapshot = snapshot;
        self.rebuild();
        self.reselect_task(wanted);
    }

    /// Takes the reloaded tasks `snapshot`, rebuilds the view and finds the
    /// selected task again.
    pub fn refresh(&mut self, snapshot: Snapshot)
        requires
            old(self).wf(),
            lists_ok(snapshot, old(self).lists(), old(self).day()),
        ensures
            final(self).wf(),
            final(self).reloaded(old(self), snapshot, old(self).current_target()),
    {
        let selected = self.current_selection_target();
        self.replace_snapshot_and_reselect(snapshot, selected);
    }

    /// After the selected task was deleted: closes the confirmation and
    /// takes the reloaded tasks.
    pub fn finish_delete(&mut self, snapshot: Snapshot)
        requires
            old(self).wf(),
            lists_ok(snapshot, old(self).lists(), old(self).day()),
        ensures
            final(self).wf(),
            final(self).reloaded(&old(self).without_confirm(), snapshot, old(self).current_target()),
    {
        proof {
            old(self).lemma_without_confirm();
        }
        self.app.confirm_delete = false;
        self.refresh(snapshot);
    }

    /// After the editor's line was saved: takes the reloaded tasks `next`
    /// and selects the new task, or the saved line. `editor` is the editor
    /// as it was saved and `parsed` its line split into parts.
    pub fn finish_editor_save(&mut self, editor: &EditorState, parsed: &crate::task::Task, next: Snapshot)
        requires
            old(self).wf(),
            lists_ok(next, old(self).lists(), old(self).day()),
        ensures
            final(self).wf(),
            final(self).reloaded(
                old(self),
                next,
                Some(saved_target(old(self).tasks(), next, *editor, parsed@, old(self).selection())),
            ),
    {
        let index = self.selected_task_index;
        let wanted = if editor.task_id.is_none() {
            match created_task_target(&self.snapshot, &next, index) {
                Some(t) => t,
                None => SelectionTarget::from_editor(editor, parsed, index),
            }
        } else {
            SelectionTarget::from_editor(editor, parsed, index)
        };
        self.replace_snapshot_and_reselect(next, Some(wanted));
    }

    /// Makes `item` the active entry and shows its tasks.
    pub fn select_sidebar_item(&mut self, item: SidebarItem)
        requires
            old(self).wf(),
        ensures
            final(self).wf(),
            final(self).switched_to(old(self), item@),
    {
        self.active_sidebar_item = item;
        self.rebuild_visible_tasks();
    }

    /// The positions of the sidebar entries that show tasks.
    fn selectable_sidebar_indices(&self) -> (r: Vec<usize>)
        ensures
            ints(r@) == sel_positions(self.items()),
            forall|k: int| 0 <= k < r@.len() ==> r@[k] < self.sidebar_items@.len(),
    {
        let ghost iv = self.items();
        let ghost pred = shows_tasks(iv);
        let mut out: Vec<usize> = Vec::new();
        let mut i: usize = 0;
        assert(ints(out@) =~= positions(0).filter(pred));
        while i < self.sidebar_items.len()
            invariant
                i <= self.sidebar_items@.len(),
                iv == self.items(),
                pred == shows_tasks(iv),
                ints(out@) == positions(i as nat).filter(pred),
                forall|k: int| 0 <= k < out@.len() ==> out@[k] < i,
            decreases self.sidebar_items@.len() - i,
        {
            assert(positions((i + 1) as nat) =~= positions(i as nat).push(i as int));
            proof {
                positions(i as nat).lemma_filter_push(i as int, pred);
            }
            assert(iv[i as int] == self.sidebar_items@[i as int]@);
            if self.sidebar_items[i].is_selectable() {
                out.push(i);
                assert(ints(out@) =~= positions(i as nat).filter(pred).push(i as int));
            }
            i = i + 1;
        }
        out
    }

    /// The place of the active entry among the positions `ps`, the first
    /// place when it is not there.
    fn place_of_active(&self, ps: &Vec<usize>) -> (r: usize)
        requires
            forall|k: int| 0 <= k < ps@.len() ==> ps@[k] < self.sidebar_items@.len(),
        ensures
            r == place_of(ints(ps@), self.items(), self.active()),
            ps@.len() > 0 ==> r < ps@.len(),
    {
        let ghost pv = ints(ps@);
        let ghost iv = self.items();
        proof {
            lemma_first_place(pv, iv, self.active());
        }
        let mut k: usize = 0;
        while k < ps.len()
            invariant
                k <= ps@.len(),
                pv == ints(ps@),
                iv == self.items(),
                forall|q: int| 0 <= q < ps@.len() ==> ps@[q] < self.sidebar_items@.len(),
                forall|j: int| 0 <= j < k ==> iv[#[trigger] pv[j]] != self.active(),
                first_place(pv, iv, self.active()) matches Some(m) ==> 0 <= m < pv.len() && iv[pv[m]]
                    == self.active() && forall|j: int| 0 <= j < m ==> iv[#[trigger] pv[j]] != self.active(),
                first_place(pv, iv, self.active()) is None ==> forall|j: int|
                    0 <= j < pv.len() ==> iv[#[trigger] pv[j]] != self.active(),
            decreases ps@.len() - k,
        {
            let at = ps[k];
            assert(pv[k as int] == at as int);
            assert(iv[at as int] == self.sidebar_items@[at as int]@);
            if self.sidebar_items[at].same(&self.active_sidebar_item) {
                return k;
            }
            k = k + 1;
        }
        0
    }

    fn move_sidebar(&mut self, delta: isize)
        requires
            old(self).wf(),
            delta == 1 || delta == -1,
        ensures
            final(self).wf(),
            final(self).moved_sidebar(old(self), delta as int),
    {
        let ps = self.selectable_sidebar_indices();
        if ps.len() == 0 {
            return;
        }
        let place = self.place_of_active(&ps);
        let next = step(place, delta, ps.len());
        let at = ps[next];
        assert(ints(ps@)[next as int] == at as int);
        let item = self.sidebar_items[at].duplicate();
        self.select_sidebar_item(item);
    }

    fn move_task_list(&mut self, delta: isize)
        requires
            old(self).wf(),
            delta == 1 || delta == -1,
        ensures
            final(self).wf(),
            final(self).moved_task_list(old(self), delta as int),
    {
        if self.visible_tasks.len() == 0 {
            self.selected_task_index = None;
            self.sync_selected_task();
            return;
        }
        let current = match self.selected_task_index {
            Some(i) => i,
            None => 0,
        };
        self.selected_task_index = Some(step(current, delta, self.visible_tasks.len()));
        self.sync_selected_task();
    }

    fn move_selection(&mut self, delta: isize)
        requires
            old(self).wf(),
            delta == 1 || delta == -1,
        ensures
            final(self).wf(),
            final(self).moved(old(self), delta as int),
    {
        match self.app.focus {
            FocusArea::Sidebar => self.move_sidebar(delta),
            FocusArea::TaskList => self.move_task_list(delta),
        }
    }

    fn move_to_edge(&mut self, top: bool)
        requires
            old(self).wf(),
        ensures
            final(self).wf(),
            final(self).moved_to_edge(old(self), top),
    {
        match self.app.focus {
            FocusArea::Sidebar => {
                let ps = self.selectable_sidebar_indices();
                if ps.len() > 0 {
                    let at = if top {
                        ps[0]
                    } else {
                        ps[ps.len() - 1]
                    };
                    assert(ints(ps@)[0] == ps@[0] as int);
                    assert(ints(ps@)[ps@.len() - 1] == ps@[ps@.len() - 1] as int);
                    let item = self.sidebar_items[at].duplicate();
                    self.select_sidebar_item(item);
                }
            },
            FocusArea::TaskList => {
                let n = self.visible_tasks.len();
                self.selected_task_index = if n == 0 {
                    None
                } else if top {
                    Some(0)
                } else {
                    Some(n - 1)
                };
                self.sync_selected_task();
            },
        }
    }

    fn move_search_result(&mut self, delta: isize)
        requires
            old(self).wf(),
            delta == 1 || delta == -1,
        ensures
            final(self).wf(),
            final(self).moved_search(old(self), delta as int),
    {
        if self.app.search_query.as_str().unicode_len() == 0 || self.visible_tasks.len() == 0 {
            return;
        }
        let current = match self.selected_task_index {
            Some(i) => i,
            None => 0,
        };
        self.selected_task_index = Some(wrap(current, delta, self.visible_tasks.len()));
        self.sync_selected_task();
    }
}

impl TuiSession {
    /// Carries out `action`; the welcome path is taken only `with_paths`.
    fn dispatch(&mut self, action: AppAction, with_paths: bool) -> (r: StoreRequest)
        requires
            old(self).wf(),
        ensures
            final(self).wf(),
            dispatched(*old(self), action, *final(self), r, with_paths),
    {
        match action {
            AppAction::MoveDown => {
                self.move_selection(1);
                StoreRequest::Nothing
            },
            AppAction::MoveUp => {
                self.move_selection(-1);
                StoreRequest::Nothing
            },
            AppAction::MoveTop => {
                self.move_to_edge(true);
                StoreRequest::Nothing
            },
            AppAction::MoveBottom => {
                self.move_to_edge(false);
                StoreRequest::Nothing
            },
            AppAction::SubmitWelcomePath(path) => {
                if with_paths {
                    let cs = chars_of(path.as_str());
                    let t = trimmed(cs.as_slice());
                    if t.len() == 0 {
                        StoreRequest::Nothing
                    } else {
                        StoreRequest::OpenTaskDir(crate::text::string_of(t))
                    }
                } else {
                    StoreRequest::Nothing
                }
            },
            AppAction::AppendToSearch(_) | AppAction::BackspaceSearch | AppAction::Cancel => {
                if self.app.mode == AppMode::Main {
                    let wanted = self.current_selection_target();
                    let ghost before = *self;
                    self.rebuild();
                    self.reselect_task(wanted);
                    assert(self.reloaded(&before, before.tasks(), before.current_target()));
                }
                StoreRequest::Nothing
            },
            AppAction::NextSearchResult => {
                self.move_search_result(1);
                StoreRequest::Nothing
            },
            AppAction::PreviousSearchResult => {
                self.move_search_result(-1);
                StoreRequest::Nothing
            },
            AppAction::OpenSelected => {
                if self.app.confirm_delete {
                    match self.selected_task() {
                        Some(stored) => StoreRequest::Delete(stored.id.duplicate()),
                        None => StoreRequest::Nothing,
                    }
                } else {
                    StoreRequest::Nothing
                }
            },
            AppAction::SubmitEditor => StoreRequest::SaveEditor,
            AppAction::ToggleDone => {
                match self.selected_task() {
                    Some(stored) => {
                        if !stored.task.done {
                            StoreRequest::MarkDone(stored.id.duplicate(), self.today.clone())
                        } else {
                            StoreRequest::Nothing
                        }
                    },
                    None => StoreRequest::Nothing,
                }
            },
            AppAction::RestoreCompleted => {
                match self.selected_task() {
                    Some(stored) => {
                        if stored.task.done {
                            StoreRequest::Restore(stored.id.duplicate())
                        } else {
                            StoreRequest::Nothing
                        }
                    },
                    None => StoreRequest::Nothing,
                }
            },
            AppAction::Refresh => StoreRequest::Reload,
            AppAction::ResolveConflict(choice) => StoreRequest::ResolveConflict(choice),
        }
    }

    /// Carries out the action that the interface made of a key (`None` when
    /// the key meant nothing). What needs the task directory comes back as
    /// a request for the caller.
    pub fn dispatch_key(&mut self, action: Option<AppAction>) -> (r: StoreRequest)
        requires
            old(self).wf(),
        ensures
            final(self).wf(),
            match action {
                Some(a) => dispatched(*old(self), a, *final(self), r, false),
                None => *final(self) == *old(self) && r is Nothing,
            },
    {
        match action {
            Some(a) => self.dispatch(a, false),
            None => StoreRequest::Nothing,
        }
    }

    /// As `dispatch_key`, and a submitted welcome path (trimmed, when not
    /// blank) comes back as the directory to open.
    pub fn dispatch_key_with_paths(&mut self, action: Option<AppAction>) -> (r: StoreRequest)
        requires
            old(self).wf(),
        ensures
            final(self).wf(),
            match action {
                Some(a) => dispatched(*old(self), a, *final(self), r, true),
                None => *final(self) == *old(self) && r is Nothing,
            },
    {
        match action {
            Some(a) => self.dispatch(a, true),
            None => StoreRequest::Nothing,
        }
    }
}

// ── Laws of the session ───────────────────────────────────────────────────────

/// After the tasks are reloaded, the selection stays on the task stored
/// under the same name whenever that task is still shown.
pub proof fn law_reload_keeps_selected_task(old: TuiSession, new: TuiSession, snapshot: Snapshot)
    requires
        new.reloaded(&old, snapshot, old.current_target()),
        old.selection() is Some,
        old.selection()->0 < old.shown().len(),
        exists|j: int| 0 <= j < new.shown().len() && (#[trigger] new.shown()[j]).id
            == old.shown()[old.selection()->0 as int].id,
    ensures
        new.selection() matches Some(k) && 0 <= k < new.shown().len() && new.shown()[k as int].id
            == old.shown()[old.selection()->0 as int].id,
{
    let i = old.selection()->0;
    let id = old.shown()[i as int].id;
    let v = new.shown();
    let p = |x: StoredView| x.id == id;
    lemma_first_where(v, p);
    let j = choose|j: int| 0 <= j < v.len() && (#[trigger] v[j]).id == id;
    assert(p(v[j]));
    assert(first_where(v, p) is Some);
}

/// With a search, every shown task's line contains the query, ignoring
/// case.
pub proof fn law_shown_tasks_match_search(s: TuiSession, q: Seq<char>)
    requires
        s.shows(q),
        q.len() > 0,
    ensures
        forall|i: int|
            0 <= i < s.shown().len() ==> contains_seq(
                lowercase((#[trigger] s.shown()[i]).task.raw),
                lowercase(q),
            ),
{
    let e = choose|e: Seq<StoredView>|
        is_entry_view(e, s.tasks(), s.active(), s.day(), s.lists()) && #[trigger] search_filter(e, q)
            == s.shown();
    assert forall|i: int| 0 <= i < s.shown().len() implies contains_seq(
        lowercase((#[trigger] s.shown()[i]).task.raw),
        lowercase(q),
    ) by {
        e.lemma_filter_pred(raw_matches(q), i);
    }
}

/// A step down in the task list followed by a step up comes back to the
/// same task, unless the first step was stopped at the end of the list.
pub proof fn law_down_then_up(a: TuiSession, b: TuiSession, c: TuiSession)
    requires
        a.wf(),
        b.moved_task_list(&a, 1),
        c.moved_task_list(&b, -1),
        a.selection() matches Some(i) && i + 1 < a.shown().len(),
    ensures
        c.selection() == a.selection(),
{
    a.lemma_shown_len();
}

/// In every session the public operations produce, a task is selected
/// exactly when tasks are shown, and the selection is one of them.
pub proof fn law_selection_present_iff_shown(s: TuiSession)
    requires
        s.wf(),
    ensures
        s.selection() is Some <==> s.shown().len() > 0,
        s.selection() matches Some(i) ==> i < s.shown().len(),
{
}

} // verus!
