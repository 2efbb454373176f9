//! Tasks as the smart lists and the session read them: one todo.txt line
//! already split into its parts, and the file it is stored in.
use vstd::prelude::*;
use vstd::string::StringExecFns;

verus! {

/// The name of the file a task is stored in.
#[derive(Debug)]
pub struct TaskId {
    pub file_name: String,
}

/// One todo.txt task.
#[derive(Debug)]
pub struct Task {
    /// The whole line as written.
    pub raw: String,
    /// Whether the line starts with `x `.
    pub done: bool,
    /// The `(A)`..`(Z)` priority.
    pub priority: Option<char>,
    pub completion_date: Option<String>,
    pub creation_date: Option<String>,
    pub description: String,
    /// `+project` words, without the `+`, in the order written.
    pub projects: Vec<String>,
    /// `@context` words, without the `@`, in the order written.
    pub contexts: Vec<String>,
    /// `key:value` tags in the order their keys first appear, each key once
    /// with its last value (see `TaskView::well_formed`).
    pub tags: Vec<(String, String)>,
}

/// A task together with the file it is stored in.
#[derive(Debug)]
pub struct StoredTask {
    pub id: TaskId,
    pub task: Task,
}

/// A task with its text as characters.
pub struct TaskView {
    pub raw: Seq<char>,
    pub done: bool,
    pub priority: Option<char>,
    pub completion_date: Option<Seq<char>>,
    pub creation_date: Option<Seq<char>>,
    pub description: Seq<char>,
    pub projects: Seq<Seq<char>>,
    pub contexts: Seq<Seq<char>>,
    pub tags: Seq<(Seq<char>, Seq<char>)>,
}

pub struct StoredView {
    pub id: Seq<char>,
    pub task: TaskView,
}

pub open spec fn opt_view(o: Option<String>) -> Option<Seq<char>> {
    match o {
        Some(s) => Some(s@),
        None => None,
    }
}

pub open spec fn strings_view(v: Seq<String>) -> Seq<Seq<char>> {
    v.map_values(|s: String| s@)
}

pub open spec fn pairs_view(v: Seq<(String, String)>) -> Seq<(Seq<char>, Seq<char>)> {
    v.map_values(|p: (String, String)| (p.0@, p.1@))
}

impl View for TaskId {
    type V = Seq<char>;

    open spec fn view(&self) -> Seq<char> {
        self.file_name@
    }
}

impl View for Task {
    type V = TaskView;

    open spec fn view(&self) -> TaskView {
        TaskView {
            raw: self.raw@,
            done: self.done,
            priority: self.priority,
            completion_date: opt_view(self.completion_date),
            creation_date: opt_view(self.creation_date),
            description: self.description@,
            projects: strings_view(self.projects@),
            contexts: strings_view(self.contexts@),
            tags: pairs_view(self.tags@),
        }
    }
}

impl View for StoredTask {
    type V = StoredView;

    open spec fn view(&self) -> StoredView {
        StoredView { id: self.id@, task: self.task@ }
    }
}

pub open spec fn stored_view(v: Seq<StoredTask>) -> Seq<StoredView> {
    v.map_values(|t: StoredTask| t@)
}

/// A copy of an optional string.
pub fn clone_opt_string(s: &Option<String>) -> (r: Option<String>)
    ensures
        opt_view(r) == opt_view(*s),
{
    match s {
        Some(v) => Some(v.clone()),
        None => None,
    }
}

/// Copies of the strings, in their order.
pub fn clone_strings(v: &Vec<String>) -> (r: Vec<String>)
    ensures
        strings_view(r@) == strings_view(v@),
{
    let mut out: Vec<String> = Vec::new();
    let mut i: usize = 0;
    while i < v.len()
        invariant
            i <= v@.len(),
            out@.len() == i,
            forall|j: int| 0 <= j < i ==> out@[j]@ == v@[j]@,
        decreases v@.len() - i,
    {
        out.push(v[i].clone());
        i = i + 1;
    }
    assert(strings_view(out@) =~= strings_view(v@));
    out
}

fn clone_pairs(v: &Vec<(String, String)>) -> (r: Vec<(String, String)>)
    ensures
        pairs_view(r@) == pairs_view(v@),
{
    let mut out: Vec<(String, String)> = Vec::new();
    let mut i: usize = 0;
    while i < v.len()
        invariant
            i <= v@.len(),
            out@.len() == i,
            forall|j: int| 0 <= j < i ==> out@[j].0@ == v@[j].0@ && out@[j].1@ == v@[j].1@,
        decreases v@.len() - i,
    {
        let p = &v[i];
        out.push((p.0.clone(), p.1.clone()));
        i = i + 1;
    }
    assert(pairs_view(out@) =~= pairs_view(v@));
    out
}

impl TaskId {
    pub fn file_name(&self) -> (r: &str)
        ensures
            r@ == self@,
    {
        self.file_name.as_str()
    }

    pub fn duplicate(&self) -> (r: TaskId)
        ensures
            r@ == self@,
    {
        TaskId { file_name: self.file_name.clone() }
    }
}

impl Task {
    pub fn duplicate(&self) -> (r: Task)
        ensures
            r@ == self@,
    {
        Task {
            raw: self.raw.clone(),
            done: self.done,
            priority: self.priority,
            completion_date: clone_opt_string(&self.completion_date),
            creation_date: clone_opt_string(&self.creation_date),
            description: self.description.clone(),
            projects: clone_strings(&self.projects),
            contexts: clone_strings(&self.contexts),
            tags: clone_pairs(&self.tags),
        }
    }
}

impl StoredTask {
    pub fn duplicate(&self) -> (r: StoredTask)
        ensures
            r@ == self@,
    {
        StoredTask { id: self.id.duplicate(), task: self.task.duplicate() }
    }
}

impl Clone for TaskId {
    fn clone(&self) -> (r: Self)
        ensures
            r@ == self@,
    {
        self.duplicate()
    }
}

impl Clone for Task {
    fn clone(&self) -> (r: Self)
        ensures
            r@ == self@,
    {
        self.duplicate()
    }
}

impl Clone for StoredTask {
    fn clone(&self) -> (r: Self)
        ensures
            r@ == self@,
    {
        self.duplicate()
    }
}

/// Copies of the tasks, in their order.
pub fn copy_tasks(v: &[StoredTask]) -> (r: Vec<StoredTask>)
    ensures
        stored_view(r@) == stored_view(v@),
{
    let mut out: Vec<StoredTask> = Vec::new();
    let mut i: usize = 0;
    while i < v.len()
        invariant
            i <= v@.len(),
            stored_view(out@) == stored_view(v@.take(i as int)),
        decreases v@.len() - i,
    {
        out.push(v[i].duplicate());
        assert(stored_view(v@.take(i + 1)) =~= stored_view(v@.take(i as int)).push(v@[i as int]@));
        assert(stored_view(out@) =~= stored_view(v@.take(i as int)).push(v@[i as int]@));
        i = i + 1;
    }
    assert(v@.take(v@.len() as int) =~= v@);
    out
}

/// The value of the first tag named `key`.
pub open spec fn tag_value(tags: Seq<(Seq<char>, Seq<char>)>, key: Seq<char>) -> Option<Seq<char>>
    decreases tags.len(),
{
    if tags.len() == 0 {
        None
    } else if tags[0].0 == key {
        Some(tags[0].1)
    } else {
        tag_value(tags.drop_first(), key)
    }
}

/// Whether no two tags share a key: what a map of tags holds. A line read
/// by `parse_task_line` always has this; the readers of tags look at the
/// first tag of a key, so they ask nothing of it.
pub open spec fn keys_unique(tags: Seq<(Seq<char>, Seq<char>)>) -> bool {
    forall|i: int, j: int| 0 <= i < j < tags.len() ==> tags[i].0 != tags[j].0
}

impl TaskView {
    /// The task's invariant: each tag key occurs once.
    pub open spec fn well_formed(self) -> bool {
        keys_unique(self.tags)
    }
}

/// With each key once, the tag named `k` has the value `v` exactly when the
/// pair `(k, v)` is among the tags.
pub proof fn lemma_tag_value_contains(tags: Seq<(Seq<char>, Seq<char>)>, k: Seq<char>, v: Seq<char>)
    requires
        keys_unique(tags),
    ensures
        (tag_value(tags, k) == Some(v)) <==> tags.contains((k, v)),
    decreases tags.len(),
{
    if tags.len() > 0 {
        let rest = tags.drop_first();
        assert forall|i: int, j: int| 0 <= i < j < rest.len() implies rest[i].0 != rest[j].0 by {
            assert(rest[i] == tags[i + 1] && rest[j] == tags[j + 1]);
        }
        lemma_tag_value_contains(rest, k, v);
        if tags.contains((k, v)) {
            let i = choose|i: int| 0 <= i < tags.len() && tags[i] == (k, v);
            if i > 0 {
                assert(rest[i - 1] == tags[i]);
                assert(tags[0].0 != tags[i].0);
            }
        }
        if rest.contains((k, v)) {
            let i = choose|i: int| 0 <= i < rest.len() && rest[i] == (k, v);
            assert(tags[i + 1] == (k, v));
            assert(tags[0].0 != tags[i + 1].0);
        }
    }
}

/// The value of the first tag named `key`.
pub fn find_tag<'a>(tags: &'a Vec<(String, String)>, key: &str) -> (r: Option<&'a String>)
    ensures
        r is Some == tag_value(pairs_view(tags@), key@) is Some,
        r matches Some(v) ==> Some(v@) == tag_value(pairs_view(tags@), key@),
{
    let ghost all = pairs_view(tags@);
    let key_s = String::from_str(key);
    let mut i: usize = 0;
    assert(all.skip(0) =~= all);
    while i < tags.len()
        invariant
            i <= tags@.len(),
            all == pairs_view(tags@),
            key_s@ == key@,
            tag_value(all, key@) == tag_value(all.skip(i as int), key@),
        decreases tags@.len() - i,
    {
        assert(all.skip(i as int).drop_first() =~= all.skip(i + 1));
        assert(all.skip(i as int)[0] == (tags@[i as int].0@, tags@[i as int].1@));
        if tags[i].0 == key_s {
            return Some(&tags[i].1);
        }
        i = i + 1;
    }
    None
}

} // verus!
