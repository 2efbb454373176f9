use ttd::ranking::rank_tasks;
use ttd::task::{StoredTask, Task, TaskId};

struct Line<'a> {
    raw: &'a str,
    done: bool,
    completion_date: Option<&'a str>,
    priority: Option<char>,
    description: &'a str,
    tags: &'a [(&'a str, &'a str)],
}

fn stored(i: usize, l: Line) -> StoredTask {
    StoredTask {
        id: TaskId {
            file_name: format!("{i}.txt"),
        },
        task: Task {
            raw: l.raw.to_string(),
            done: l.done,
            priority: l.priority,
            completion_date: l.completion_date.map(|d| d.to_string()),
            creation_date: None,
            description: l.description.to_string(),
            projects: Vec::new(),
            contexts: Vec::new(),
            tags: l
                .tags
                .iter()
                .map(|(k, v)| (k.to_string(), v.to_string()))
                .collect(),
        },
    }
}

fn plain(raw: &str) -> Line<'_> {
    Line {
        raw,
        done: false,
        completion_date: None,
        priority: None,
        description: raw,
        tags: &[],
    }
}

#[test]
fn sorting_prefers_actionable_then_priority_then_due_date() {
    let tasks = vec![
        stored(0, Line {
            raw: "(B) Call Mom due:2026-03-30",
            priority: Some('B'),
            description: "Call Mom due:2026-03-30",
            tags: &[("due", "2026-03-30")],
            ..plain("")
        }),
        stored(1, Line {
            raw: "(A) File taxes due:2026-04-01",
            priority: Some('A'),
            description: "File taxes due:2026-04-01",
            tags: &[("due", "2026-04-01")],
            ..plain("")
        }),
        stored(2, Line {
            raw: "(A) Buy milk due:2026-03-29",
            priority: Some('A'),
            description: "Buy milk due:2026-03-29",
            tags: &[("due", "2026-03-29")],
            ..plain("")
        }),
        stored(3, Line {
            raw: "(A) Future task starting:2026-03-30 due:2026-03-29",
            priority: Some('A'),
            description: "Future task starting:2026-03-30 due:2026-03-29",
            tags: &[("starting", "2026-03-30"), ("due", "2026-03-29")],
            ..plain("")
        }),
    ];

    let tasks = rank_tasks(&tasks, "2026-03-29");

    assert_eq!(tasks[0].task.description, "Buy milk due:2026-03-29");
    assert_eq!(tasks[1].task.description, "File taxes due:2026-04-01");
    assert_eq!(tasks[2].task.description, "Call Mom due:2026-03-30");
    assert_eq!(
        tasks[3].task.description,
        "Future task starting:2026-03-30 due:2026-03-29"
    );
}

#[test]
fn sorting_uses_deterministic_tie_breaker() {
    let tasks = vec![
        stored(0, plain("Bravo")),
        stored(1, plain("Alpha")),
        stored(2, plain("Charlie")),
    ];

    let tasks = rank_tasks(&tasks, "2026-03-29");

    assert_eq!(tasks[0].task.raw, "Alpha");
    assert_eq!(tasks[1].task.raw, "Bravo");
    assert_eq!(tasks[2].task.raw, "Charlie");
}

#[test]
fn sorting_keeps_open_tasks_ahead_of_done_tasks() {
    let tasks = vec![
        stored(0, Line {
            done: true,
            completion_date: Some("2026-03-29"),
            description: "Archive receipts",
            ..plain("x 2026-03-29 2026-03-20 Archive receipts")
        }),
        stored(1, plain("Open task")),
        stored(2, Line {
            done: true,
            completion_date: Some("2026-03-28"),
            description: "File taxes",
            ..plain("x 2026-03-28 File taxes")
        }),
    ];

    let tasks = rank_tasks(&tasks, "2026-03-29");

    assert!(!tasks[0].task.done);
    assert_eq!(tasks[0].task.description, "Open task");
    assert!(tasks[1].task.done);
    assert_eq!(tasks[1].task.completion_date.as_deref(), Some("2026-03-29"));
    assert!(tasks[2].task.done);
    assert_eq!(tasks[2].task.completion_date.as_deref(), Some("2026-03-28"));
}

#[test]
fn equal_lines_keep_their_order() {
    let tasks = vec![stored(0, plain("Same")), stored(1, plain("Same"))];
    let tasks = rank_tasks(&tasks, "2026-03-29");
    assert_eq!(tasks[0].id.file_name, "0.txt");
    assert_eq!(tasks[1].id.file_name, "1.txt");
}
