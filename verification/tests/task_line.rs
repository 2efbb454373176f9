use ttd::task_line::{done_line, parse_task_line, restored_line};

#[test]
fn groups_projects_and_contexts_in_insertion_order() {
    let task = parse_task_line("Call Mom +Family @phone");

    assert_eq!(task.projects, vec!["Family"]);
    assert_eq!(task.contexts, vec!["phone"]);
}

#[test]
fn reads_done_priority_dates_and_tags() {
    let task = parse_task_line("x 2026-03-29 2026-03-20 Archive receipts due:2026-03-25 +Home");
    assert!(task.done);
    assert_eq!(task.completion_date.as_deref(), Some("2026-03-29"));
    assert_eq!(task.creation_date.as_deref(), Some("2026-03-20"));
    assert_eq!(task.priority, None);
    assert_eq!(task.description, "Archive receipts due:2026-03-25 +Home");
    assert_eq!(
        task.tags,
        vec![("due".to_string(), "2026-03-25".to_string())]
    );

    let open = parse_task_line("(A)   Buy milk   due:2026-03-29 due:2026-03-30 http://x.org");
    assert!(!open.done);
    assert_eq!(open.priority, Some('A'));
    assert_eq!(open.description, "Buy milk due:2026-03-29 due:2026-03-30 http://x.org");
    assert_eq!(
        open.tags,
        vec![("due".to_string(), "2026-03-30".to_string())]
    );
    assert_eq!(open.raw, "(A)   Buy milk   due:2026-03-29 due:2026-03-30 http://x.org");
}

#[test]
fn lone_marks_are_not_projects() {
    let task = parse_task_line("Pay + @ bill");
    assert!(task.projects.is_empty());
    assert!(task.contexts.is_empty());
    assert_eq!(task.description, "Pay + @ bill");
}

#[test]
fn done_and_restored_lines() {
    assert_eq!(done_line("Call Mom", "2026-03-29"), "x 2026-03-29 Call Mom");
    assert_eq!(restored_line("x 2026-03-29 Call Mom"), "Call Mom");
    assert_eq!(restored_line("x Call Mom"), "Call Mom");
    assert_eq!(restored_line("Call Mom"), "Call Mom");
}
