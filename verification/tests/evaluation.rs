use ttd::date::{add_days_can_run, add_days_to_date};
use ttd::smartlist::{
    evaluate, field_display_name, filter_only, group, group_by_directives, list_can_run,
    list_would_overflow, parse_list, sort_by_directives, Direction, Directive, Field, SmartList,
};
use ttd::task::{StoredTask, Task, TaskId};

fn task(
    name: &str,
    description: &str,
    done: bool,
    priority: Option<char>,
    projects: &[&str],
    tags: &[(&str, &str)],
) -> StoredTask {
    let mut raw = String::new();
    if done {
        raw.push_str("x ");
    }
    if let Some(p) = priority {
        raw.push_str(&format!("({p}) "));
    }
    raw.push_str(description);
    StoredTask {
        id: TaskId {
            file_name: name.to_string(),
        },
        task: Task {
            raw,
            done,
            priority,
            completion_date: None,
            creation_date: None,
            description: description.to_string(),
            projects: projects.iter().map(|p| p.to_string()).collect(),
            contexts: Vec::new(),
            tags: tags
                .iter()
                .map(|(k, v)| (k.to_string(), v.to_string()))
                .collect(),
        },
    }
}

fn list(body: &str) -> SmartList {
    parse_list(&format!("---\nname: Test\n---\n{body}"), "test.list")
}

fn names(tasks: &[StoredTask]) -> Vec<String> {
    tasks.iter().map(|t| t.id.file_name.clone()).collect()
}

fn sample() -> Vec<StoredTask> {
    vec![
        task("a.txt", "Pay rent due:2026-03-28", false, Some('B'), &["Home"], &[("due", "2026-03-28")]),
        task("b.txt", "Call Mom due:2026-03-29", false, None, &[], &[("due", "2026-03-29")]),
        task("c.txt", "Read book due:2026-04-10", false, Some('A'), &["Fun"], &[("due", "2026-04-10")]),
        task("d.txt", "Archive due:2026-03-01", true, None, &[], &[("due", "2026-03-01")]),
        task("e.txt", "Someday", false, Some('A'), &["Home"], &[]),
    ]
}

#[test]
fn add_days_moves_across_months_and_years() {
    assert_eq!(add_days_to_date("2026-03-29", 7), "2026-04-05");
    assert_eq!(add_days_to_date("2026-03-01", -1), "2026-02-28");
    assert_eq!(add_days_to_date("2024-02-28", 1), "2024-02-29");
    assert_eq!(add_days_to_date("2025-12-31", 1), "2026-01-01");
    assert_eq!(add_days_to_date("2026-03-29", 0), "2026-03-29");
    assert_eq!(add_days_to_date("2026-03-29", -14), "2026-03-15");
}

#[test]
fn add_days_round_trips_on_concrete_dates() {
    for (date, days) in [("2026-03-29", 400), ("2000-02-29", -366), ("1999-12-31", 1)] {
        let there = add_days_to_date(date, days);
        assert_eq!(add_days_to_date(&there, -days), date);
    }
}

#[test]
fn add_days_composes() {
    let once = add_days_to_date(&add_days_to_date("2026-03-29", 40), -75);
    assert_eq!(once, add_days_to_date("2026-03-29", -35));
    assert_eq!(once, "2026-02-22");
}

#[test]
fn add_days_longer_shifts_sort_later() {
    let start = "2024-02-27";
    let shifts = [-400, -32, -1, 0, 1, 2, 3, 31, 365, 366];
    for a in shifts {
        for b in shifts {
            let earlier = add_days_to_date(start, a);
            let later = add_days_to_date(start, b);
            assert_eq!(a < b, earlier < later, "{a} {b} {earlier} {later}");
        }
    }
}

#[test]
fn add_days_can_run_on_ordinary_dates() {
    assert!(add_days_can_run("2026-03-29", 7));
    assert!(add_days_can_run("2026-03-29", -7));
}

#[test]
fn evaluate_selects_due_tasks_and_skips_done_ones() {
    let l = list("due <= today\n");
    let tasks = sample();
    assert!(list_can_run(&l, &tasks, "2026-03-29"));
    let r = evaluate(&l, &tasks, "2026-03-29");
    assert_eq!(names(&r), vec!["a.txt", "b.txt"]);
}

#[test]
fn evaluate_includes_done_tasks_when_asked() {
    let l = list("done\n");
    let r = evaluate(&l, &sample(), "2026-03-29");
    assert_eq!(names(&r), vec!["d.txt"]);
}

#[test]
fn evaluate_with_offset_and_sort() {
    let l = list("due <= today + 14\nsort by due desc\n");
    let r = evaluate(&l, &sample(), "2026-03-29");
    assert_eq!(names(&r), vec!["c.txt", "b.txt", "a.txt"]);
}

#[test]
fn evaluate_of_a_list_without_conditions_is_empty() {
    let l = list("sort by due\n");
    assert!(evaluate(&l, &sample(), "2026-03-29").is_empty());
    assert!(filter_only(&l, &sample(), "2026-03-29").is_empty());
}

#[test]
fn or_blocks_take_either_condition() {
    let l = list("priority = A\nOR\nproject includes home\n");
    let r = filter_only(&l, &sample(), "2026-03-29");
    assert_eq!(names(&r), vec!["a.txt", "c.txt", "e.txt"]);
}

#[test]
fn priority_and_existence_conditions() {
    let above = list("priority above B\n");
    assert_eq!(names(&filter_only(&above, &sample(), "2026-03-29")), vec!["c.txt", "e.txt"]);
    let no_due = list("no due\n");
    assert_eq!(names(&filter_only(&no_due, &sample(), "2026-03-29")), vec!["e.txt"]);
    let excludes = list("project excludes home\n");
    assert_eq!(
        names(&filter_only(&excludes, &sample(), "2026-03-29")),
        vec!["b.txt", "c.txt"]
    );
}

#[test]
fn sort_by_directives_is_stable_and_puts_missing_values_last() {
    let mut tasks = sample();
    sort_by_directives(
        &mut tasks,
        &[Directive {
            field: Field::Priority,
            direction: Direction::Asc,
        }],
    );
    assert_eq!(names(&tasks), vec!["c.txt", "e.txt", "a.txt", "b.txt", "d.txt"]);
}

#[test]
fn sort_descending_reverses_values_but_keeps_missing_values_last() {
    let mut tasks = sample();
    sort_by_directives(
        &mut tasks,
        &[Directive {
            field: Field::Priority,
            direction: Direction::Desc,
        }],
    );
    assert_eq!(names(&tasks), vec!["a.txt", "c.txt", "e.txt", "b.txt", "d.txt"]);
}

#[test]
fn evaluate_descending_puts_tasks_without_a_value_last() {
    let l = list("not done\nsort by priority desc\n");
    let r = evaluate(&l, &sample(), "2026-03-29");
    assert_eq!(names(&r), vec!["a.txt", "c.txt", "e.txt", "b.txt"]);
}

#[test]
fn evaluate_equals_filter_then_sort() {
    let l = list("not done\nsort by priority\nsort by due desc\n");
    let tasks = sample();
    let evaluated = evaluate(&l, &tasks, "2026-03-29");
    let mut sorted = filter_only(&l, &tasks, "2026-03-29");
    sort_by_directives(&mut sorted, &l.sort_directives);
    assert_eq!(names(&evaluated), names(&sorted));
}

#[test]
fn grouping_by_priority_orders_groups_and_ends_with_no_value() {
    let groups = group_by_directives(
        &[Directive {
            field: Field::Priority,
            direction: Direction::Asc,
        }],
        &sample(),
    );
    let labels: Vec<&str> = groups.iter().map(|g| g.label.as_str()).collect();
    assert_eq!(labels, vec!["Priority: A", "Priority: B", "No priority"]);
    assert_eq!(names(&groups[0].tasks), vec!["c.txt", "e.txt"]);
    assert_eq!(names(&groups[1].tasks), vec!["a.txt"]);
    assert_eq!(names(&groups[2].tasks), vec!["b.txt", "d.txt"]);
}

#[test]
fn grouping_descending_reverses_the_keyed_groups() {
    let groups = group_by_directives(
        &[Directive {
            field: Field::Project,
            direction: Direction::Desc,
        }],
        &sample(),
    );
    let labels: Vec<&str> = groups.iter().map(|g| g.label.as_str()).collect();
    assert_eq!(labels, vec!["Project: Home", "Project: Fun", "No project"]);
}

#[test]
fn grouping_by_done_names_both_states() {
    let groups = group_by_directives(
        &[Directive {
            field: Field::Done,
            direction: Direction::Asc,
        }],
        &sample(),
    );
    let labels: Vec<&str> = groups.iter().map(|g| g.label.as_str()).collect();
    assert_eq!(labels, vec!["Done: Done", "Done: Not done"]);
}

#[test]
fn grouping_places_each_task_once() {
    let tasks = sample();
    let groups = group_by_directives(
        &[Directive {
            field: Field::Due,
            direction: Direction::Asc,
        }],
        &tasks,
    );
    let total: usize = groups.iter().map(|g| g.tasks.len()).sum();
    assert_eq!(total, tasks.len());
    for t in &tasks {
        let holding = groups
            .iter()
            .filter(|g| g.tasks.iter().any(|x| x.id.file_name == t.id.file_name))
            .count();
        assert_eq!(holding, 1);
    }
}

#[test]
fn group_without_directives_is_one_unlabelled_group() {
    let l = list("not done\n");
    let groups = group(&l, &sample());
    assert_eq!(groups.len(), 1);
    assert_eq!(groups[0].label, "");
    assert_eq!(groups[0].tasks.len(), 5);
}

#[test]
fn field_display_names() {
    assert_eq!(field_display_name(&Field::CreationDate), "creation date");
    assert_eq!(field_display_name(&Field::Due), "due");
    assert_eq!(field_display_name(&Field::Done), "done");
}

#[test]
fn ordinary_lists_do_not_overflow() {
    assert!(!list_would_overflow("---\nname: X\n---\ndue <= today + 7\n"));
}

#[test]
fn missing_name_falls_back_to_the_stem_of_a_nested_path() {
    let l = parse_list("---\norder: 2\n---\n", "a/b/weekly.list");
    assert_eq!(l.name, "weekly");
    assert_eq!(l.order, Some(2));
    assert_eq!(l.source_path, "a/b/weekly.list");
}
