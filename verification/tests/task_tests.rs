use chrono::{Datelike, NaiveDate};

use project_hq::task::check_task_input;
use project_hq::task::{
    append_task_line, complete_task_texts, format_task_line, order_tasks, read_tasks, replace_task_line, task_tokens,
    validate_task_text, Task, TaskError,
};

fn day(value: &str) -> i32 {
    NaiveDate::parse_from_str(value, "%Y-%m-%d")
        .unwrap()
        .num_days_from_ce()
}

fn finite_flags(raw: &str) -> Vec<bool> {
    task_tokens(raw)
        .iter()
        .map(|token| {
            token
                .strip_prefix("p:")
                .and_then(|value| value.parse::<f64>().ok())
                .is_some_and(|value| value.is_finite())
        })
        .collect()
}

fn parse(raw: &str, line: usize, today: &str) -> Result<Task, TaskError> {
    Task::parse(raw, line, day(today), &finite_flags(raw))
}

fn line_flags(text: &str) -> Vec<Vec<bool>> {
    text.lines().map(finite_flags).collect()
}

#[test]
fn parses_concise_todo_txt_extensions() {
    let task = parse(
        "2026-07-31 Call electrician @phone &electrician +house p:100 due:2026-08-15 t:2026-08-03 status:waiting",
        4,
        "2026-07-31",
    )
    .unwrap();
    assert_eq!(task.title, "Call electrician");
    assert_eq!(task.priority.as_deref(), Some("100"));
    assert_eq!(task.priority.as_deref().map(|p| p.parse::<f64>().unwrap()), Some(100.0));
    assert_eq!(task.contexts, ["phone"]);
    assert_eq!(task.people, ["electrician"]);
    assert_eq!(task.tags, ["house"]);
    assert!(!task.visible);
    assert!(task.waiting);
    assert_eq!(task.created, Some(day("2026-07-31")));
    assert_eq!(task.due, Some(day("2026-08-15")));
}

#[test]
fn parse_reports_invalid_lines() {
    let message = |raw: &str| match parse(raw, 0, "2026-07-31") {
        Err(TaskError::InvalidLine(m)) => m,
        _ => panic!("expected an invalid line"),
    };
    assert_eq!(message("   "), "empty line");
    assert_eq!(message("x Call"), "completion date is required after x");
    assert_eq!(message("Call p:lots"), "p: must contain a finite number");
    assert_eq!(message("Call p:inf"), "p: must contain a finite number");
    assert_eq!(message("Call due:friday"), "due: must use YYYY-MM-DD");
    assert_eq!(message("Call t:later"), "t: must use YYYY-MM-DD");
    assert_eq!(message("2026-07-31 p:5"), "text is required");
    assert_eq!(message("@phone +house"), "descriptive text is required");
}

#[test]
fn completed_tasks_are_not_visible() {
    let task = parse("x 2026-08-01 2026-07-31 First task +home p:20", 0, "2026-08-02").unwrap();
    assert_eq!(task.completed, Some(day("2026-08-01")));
    assert_eq!(task.created, Some(day("2026-07-31")));
    assert!(!task.visible);
    assert_eq!(task.text, "First task +home");
}

#[test]
fn format_task_line_round_trips() {
    let line = format_task_line(
        Some(day("2026-07-31")),
        "  Call electrician @phone +house ",
        Some("75.5"),
        Some(day("2026-08-15")),
        None,
        true,
    )
    .unwrap();
    assert_eq!(
        line,
        "2026-07-31 Call electrician @phone +house p:75.5 due:2026-08-15 status:waiting"
    );
    let task = parse(&line, 0, "2026-07-31").unwrap();
    assert_eq!(task.active_line().unwrap(), line);
}

#[test]
fn completion_moves_one_line_to_done_txt() {
    let todo = "2026-07-31 First task +home p:20\n2026-07-31 Second task p:10\n";
    let task = parse("2026-07-31 First task +home p:20", 0, "2026-08-01").unwrap();
    let (todo_after, done_after) = complete_task_texts(
        todo,
        "",
        0,
        "2026-07-31 First task +home p:20",
        day("2026-08-01"),
        &task,
    )
    .unwrap()
    .unwrap();
    assert!(!todo_after.contains("First task"));
    assert!(todo_after.contains("Second task"));
    assert!(done_after.starts_with("x 2026-08-01 "));
    assert!(done_after.contains("First task +home p:20"));
    let conflict = complete_task_texts(todo, "", 0, "something else", day("2026-08-01"), &task);
    assert!(matches!(conflict, Err(TaskError::Conflict)));
}

#[test]
fn appending_and_replacing_lines() {
    let (text, index) = append_task_line("2026-07-31 First", "2026-08-01 Second");
    assert_eq!(text, "2026-07-31 First\n2026-08-01 Second\n");
    assert_eq!(index, 1);
    let replaced = replace_task_line(&text, 1, "2026-08-01 Second", "2026-08-01 Second p:5").unwrap();
    assert_eq!(replaced, "2026-07-31 First\n2026-08-01 Second p:5\n");
    assert!(matches!(
        replace_task_line(&text, 0, "nope", "x"),
        Err(TaskError::Conflict)
    ));
}

#[test]
fn validate_task_text_keeps_completed_lines_in_done() {
    let todo = "2026-07-31 Call\n\nx 2026-08-01 Done thing\n";
    let error = validate_task_text("_tasks/todo.txt", todo, day("2026-08-02"), &line_flags(todo)).unwrap_err();
    assert_eq!(error.message(), "Invalid task: completed lines belong in done.txt");
    let done = "2026-07-31 Call\n";
    let error = validate_task_text("_tasks/done.txt", done, day("2026-08-02"), &line_flags(done)).unwrap_err();
    assert_eq!(
        error.message(),
        "Invalid task: done.txt lines must begin with x and a completion date"
    );
    assert!(validate_task_text("_tasks/todo.txt", "2026-07-31 Call\n", 0, &line_flags("2026-07-31 Call\n")).is_ok());
    assert!(matches!(
        validate_task_text("notes.txt", "", 0, &Vec::new()),
        Err(TaskError::InvalidPath(_))
    ));
}

#[test]
fn task_input_must_be_one_line_with_a_finite_priority() {
    assert!(check_task_input("Call electrician", true).is_ok());
    match check_task_input("  ", true) {
        Err(TaskError::InvalidLine(m)) => assert_eq!(m, "text must be one non-empty line"),
        other => panic!("unexpected {other:?}"),
    }
    match check_task_input("two\nlines", true) {
        Err(TaskError::InvalidLine(m)) => assert_eq!(m, "text must be one non-empty line"),
        other => panic!("unexpected {other:?}"),
    }
    match check_task_input("fine", false) {
        Err(TaskError::InvalidLine(m)) => assert_eq!(m, "priority must be a finite number"),
        other => panic!("unexpected {other:?}"),
    }
}

#[test]
fn deferred_task_appears_on_its_date_unchanged() {
    let raw = "2026-07-31 Buy filters +house p:50 t:2026-08-03";
    let before = parse(raw, 1, "2026-08-02").unwrap();
    let on_the_day = parse(raw, 1, "2026-08-03").unwrap();
    let after = parse(raw, 1, "2026-09-01").unwrap();

    assert!(!before.visible);
    assert!(on_the_day.visible);
    assert!(after.visible);
    assert_eq!(before.text, on_the_day.text);
    assert_eq!(before.raw, on_the_day.raw);
    assert_eq!(before.deferred_until, Some(day("2026-08-03")));
    assert_eq!(on_the_day.deferred_until, before.deferred_until);
}

#[test]
fn a_todo_text_reads_as_its_tasks_in_line_order() {
    let text = "Call Ann p:2\n\n   \nBuy milk @store\n";
    let flags: Vec<Vec<bool>> = text.lines().map(finite_flags).collect();
    let tasks = read_tasks(text, day("2026-08-01"), &flags).unwrap();
    let lines: Vec<(usize, &str)> = tasks.iter().map(|t| (t.line, t.text.as_str())).collect();
    assert_eq!(lines, vec![(0, "Call Ann"), (3, "Buy milk @store")]);
    assert_eq!(tasks[0].priority.as_deref(), Some("2"));

    let bad = "Call Ann\nCall p:lots\nx\n";
    let flags: Vec<Vec<bool>> = bad.lines().map(finite_flags).collect();
    match read_tasks(bad, day("2026-08-01"), &flags) {
        Err(TaskError::InvalidLine(m)) => assert_eq!(m, "p: must contain a finite number"),
        other => panic!("unexpected {other:?}"),
    }
    assert!(read_tasks("", day("2026-08-01"), &Vec::new()).unwrap().is_empty());
}

fn ranks_of(tasks: &[Task]) -> Vec<u64> {
    let numbers: Vec<Option<f64>> =
        tasks.iter().map(|t| t.priority.as_deref().and_then(|p| p.parse::<f64>().ok())).collect();
    let mut distinct: Vec<f64> = numbers.iter().flatten().copied().collect();
    distinct.sort_by(|a, b| a.total_cmp(b));
    distinct.dedup();
    numbers
        .iter()
        .map(|v| v.map_or(0, |v| distinct.iter().position(|d| *d == v).unwrap() as u64))
        .collect()
}

fn load(text: &str, today: &str) -> Vec<Task> {
    let tasks = read_tasks(text, day(today), &line_flags(text)).unwrap();
    let ranks = ranks_of(&tasks);
    order_tasks(tasks, &ranks)
}

#[test]
fn loading_sorts_numeric_priority_high_to_low_and_defers_visibility() {
    let text = "2026-08-01 Low p:10 t:2099-01-01\n2026-08-01 High p:100\n";
    let tasks = load(text, "2026-08-01");
    assert_eq!(tasks[0].raw, "2026-08-01 High p:100");
    assert!(!tasks.iter().find(|task| task.title == "Low").unwrap().visible);
}

#[test]
fn tasks_without_priority_sort_last_and_ties_keep_line_order() {
    let text = "Plain one\nTie a p:5\nTop p:9.5\nPlain two\nTie b p:5\nLow p:-3\n";
    let titles: Vec<String> = load(text, "2026-08-01").into_iter().map(|t| t.title).collect();
    assert_eq!(titles, vec!["Top", "Tie a", "Tie b", "Low", "Plain one", "Plain two"]);
    assert!(order_tasks(Vec::new(), &Vec::new()).is_empty());
}
