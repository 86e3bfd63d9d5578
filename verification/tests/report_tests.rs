use project_hq::report::render_actions;
use project_hq::action::ActionMode;
use chrono::{Datelike, NaiveDate};
use project_hq::project::Project;
use project_hq::report::{
    render_all, render_my_plate, render_stale, render_summary, render_undefer, render_waiting,
};

/// The rank of the default priority (50.0); the tests give other priorities
/// as their own ranks, since ranks need only order as the priorities do.
const DEFAULT_RANK: u64 = 50;

fn strings(items: &[&str]) -> Vec<String> {
    items.iter().map(|item| item.to_string()).collect()
}

fn project(title: &str, track: &str, status: &str) -> Project {
    Project {
        title: title.to_string(),
        track: track.to_string(),
        status: status.to_string(),
        owner: String::new(),
        priority_field: None,
        waiting_on: String::new(),
        waiting_since: None,
        my_next: String::new(),
        last: String::new(),
        deadline: None,
        deferred_until: None,
        visible: true,
        action_mode: ActionMode::Parallel,
        actions: Vec::new(),
        file: format!("{track}/{title}.md"),
    }
}

fn day(text: &str) -> i32 {
    NaiveDate::parse_from_str(text, "%Y-%m-%d").unwrap().num_days_from_ce()
}

#[test]
fn my_plate_shows_only_my_plate_status_projects() {
    let mut on_plate = project("Urgent", "research", "my-plate");
    on_plate.my_next = "send comments".to_string();
    let active = project("Active", "research", "active");

    let output = render_my_plate(&vec![on_plate, active], &vec![DEFAULT_RANK; 2], &strings(&["research"]));

    assert!(output.contains("My plate (1):"));
    assert!(output.contains("Urgent → send comments"));
    assert!(!output.contains("Active"));
}

#[test]
fn my_plate_omits_placeholder_next_steps() {
    let mut filled = project("Paper", "research", "my-plate");
    filled.my_next = "draft intro".to_string();

    let mut placeholder = project("Grant", "research", "my-plate");
    placeholder.my_next = "(fill in)".to_string();

    let output = render_my_plate(&vec![filled, placeholder], &vec![DEFAULT_RANK; 2], &strings(&["research"]));
    assert!(output.contains("Paper → draft intro"));
    assert!(output.contains("Grant"));
    assert!(!output.contains("Grant →"));
}

#[test]
fn my_plate_trims_next_steps_before_rendering() {
    let mut project = project("Paper", "research", "my-plate");
    project.my_next = "  draft intro  ".to_string();

    let output = render_my_plate(&vec![project], &vec![DEFAULT_RANK], &strings(&["research"]));

    assert!(output.contains("Paper → draft intro"));
    assert!(!output.contains("  draft intro  "));
}

#[test]
fn my_plate_respects_configured_track_order() {
    let admin = project("Budget", "admin", "my-plate");
    let research = project("Paper", "research", "my-plate");

    let output = render_my_plate(&vec![admin, research], &vec![DEFAULT_RANK; 2], &strings(&["research", "admin"]));

    let research_index = output.find("[research]").unwrap();
    let admin_index = output.find("[admin]").unwrap();

    assert!(research_index < admin_index);
}

#[test]
fn my_plate_appends_tracks_missing_from_config() {
    let research = project("Paper", "research", "my-plate");
    let alias = project("Alias", "advising", "my-plate");

    let output = render_my_plate(&vec![alias, research], &vec![DEFAULT_RANK; 2], &strings(&["research"]));

    let research_index = output.find("[research]").unwrap();
    let advising_index = output.find("[advising]").unwrap();

    assert!(research_index < advising_index);
    assert!(output.contains("Alias"));
}

#[test]
fn my_plate_sorts_projects_by_priority_within_track() {
    let mut low = project("Low", "research", "my-plate");
    low.my_next = "minor".to_string();

    let mut high = project("High", "research", "my-plate");
    high.my_next = "major".to_string();

    let output = render_my_plate(&vec![low, high], &vec![10, 90], &strings(&["research"]));
    let high_index = output.find("High").unwrap();
    let low_index = output.find("Low").unwrap();

    assert!(high_index < low_index);
}

#[test]
fn my_plate_exact_text() {
    let mut paper = project("Paper", "research", "my-plate");
    paper.my_next = "draft".to_string();
    paper.deadline = Some("2026-06-15".to_string());
    let output = render_my_plate(&vec![paper], &vec![DEFAULT_RANK], &strings(&["research"]));
    assert_eq!(output, "My plate (1):\n\n  [research]\n    Paper → draft [due 2026-06-15]\n\n");
}

#[test]
fn stale_sorts_longest_waiting_first() {
    let mut newer = project("Recent", "research", "waiting");
    newer.waiting_on = "referee".to_string();
    newer.waiting_since = Some(day("2026-04-01"));

    let mut older = project("Old", "research", "submitted");
    older.waiting_on = "committee".to_string();
    older.waiting_since = Some(day("2026-03-01"));

    let output = render_stale(&vec![newer, older], day("2026-05-01"), 1);
    let old_index = output.find("Old").unwrap();
    let recent_index = output.find("Recent").unwrap();

    assert!(old_index < recent_index);
    assert!(output.starts_with("Stale (waiting >1 days): 2\n\n"));
    assert!(output.contains("  [research] Old — 61d — committee\n"));
}

#[test]
fn waiting_sorts_projects_by_priority() {
    let mut low = project("Low", "research", "waiting");
    low.waiting_on = "referee".to_string();

    let mut high = project("High", "research", "submitted");
    high.waiting_on = "committee".to_string();

    let output = render_waiting(&vec![low, high], &vec![10, 90], day("2026-05-01"));
    let high_index = output.find("High").unwrap();
    let low_index = output.find("Low").unwrap();

    assert!(high_index < low_index);
}

#[test]
fn waiting_lines_show_days_and_deadline() {
    let mut paper = project("Paper", "research", "waiting");
    paper.waiting_on = "editor".to_string();
    paper.waiting_since = Some(day("2026-04-21"));
    paper.deadline = Some("soon".to_string());
    let output = render_waiting(&vec![paper], &vec![DEFAULT_RANK], day("2026-05-01"));
    assert_eq!(output, "Waiting/submitted (1):\n\n  [research] Paper — editor (10d) [due soon]\n");
}

#[test]
fn stale_excludes_projects_waiting_exactly_at_threshold() {
    let threshold = 30;
    let today = day("2026-05-31");
    let mut exact = project("Exact", "research", "waiting");
    exact.waiting_on = "referee".to_string();
    exact.waiting_since = Some(today - 30);

    let output = render_stale(&vec![exact], today, threshold);

    assert!(!output.contains("Exact"));
    assert_eq!(
        output,
        "No projects waiting >30 days (or no 'since' dates recorded yet).\n"
    );
}

#[test]
fn all_respects_status_order_then_appends_unknown_statuses() {
    let active = project("Alpha", "research", "active");
    let done = project("Beta", "research", "done");
    let blocked = project("Gamma", "research", "blocked");

    let output = render_all(&vec![blocked, done, active], &vec![DEFAULT_RANK; 3], &strings(&["active", "done"]));

    let active_index = output.find("ACTIVE").unwrap();
    let done_index = output.find("DONE").unwrap();
    let blocked_index = output.find("BLOCKED").unwrap();

    assert!(active_index < done_index);
    assert!(done_index < blocked_index);
}

#[test]
fn all_sorts_projects_by_priority_within_status() {
    let low = project("Low", "research", "active");
    let high = project("High", "research", "active");

    let output = render_all(&vec![low, high], &vec![10, 90], &strings(&["active"]));
    let high_index = output.find("High").unwrap();
    let low_index = output.find("Low").unwrap();

    assert!(high_index < low_index);
    assert_eq!(output, "\nACTIVE (2):\n  [research] High\n  [research] Low\n");
}

#[test]
fn summary_respects_status_order_then_appends_unknown_statuses() {
    let active = project("Alpha", "research", "active");
    let done = project("Beta", "research", "done");
    let blocked = project("Gamma", "research", "blocked");

    let output = render_summary(
        &vec![blocked, done, active],
        &vec![DEFAULT_RANK; 3],
        &strings(&["research"]),
        &strings(&["done", "active"]),
    );

    let done_index = output.find("done: 1").unwrap();
    let active_index = output.find("active: 1").unwrap();
    let blocked_index = output.find("blocked: 1").unwrap();

    assert!(done_index < active_index);
    assert!(active_index < blocked_index);
    assert_eq!(output, "Summary:\n\n  research (3): done: 1, active: 1, blocked: 1\n");
}

#[test]
fn summary_appends_tracks_missing_from_config() {
    let research = project("Alpha", "research", "active");
    let advising = project("Beta", "advising", "waiting");

    let output = render_summary(&vec![advising, research], &vec![DEFAULT_RANK; 2], &strings(&["research"]), &Vec::new());

    let research_index = output.find("research (1):").unwrap();
    let advising_index = output.find("advising (1):").unwrap();

    assert!(research_index < advising_index);
    assert!(output.contains("waiting: 1"));
}

#[test]
fn context_and_person_reports_list_available_actions() {
    let now = project_hq::dates::Instant { date: 739_000, secs: 1_780_000_000, nanos: 0 };
    let text = "---\ntitle: Paper\nstatus: active\n---\n\n- [ ] call @phone &alex\n- [x] done @phone\n";
    let projects = vec![Project::from_text(text, "research", "research/paper.md", &now).unwrap()];
    assert_eq!(
        render_actions(&projects, "phone", false),
        "Available actions for @phone (1):\n\n  [research] Paper — call @phone &alex\n"
    );
    assert_eq!(render_actions(&projects, "@email", false), "No available actions for @email.\n");
    assert_eq!(render_actions(&projects, "alex", true), "Available actions for &alex (1):\n\n  [research] Paper — call @phone &alex\n");
    assert_eq!(render_actions(&vec![project("X", "research", "my-plate")], "alex", true), "No available actions for &alex.\n");
}

#[test]
fn undefer_omits_placeholder_next_steps() {
    let mut placeholder = project("Grant", "research", "deferred");
    placeholder.deferred_until = Some("2026-04-30".to_string());
    placeholder.my_next = "(fill in)".to_string();

    let output = render_undefer(&vec![placeholder], day("2026-05-01"));
    assert!(output.contains("Grant"));
    assert!(!output.contains("→ (fill in)"));
}

#[test]
fn undefer_shows_real_next_steps() {
    let mut project = project("Paper", "research", "deferred");
    project.deferred_until = Some("2026-05-01".to_string());
    project.my_next = "restart revisions".to_string();

    let output = render_undefer(&vec![project], day("2026-05-01"));
    assert!(output.contains("→ restart revisions"));
    assert!(output.contains("today"));
}

#[test]
fn undefer_lists_reached_deferrals_longest_past_first() {
    let mut recent = project("Recent", "research", "deferred");
    recent.deferred_until = Some("2026-04-29".to_string());
    let mut older = project("Older", "teaching", "deferred");
    older.deferred_until = Some("2026-04-01".to_string());
    older.my_next = "pick up grading".to_string();
    let mut future = project("Future", "research", "deferred");
    future.deferred_until = Some("2026-06-01".to_string());
    let mut active = project("Active", "research", "active");
    active.deferred_until = Some("2026-04-01".to_string());

    let output = render_undefer(&vec![recent, older, future, active], day("2026-05-01"));
    assert_eq!(
        output,
        "Deferred projects ready to resume (2):\n\n  [teaching] Older (deferred until 2026-04-01, 30d ago)\n    → pick up grading\n    teaching/Older.md\n  [research] Recent (deferred until 2026-04-29, 2d ago)\n    research/Recent.md\n"
    );

    let nothing = render_undefer(&Vec::new(), day("2026-05-01"));
    assert_eq!(nothing, "No deferred projects ready to resume.\n");
}
