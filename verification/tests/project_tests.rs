use chrono::{DateTime, Datelike, NaiveDate};

use project_hq::commands::{check_init_target, starter_projects, starter_readme};
use project_hq::action::ActionMode;
use project_hq::dates::{deferred_is_visible_at, valid_deferred_until, Instant};
use project_hq::frontmatter::{parse_frontmatter, split_frontmatter};
use project_hq::project::Project;

fn day(value: &str) -> i32 {
    NaiveDate::parse_from_str(value, "%Y-%m-%d")
        .unwrap()
        .num_days_from_ce()
}

fn instant(value: &str) -> Instant {
    let at = DateTime::parse_from_rfc3339(value).unwrap();
    Instant {
        date: at.date_naive().num_days_from_ce(),
        secs: at.timestamp(),
        nanos: at.timestamp_subsec_nanos(),
    }
}

fn now() -> Instant {
    instant("2026-07-26T12:00:00-04:00")
}

fn parse_project(content: &str) -> Option<Project> {
    Project::from_text(content, "test", "test/p.md", &now())
}

fn project_with_next_step(my_next: &str) -> Project {
    Project {
        title: "Project".to_string(),
        track: "research".to_string(),
        status: "active".to_string(),
        owner: String::new(),
        priority_field: None,
        waiting_on: String::new(),
        waiting_since: None,
        my_next: my_next.to_string(),
        last: String::new(),
        deadline: None,
        deferred_until: None,
        visible: true,
        action_mode: ActionMode::Parallel,
        actions: Vec::new(),
        file: "research/project.md".to_string(),
    }
}

#[test]
fn validates_date_and_rfc3339_deferrals() {
    assert!(valid_deferred_until("2026-07-27"));
    assert!(valid_deferred_until("2026-07-26T17:00:00.000Z"));
    assert!(!valid_deferred_until("tomorrow"));
    assert!(!valid_deferred_until("2026-02-30"));
}

#[test]
fn deferral_becomes_visible_on_its_date() {
    let now = instant("2026-07-26T12:00:00-04:00");

    assert!(!deferred_is_visible_at(Some("2026-07-27"), &now));
    assert!(deferred_is_visible_at(Some("2026-07-26"), &now));
    assert!(deferred_is_visible_at(None, &now));
}

#[test]
fn timestamp_deferral_becomes_visible_at_the_exact_instant() {
    let before = instant("2026-07-26T12:59:59-04:00");
    let exact = instant("2026-07-26T13:00:00-04:00");

    assert!(!deferred_is_visible_at(Some("2026-07-26T17:00:00Z"), &before));
    assert!(deferred_is_visible_at(Some("2026-07-26T17:00:00Z"), &exact));
}

#[test]
fn from_text_defaults_missing_optional_fields() {
    let project = Project::from_text(
        "---\ntitle: Project\nstatus: active\n---\n",
        "research",
        "research/project.md",
        &now(),
    )
    .unwrap();

    assert_eq!(project.title, "Project");
    assert_eq!(project.track, "research");
    assert_eq!(project.status, "active");
    assert_eq!(project.owner, "");
    assert_eq!(project.priority_field, None);
    assert_eq!(project.waiting_on, "");
    assert_eq!(project.waiting_since, None);
    assert_eq!(project.my_next, "");
    assert_eq!(project.last, "");
    assert_eq!(project.deadline, None);
    assert_eq!(project.deferred_until, None);
    assert!(project.visible);
    assert_eq!(project.action_mode, ActionMode::Parallel);
    assert!(project.actions.is_empty());
    assert_eq!(project.file, "research/project.md");
}

#[test]
fn actionable_next_step_ignores_blank_and_placeholder_values() {
    assert_eq!(project_with_next_step("").actionable_next_step(), None);
    assert_eq!(project_with_next_step("   ").actionable_next_step(), None);
    assert_eq!(
        project_with_next_step("(fill in)").actionable_next_step(),
        None
    );
}

#[test]
fn actionable_next_step_trims_real_values() {
    assert_eq!(
        project_with_next_step("  draft intro  ").actionable_next_step(),
        Some("draft intro".to_string())
    );
}

#[test]
fn future_deferral_hides_project_and_its_actions() {
    let project = Project::from_text(
        "---\ntitle: Future\nstatus: active\ndeferred_until: 2999-01-01\n---\n\n- [ ] Call Mom @phone\n",
        "personal",
        "personal/future.md",
        &now(),
    )
    .unwrap();

    assert!(!project.visible);
    assert!(project.actions.iter().all(|action| !action.available));
}

#[test]
fn elapsed_deferral_is_visible_without_status_change() {
    let project = Project::from_text(
        "---\ntitle: Ready\nstatus: active\ndeferred_until: 2000-01-01\n---\n\n- [ ] Call Mom @phone\n",
        "personal",
        "personal/ready.md",
        &now(),
    )
    .unwrap();

    assert!(project.visible);
    assert_eq!(project.status, "active");
    assert!(project.actions[0].available);
}

#[test]
fn parses_basic_project_fields() {
    let content = r#"---
title: "My Project"
track: research
status: active
waiting_on: me
my_next: write tests
deadline: 2026-04-01
priority: 90
---
"#;
    let p = parse_project(content).unwrap();
    assert_eq!(p.title, "My Project");
    assert_eq!(p.track, "research");
    assert_eq!(p.status, "active");
    assert_eq!(p.waiting_on, "me");
    assert_eq!(p.my_next, "write tests");
    assert_eq!(p.deadline.as_deref(), Some("2026-04-01"));
    assert_eq!(p.priority_field.as_deref(), Some("90"));
}

#[test]
fn parses_waiting_since_field() {
    let content = "---\ntitle: \"Another Project\"\ntrack: research\nstatus: waiting\nwaiting_on: referee\nwaiting_since: 2026-02-15\nmy_next: wait\n---\n";
    let p = parse_project(content).unwrap();
    assert_eq!(p.title, "Another Project");
    assert_eq!(p.status, "waiting");
    assert_eq!(p.waiting_on, "referee");
    assert_eq!(p.waiting_since, Some(day("2026-02-15")));
    assert_eq!(p.waiting_days(day("2026-02-20")), Some(5));
}

#[test]
fn waiting_days_ignores_future_dates() {
    let content = "---\ntitle: \"Future wait\"\ntrack: research\nstatus: waiting\nwaiting_on: referee\nwaiting_since: 2999-01-01\n---\n";
    let p = parse_project(content).unwrap();
    assert_eq!(p.waiting_days(now().date), None);
}

#[test]
fn classifies_waiting_like_statuses() {
    let waiting = parse_project("---\ntitle: \"Wait\"\nstatus: waiting\n---\n").unwrap();
    let submitted = parse_project("---\ntitle: \"Sent\"\nstatus: submitted\n---\n").unwrap();
    let active = parse_project("---\ntitle: \"Do\"\nstatus: active\n---\n").unwrap();

    assert!(waiting.is_waiting_like());
    assert!(submitted.is_waiting_like());
    assert!(!active.is_waiting_like());
}

#[test]
fn handles_deferred_until_field() {
    let content = "---\ntitle: \"Side thing\"\ntrack: personal\nstatus: deferred\ndeferred_until: 2026-06-01\nmy_next: revisit later\n---\n";
    let p = parse_project(content).unwrap();
    assert_eq!(p.title, "Side thing");
    assert_eq!(p.track, "personal");
    assert_eq!(p.status, "deferred");
    assert!(p.deferred_until.is_some());
}

#[test]
fn handles_numeric_priority() {
    let content = "---\ntitle: \"Grant\"\ntrack: funding\nstatus: active\npriority: 25\n---\n";
    let p = parse_project(content).unwrap();
    assert_eq!(p.priority_field.as_deref(), Some("25"));
}

#[test]
fn default_priority_when_absent() {
    let content = "---\ntitle: \"Grant D\"\ntrack: funding\nstatus: active\n---\n";
    let p = parse_project(content).unwrap();
    assert_eq!(p.priority_field, None);
}

#[test]
fn returns_none_for_files_without_frontmatter() {
    assert!(parse_project("# Just a heading\n\nSome text.\n").is_none());
}

#[test]
fn returns_none_for_missing_required_fields() {
    assert!(parse_project("---\nowner: YY\npriority: 50\n---\n").is_none());
}

#[test]
fn handles_colons_in_values() {
    let content = "---\ntitle: \"My Project\"\ntrack: research\nstatus: active\npaper: \"https://www.overleaf.com/project/123\"\nnotes: \"POC: Chrissie Holt-Hull\"\n---\n";
    let p = parse_project(content).unwrap();
    assert_eq!(p.title, "My Project");
    let fields = parse_frontmatter(content).unwrap();
    assert_eq!(fields.get("notes").as_deref(), Some("POC: Chrissie Holt-Hull"));
}

#[test]
fn skips_comment_lines() {
    let content = "---\ntitle: \"Test\"\n# this is a comment\nstatus: active\n---\n";
    let p = parse_project(content).unwrap();
    assert_eq!(p.title, "Test");
    assert_eq!(p.status, "active");
}

#[test]
fn skips_empty_values() {
    let content = "---\ntitle: \"Test\"\nstatus: active\nowner: \n---\n";
    let p = parse_project(content).unwrap();
    assert_eq!(p.owner, "");
}

#[test]
fn preserves_body_after_frontmatter() {
    let content = "---\ntitle: \"Test\"\nstatus: active\n---\n\nSome notes here.\n";
    let p = parse_project(content).unwrap();
    assert_eq!(p.title, "Test");
}

#[test]
fn closing_dashes_must_be_on_own_line() {
    let content = "---\ntitle: \"Test\"\nstatus: active\npriority: 40---\nmore: stuff\n---\n";
    let p = parse_project(content).unwrap();
    assert_eq!(p.title, "Test");
    assert_eq!(p.priority_field.as_deref(), Some("40---"));
}

#[test]
fn closing_dashes_glued_to_value_no_real_close() {
    let content = "---\ntitle: \"Test\"\nstatus: active\npriority: 40---\n";
    assert!(parse_project(content).is_none());
}

#[test]
fn rejects_opening_delimiter_longer_than_three_dashes() {
    assert!(parse_project("----\ntitle: \"Test\"\nstatus: active\n---\n").is_none());
}

#[test]
fn rejects_closing_delimiter_longer_than_three_dashes() {
    assert!(parse_project("---\ntitle: \"Test\"\nstatus: active\n----\nBody text.\n").is_none());
}

#[test]
fn split_fm_agrees_with_project_parser() {
    let text = "---\ntitle: \"Test\"\nstatus: active\npriority: 40---\nmore: stuff\n---\n\nBody.\n";
    let (fm, _body) = split_frontmatter(text).unwrap();
    assert!(fm.contains("priority: 40---"));
    let p = parse_project(text).unwrap();
    assert_eq!(p.title, "Test");
    assert_eq!(p.status, "active");
}

#[test]
fn serial_project_mode_comes_from_the_frontmatter() {
    let p = parse_project(
        "---\ntitle: A\nstatus: active\naction_mode: serial\n---\n\n- [ ] One\n- [ ] Two\n",
    )
    .unwrap();
    assert_eq!(p.action_mode, ActionMode::Serial);
    assert!(p.actions[0].available);
    assert!(!p.actions[1].available);
}

#[test]
fn starter_content_has_three_cards_and_a_readme() {
    let starters = starter_projects();
    assert_eq!(starters.len(), 3);
    assert_eq!(starters[0].track, "projects");
    assert_eq!(starters[0].filename, "welcome-to-hq.md");
    assert_eq!(starters[1].frontmatter[0], ("title".to_string(), "Example: Bio 101".to_string()));
    assert!(starters[2].body.contains("`waiting_on`"));
    assert!(starter_readme().starts_with("# HQ\n"));
    assert!(check_init_target("hq", &Vec::new()).is_ok());
    let refused = check_init_target("hq", &vec!["research".to_string(), "admin".to_string()]).unwrap_err();
    assert_eq!(
        refused.message(),
        "hq already looks like an HQ directory (tracks: research, admin); refusing to add starter content"
    );
}
