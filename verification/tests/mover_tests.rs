use chrono::Utc;

use project_hq::dates::Instant;
use project_hq::mover::{
    defer_project, move_project, reorder_projects, update_project_metadata, validate_status,
    MetadataOptions, PriorityValue,
};
use project_hq::project::Project;
use project_hq::project_file::ProjectFileError;

fn now() -> Instant {
    let at = Utc::now().fixed_offset();
    Instant {
        date: chrono::Datelike::num_days_from_ce(&at.date_naive()),
        secs: at.timestamp(),
        nanos: at.timestamp_subsec_nanos(),
    }
}

fn reparse(text: &str) -> Project {
    Project::from_text(text, "t", "t/a.md", &now()).unwrap()
}

fn priority(text: &str) -> PriorityValue {
    PriorityValue { text: text.to_string(), is_default: text == "50" }
}

#[test]
fn move_project_changes_status() {
    let text = "---\ntitle: \"Proj\"\nstatus: active\npriority: 10\n---\nBody text.\n";
    let moved = move_project("research/proj.md", text, "waiting", None, Some("Alex"), "2026-07-30").unwrap();
    let p = reparse(&moved);
    assert_eq!(p.status, "waiting");
    assert_eq!(p.priority_field.as_deref(), Some("10"));
}

#[test]
fn move_project_changes_status_and_priority() {
    let text = "---\ntitle: \"Proj\"\nstatus: active\npriority: 10\n---\n";
    let moved = move_project("research/proj.md", text, "deferred", Some(&priority("99")), None, "2026-07-30").unwrap();
    let p = reparse(&moved);
    assert_eq!(p.status, "deferred");
    assert_eq!(p.priority_field.as_deref(), Some("99"));
}

#[test]
fn move_project_inserts_priority_after_indented_status() {
    let text = "---\ntitle: \"Proj\"\n  status: active\n---\n";
    let moved = move_project("research/proj.md", text, "deferred", Some(&priority("30")), None, "2026-07-30").unwrap();
    assert!(moved.contains("status: deferred\npriority: 30\n---"));
    let p = reparse(&moved);
    assert_eq!(p.status, "deferred");
    assert_eq!(p.priority_field.as_deref(), Some("30"));
}

#[test]
fn move_project_preserves_body() {
    let text = "---\ntitle: \"Proj\"\nstatus: active\n---\n\n## Notes\nImportant stuff.\n";
    let moved = move_project("research/proj.md", text, "done", None, None, "2026-07-30").unwrap();
    assert!(moved.contains("## Notes"));
    assert!(moved.contains("Important stuff."));
}

#[test]
fn move_then_reparse_roundtrip() {
    let text = "---\ntitle: \"A\"\nstatus: active\npriority: 50\n---\n\nNotes here.\n";
    let moved = move_project("t/a.md", text, "waiting", None, Some("Sam"), "2026-07-30").unwrap();
    let p = reparse(&moved);
    assert_eq!(p.status, "waiting");
    assert_eq!(p.waiting_on, "Sam");
    let moved = move_project("t/a.md", &moved, "done", Some(&priority("10")), None, "2026-07-31").unwrap();
    let p = reparse(&moved);
    assert_eq!(p.status, "done");
    assert_eq!(p.priority_field.as_deref(), Some("10"));
    assert_eq!(p.waiting_on, "");
    assert!(!moved.contains("waiting_since"));
}

#[test]
fn entering_waiting_uses_the_one_person_of_the_available_actions() {
    let text = "---\ntitle: A\nstatus: active\n---\n\n- [ ] Ask &alex about it\n- [x] Ask &sam\n";
    let moved = move_project("t/a.md", text, "waiting", None, None, "2026-07-30").unwrap();
    assert!(moved.contains("status: waiting\nwaiting_on: alex\nwaiting_since: 2026-07-30\n"));
}

#[test]
fn entering_waiting_without_a_clear_person_needs_a_value() {
    let text = "---\ntitle: A\nstatus: active\n---\n\n- [ ] Ask &sam\n- [ ] Ask &alex\n";
    let error = move_project("t/a.md", text, "waiting", None, Some("  "), "2026-07-30").unwrap_err();
    match error {
        ProjectFileError::WaitingOnRequired { file, people } => {
            assert_eq!(file, "t/a.md");
            assert_eq!(people, vec!["alex", "sam"]);
        }
        other => panic!("unexpected error {}", other.message()),
    }
    let moved = move_project("t/a.md", text, "waiting", None, Some(" the team "), "2026-07-30").unwrap();
    assert!(moved.contains("waiting_on: the team\n"));
}

#[test]
fn blank_status_is_rejected() {
    assert!(validate_status("t/a.md", "active").is_ok());
    let error = move_project("t/a.md", "---\ntitle: A\nstatus: active\n---\n", "  ", None, None, "2026-07-30").unwrap_err();
    assert_eq!(error.message(), "Invalid status in t/a.md: status cannot be blank");
}

#[test]
fn move_project_errors_on_missing_frontmatter() {
    let result = move_project("nope/missing.md", "no frontmatter", "active", None, None, "2026-07-30");
    assert!(result.is_err());
}

#[test]
fn defer_project_sets_the_field_after_status() {
    let text = "---\ntitle: A\nstatus: active\nowner: yy\n---\n";
    let deferred = defer_project("t/a.md", text, "2026-08-01").unwrap();
    assert_eq!(deferred, "---\ntitle: A\nstatus: active\ndeferred_until: 2026-08-01\nowner: yy\n---\n");
    let error = defer_project("t/a.md", text, "tomorrow").unwrap_err();
    assert_eq!(
        error.message(),
        "Invalid deferred_until in t/a.md: expected YYYY-MM-DD or RFC 3339"
    );
}

#[test]
fn reorder_assigns_sequential_priorities() {
    let a = "---\ntitle: \"A\"\nstatus: active\npriority: 50\n---\n".to_string();
    let b = "---\ntitle: \"B\"\nstatus: active\npriority: 50\n---\n".to_string();
    let c = "---\ntitle: \"C\"\nstatus: active\npriority: 50\n---\n".to_string();
    let files = vec!["t/c.md".to_string(), "t/a.md".to_string(), "t/b.md".to_string()];
    let out = reorder_projects(&files, &vec![c, a, b]).unwrap();
    assert_eq!(reparse(&out[0]).priority_field.as_deref(), Some("30"));
    assert_eq!(reparse(&out[1]).priority_field.as_deref(), Some("20"));
    assert_eq!(reparse(&out[2]).priority_field.as_deref(), Some("10"));
}

#[test]
fn reorder_inserts_priority_when_absent() {
    let a = "---\ntitle: \"A\"\nstatus: active\n---\n".to_string();
    let b = "---\ntitle: \"B\"\nstatus: active\n---\n".to_string();
    let files = vec!["t/b.md".to_string(), "t/a.md".to_string()];
    let out = reorder_projects(&files, &vec![b, a]).unwrap();
    assert_eq!(out[0], "---\ntitle: \"B\"\nstatus: active\npriority: 20\n---\n");
    assert_eq!(out[1], "---\ntitle: \"A\"\nstatus: active\npriority: 10\n---\n");
}

#[test]
fn reorder_preserves_body_content() {
    let a = "---\ntitle: \"A\"\nstatus: active\npriority: 50\n---\n\n## Notes\nKeep this.\n".to_string();
    let out = reorder_projects(&vec!["t/a.md".to_string()], &vec![a]).unwrap();
    assert!(out[0].contains("## Notes"));
    assert!(out[0].contains("Keep this."));
}

#[test]
fn reorder_reports_the_first_document_without_frontmatter() {
    let files = vec!["t/a.md".to_string(), "t/b.md".to_string()];
    let texts = vec!["---\ntitle: A\nstatus: active\n---\n".to_string(), "plain".to_string()];
    let error = reorder_projects(&files, &texts).unwrap_err();
    assert_eq!(error.message(), "No frontmatter in t/b.md");
}

fn metadata(text_status: &str) -> MetadataOptions {
    MetadataOptions {
        file: "t/a.md".to_string(),
        title: "New: title".to_string(),
        status: text_status.to_string(),
        priority: "70".to_string(),
        priority_is_finite: true,
        owner: String::new(),
        my_next: "Call &alex".to_string(),
        waiting_on: String::new(),
        waiting_since: String::new(),
        deadline: String::new(),
        deferred_until: String::new(),
        action_mode: "sequential".to_string(),
    }
}

#[test]
fn update_project_metadata_rewrites_and_removes_fields() {
    let text = "---\ntitle: Old\nowner: yy\nstatus: active\ndeadline: 2026-01-01\n---\n\nBody.\n";
    let updated = update_project_metadata(text, &metadata("waiting")).unwrap();
    assert_eq!(
        updated,
        "---\ntitle: \"New: title\"\nstatus: waiting\naction_mode: serial\npriority: 70\nmy_next: Call &alex\n---\n\nBody.\n"
    );
}

#[test]
fn update_project_metadata_validates_before_writing() {
    let text = "---\ntitle: Old\nstatus: active\n---\n";
    let mut options = metadata("active");
    options.title = "  ".to_string();
    assert_eq!(update_project_metadata(text, &options).unwrap_err().message(), "No title field in t/a.md");
    let mut options = metadata("active");
    options.priority_is_finite = false;
    assert_eq!(update_project_metadata(text, &options).unwrap_err().message(), "Invalid priority in t/a.md");
    let mut options = metadata("active");
    options.action_mode = "random".to_string();
    assert_eq!(update_project_metadata(text, &options).unwrap_err().message(), "Invalid action_mode in t/a.md");
    let mut options = metadata("active");
    options.deferred_until = "someday".to_string();
    assert!(matches!(
        update_project_metadata(text, &options).unwrap_err(),
        ProjectFileError::InvalidDate { field: "deferred_until", .. }
    ));
}

#[test]
fn deferral_reads_back_with_the_other_fields_unchanged() {
    let text = "---\ntitle: \"Plan: v2\"\nstatus: active\ndeferred_until: 2026-01-01\nowner: yy\n---\n\nNotes\n";
    let deferred = defer_project("t/a.md", text, "2026-07-26T17:00:00.000Z").unwrap();

    let before = project_hq::frontmatter::parse_frontmatter_fields(text).unwrap();
    let after = project_hq::frontmatter::parse_frontmatter_fields(&deferred).unwrap();
    assert_eq!(after.get("deferred_until").as_deref(), Some("2026-07-26T17:00:00.000Z"));
    for key in ["title", "status", "owner"] {
        assert_eq!(after.get(key), before.get(key));
    }
    assert_eq!(
        project_hq::project_file::project_body(&deferred),
        project_hq::project_file::project_body(text)
    );
}

#[test]
fn status_move_reads_back_with_the_other_fields_unchanged() {
    let text = "---\ntitle: Grant\nstatus: waiting\nwaiting_on: NSF\nwaiting_since: 2026-01-05\nowner: yy\ndeadline: 2026-09-01\n---\n\n- [ ] Draft &alex\n";
    let moved = move_project("t/grant.md", text, "active", None, None, "2026-02-01").unwrap();

    let before = project_hq::frontmatter::parse_frontmatter_fields(text).unwrap();
    let after = project_hq::frontmatter::parse_frontmatter_fields(&moved).unwrap();
    assert_eq!(after.get("status").as_deref(), Some("active"));
    assert!(!after.contains_key("waiting_on"));
    assert!(!after.contains_key("waiting_since"));
    for key in ["title", "owner", "deadline"] {
        assert_eq!(after.get(key), before.get(key));
    }
    assert_eq!(
        project_hq::project_file::project_body(&moved),
        project_hq::project_file::project_body(text)
    );
}
