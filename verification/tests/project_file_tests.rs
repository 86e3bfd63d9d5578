use std::io;

use project_hq::frontmatter::split_frontmatter;
use project_hq::project_file::{
    project_body, read_project_body, reset_completed_actions, toggle_body_checkbox,
    toggle_checkbox_line, validate_project_file, validate_project_text, write_project_body,
    FrontmatterLines, ProjectFileError,
};

#[test]
fn project_body_ignores_dashes_inside_frontmatter_values() {
    let text = r#"---
title: "Bug repro"
status: active
priority: 40---
notes: keep this in frontmatter
---

Actual body text.
"#;

    assert_eq!(project_body(text), "Actual body text.\n");
}

#[test]
fn write_errors_include_the_target_file() {
    let error = ProjectFileError::Write {
        file: "research/project.md".to_string(),
        source: io::Error::new(io::ErrorKind::PermissionDenied, "blocked"),
    };

    assert_eq!(error.message(), "research/project.md: blocked");
}

#[test]
fn toggle_checkbox_line_preserves_bullet_spacing_and_text() {
    assert_eq!(
        toggle_checkbox_line("  - [ ] Draft section", false, true),
        Some("  - [x] Draft section".to_string())
    );
    assert_eq!(
        toggle_checkbox_line("\t* [X] Review", true, false),
        Some("\t* [ ] Review".to_string())
    );
}

#[test]
fn toggle_checkbox_line_rejects_mismatched_or_non_checkbox_lines() {
    assert_eq!(toggle_checkbox_line("- [ ] Draft", true, true), None);
    assert_eq!(toggle_checkbox_line("- Draft", false, true), None);
    assert_eq!(toggle_checkbox_line("-[ ] Draft", false, true), None);
    assert_eq!(toggle_checkbox_line("1. [ ] Draft", false, true), None);
}

#[test]
fn frontmatter_replace_updates_all_matching_fields() {
    let mut frontmatter = FrontmatterLines::new(vec![
        "title: Project".to_string(),
        "status: active".to_string(),
        " status: deferred".to_string(),
    ]);

    assert!(frontmatter.replace("status", "waiting"));
    assert_eq!(
        frontmatter.into_inner(),
        vec!["title: Project", "status: waiting", "status: waiting",]
    );
}

#[test]
fn frontmatter_upsert_after_appends_when_anchor_is_missing() {
    let mut frontmatter = FrontmatterLines::new(vec!["title: Project".to_string()]);

    frontmatter.upsert_after("priority", "70", "status");

    assert_eq!(
        frontmatter.into_inner(),
        vec!["title: Project", "priority: 70"]
    );
}

#[test]
fn frontmatter_upsert_after_inserts_after_the_anchor() {
    let mut frontmatter = FrontmatterLines::new(vec![
        "title: Project".to_string(),
        "status: active".to_string(),
        "owner: yy".to_string(),
    ]);

    frontmatter.upsert_after("priority", "70", "status");

    assert_eq!(
        frontmatter.into_inner(),
        vec!["title: Project", "status: active", "priority: 70", "owner: yy"]
    );
}

#[test]
fn frontmatter_remove_drops_every_matching_line() {
    let mut frontmatter = FrontmatterLines::new(vec![
        "title: Project".to_string(),
        "waiting_on: alex".to_string(),
        "  waiting_on : sam".to_string(),
    ]);

    frontmatter.remove("waiting_on");

    assert_eq!(frontmatter.into_inner(), vec!["title: Project"]);
}

#[test]
fn frontmatter_values_are_quoted_when_ambiguous() {
    let mut frontmatter = FrontmatterLines::new(vec!["title: Old".to_string()]);
    assert!(frontmatter.replace_string("title", "Plan: phase \"2\""));
    assert_eq!(
        frontmatter.into_inner(),
        vec!["title: \"Plan: phase \\\"2\\\"\""]
    );
}

#[test]
fn write_project_body_preserves_frontmatter() {
    let original = "---\ntitle: Project\nstatus: active\n---\n\nOld body.\n";
    let written = write_project_body("lab/p.md", original, "New body.").unwrap();
    assert_eq!(written, "---\ntitle: Project\nstatus: active\n---\n\nNew body.\n");
}

#[test]
fn write_project_body_preserves_trailing_spaces_in_body() {
    let original = "---\ntitle: Project\nstatus: active\n---\n\nOld.\n";
    let written = write_project_body("lab/p.md", original, "Line with spaces   \n").unwrap();
    assert_eq!(read_project_body("lab/p.md", &written).unwrap(), "Line with spaces   \n");
}

#[test]
fn write_project_body_preserves_trailing_blank_lines() {
    let original = "---\ntitle: Project\nstatus: active\n---\n\nOld.\n";
    let written = write_project_body("lab/p.md", original, "Body\n\n\n").unwrap();
    assert_eq!(read_project_body("lab/p.md", &written).unwrap(), "Body\n\n\n");
}

#[test]
fn read_project_body_preserves_leading_indentation() {
    let text = "---\ntitle: Project\nstatus: active\n---\n\n    indented code\n";
    assert_eq!(read_project_body("lab/p.md", text).unwrap(), "    indented code\n");
}

#[test]
fn read_after_write_gives_the_body_back() {
    let original = "\u{feff}---\r\ntitle: Project\r\nstatus: active\r\n---\r\n\r\nOld body.\r\n";
    for body in ["", "one line", "two\nlines\n", "\n\nstarts blank"] {
        let written = write_project_body("lab/p.md", original, body).unwrap();
        let expected = if !body.is_empty() && !body.ends_with('\n') {
            format!("{body}\n")
        } else {
            body.to_string()
        };
        assert_eq!(read_project_body("lab/p.md", &written).unwrap(), expected);
    }
}

#[test]
fn write_project_body_requires_frontmatter() {
    let error = write_project_body("lab/p.md", "no frontmatter here", "Body").unwrap_err();
    assert!(matches!(
        error,
        ProjectFileError::Frontmatter { reason: "No frontmatter", .. }
    ));
    let error = validate_project_file("lab/p.md", "---\ntitle: x\n").unwrap_err();
    assert_eq!(error.message(), "Malformed frontmatter in lab/p.md");
}

#[test]
fn validate_project_text_requires_title_and_status() {
    assert!(validate_project_text("lab/p.md", "---\ntitle: A\nstatus: active\n---\n").is_ok());
    let error = validate_project_text("lab/p.md", "---\ntitle: A\n---\n").unwrap_err();
    assert_eq!(
        error.message(),
        "Invalid frontmatter or missing title/status in lab/p.md"
    );
}

#[test]
fn toggle_body_checkbox_rewrites_only_the_chosen_line() {
    let text = "---\ntitle: A\nstatus: active\n---\n\n- [ ] First\n- [ ] Second\n";
    let updated = toggle_body_checkbox("lab/a.md", text, 1, false, true).unwrap();
    assert_eq!(
        updated,
        "---\ntitle: A\nstatus: active\n---\n\n- [ ] First\n- [x] Second\n"
    );
    let conflict = toggle_body_checkbox("lab/a.md", &updated, 1, false, true).unwrap_err();
    assert!(matches!(conflict, ProjectFileError::CheckboxConflict));
    let out_of_range = toggle_body_checkbox("lab/a.md", text, 9, false, true).unwrap_err();
    assert!(matches!(out_of_range, ProjectFileError::CheckboxConflict));
}

#[test]
fn toggling_twice_restores_the_line() {
    let line = "  + [ ] Call &alex @phone";
    let checked = toggle_checkbox_line(line, false, true).unwrap();
    assert_eq!(toggle_checkbox_line(&checked, true, false).unwrap(), line);
}

#[test]
fn reset_completed_actions_preserves_other_content() {
    let original = "---\ntitle: Semester prep\nstatus: deferred\ndeferred_until: 2027-01-01\n---\n\n\
## Checklist\n\n\
- [x] Contact Claudia\n\
  * [X] Set meeting time\n\
- [ ] Set writing time\n\
1. [x] Ordered list is not an action\n\
Inline [x] text is unchanged.\n\
```markdown\n\
- [x] Checklist example\n\
```\n\
- [x]Malformed checkbox\n";

    let (text, count) = reset_completed_actions("lab/semester.md", original).unwrap();

    assert_eq!(count, 2);
    let expected = original.replacen("- [x] Contact Claudia", "- [ ] Contact Claudia", 1);
    let expected = expected.replacen("* [X] Set meeting time", "* [ ] Set meeting time", 1);
    assert_eq!(text, expected);
}

#[test]
fn reset_completed_actions_does_not_rewrite_when_nothing_is_complete() {
    let original = "---\ntitle: Semester prep\nstatus: active\n---\n\n- [ ] Contact Claudia  \n";

    let (text, count) = reset_completed_actions("lab/semester.md", original).unwrap();

    assert_eq!(count, 0);
    assert_eq!(text, original);
}

#[test]
fn project_body_ignores_utf8_bom_before_frontmatter() {
    let text = "\u{feff}---\ntitle: \"BOM project\"\nstatus: active\n---\n\nNotes\n";

    assert_eq!(project_body(text), "Notes\n");
}

#[test]
fn split_fm_basic() {
    let text = "---\ntitle: \"A\"\nstatus: active\n---\n\nBody text.\n";
    let (fm, body) = split_frontmatter(text).unwrap();
    assert_eq!(fm, "\ntitle: \"A\"\nstatus: active\n");
    assert_eq!(body, "\n\nBody text.\n");
}

#[test]
fn split_fm_no_body() {
    let text = "---\ntitle: \"A\"\nstatus: active\n---\n";
    let (fm, body) = split_frontmatter(text).unwrap();
    assert!(fm.contains("title:"));
    assert_eq!(body, "\n");
}

#[test]
fn split_fm_rejects_no_frontmatter() {
    assert!(split_frontmatter("Just text").is_err());
}

#[test]
fn split_fm_rejects_unclosed_frontmatter() {
    assert!(split_frontmatter("---\ntitle: \"A\"\nstatus: active\n").is_err());
}

#[test]
fn split_fm_closing_must_be_on_own_line() {
    let text = "---\ntitle: \"A\"\npriority: 40---\nstatus: active\n---\n";
    let (fm, _body) = split_frontmatter(text).unwrap();
    assert!(fm.contains("40---"));
    assert!(fm.contains("status: active"));
}

#[test]
fn frontmatter_upsert_after_uses_the_first_anchor_and_replaces_every_field_line() {
    let mut frontmatter = FrontmatterLines::new(vec![
        "status: active".to_string(),
        "title: Project".to_string(),
        "status: paused".to_string(),
    ]);
    frontmatter.upsert_after("priority", "70", "status");
    assert_eq!(
        frontmatter.into_inner(),
        vec!["status: active", "priority: 70", "title: Project", "status: paused"]
    );

    let mut frontmatter = FrontmatterLines::new(vec![
        "priority: 10".to_string(),
        "title: Project".to_string(),
        "  priority : 20".to_string(),
    ]);
    frontmatter.upsert_after("priority", "70", "status");
    assert_eq!(
        frontmatter.into_inner(),
        vec!["priority: 70", "title: Project", "priority: 70"]
    );
}

#[test]
fn a_document_splits_into_dashes_frontmatter_closing_line_and_body() {
    let text = "\u{feff}---\r\ntitle: A\r\n---\r\n\nBody\n";
    let (frontmatter, body) = split_frontmatter(text).unwrap();
    assert_eq!(frontmatter, "\r\ntitle: A\r\n");
    assert_eq!(body, "\n\nBody\n");
    assert_eq!(project_body(text), "Body\n");
    assert!(text.ends_with(&project_body(text)));
    assert_eq!(project_body("no frontmatter"), "no frontmatter");
    assert!(split_frontmatter("---\ntitle: A\n").is_err());
}

#[test]
fn toggling_changes_only_the_mark_between_the_brackets() {
    assert_eq!(toggle_checkbox_line("  *\t[X] Done [x]", true, false).as_deref(), Some("  *\t[ ] Done [x]"));
    assert_eq!(toggle_checkbox_line("+  [ ]", false, true).as_deref(), Some("+  [x]"));
    assert_eq!(toggle_checkbox_line("- [x] Done", false, true), None);
    assert_eq!(toggle_checkbox_line("- [y] Odd", false, true), None);
}
