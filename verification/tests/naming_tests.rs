use project_hq::commands::{ordered_keys, plan_new, NewOptions, NewProjectError, TrackState};
use project_hq::naming::{
    check_project_path, check_track_name, new_project_text, resolve_filename, slugify,
    validate_name,
};
use project_hq::project_file::ProjectFileError;

#[test]
fn slugify_folds_diacritics_and_collapses_punctuation() {
    assert_eq!(slugify("Café résumé"), "cafe-resume");
    assert_eq!(slugify("  Hello, World!  "), "hello-world");
    assert_eq!(slugify("NSF -- CAREER 2026"), "nsf-career-2026");
    assert_eq!(slugify("!!!"), "");
    assert_eq!(slugify("日本語"), "");
}

#[test]
fn validate_name_rules() {
    assert!(validate_name("slug", "nsf-career").is_ok());
    assert!(validate_name("slug", "a1").is_ok());
    for bad in ["", "-a", "a-", "a--b", "A", "a b", "a_b"] {
        let error = validate_name("slug", bad).unwrap_err();
        assert!(matches!(error, ProjectFileError::InvalidName { kind: "slug", .. }));
    }
    assert_eq!(
        validate_name("owner", "Bad Owner").unwrap_err().message(),
        "Invalid owner: \"Bad Owner\""
    );
}

#[test]
fn track_names_cannot_hide_from_discovery() {
    assert!(check_track_name("classes").is_ok());
    assert!(check_track_name("-classes").is_err());
}

#[test]
fn resolve_filename_skips_taken_names() {
    let taken = vec!["yy-plan.md".to_string(), "yy-plan-2.md".to_string()];
    assert_eq!(resolve_filename(&taken, "yy", "plan"), "yy-plan-3.md");
    assert_eq!(resolve_filename(&Vec::new(), "yy", "plan"), "yy-plan.md");
    let taken: Vec<String> = (2..=11)
        .map(|k| format!("yy-plan-{k}.md"))
        .chain(std::iter::once("yy-plan.md".to_string()))
        .collect();
    assert_eq!(resolve_filename(&taken, "yy", "plan"), "yy-plan-12.md");
}

#[test]
fn resolve_project_path_rejects_absolute_paths() {
    assert!(matches!(
        check_project_path("/etc/passwd.md"),
        Err(ProjectFileError::InvalidPath(_))
    ));
}

#[test]
fn resolve_project_path_rejects_parent_traversal() {
    assert!(check_project_path("../outside.md").is_err());
    assert!(check_project_path("lab/../../outside.md").is_err());
}

#[test]
fn resolve_project_path_accepts_relative_markdown_paths() {
    assert!(check_project_path("lab/project.md").is_ok());
    assert!(check_project_path("lab/sub/project.md").is_ok());
}

#[test]
fn resolve_project_path_rejects_non_markdown_files_when_requested() {
    assert!(check_project_path("hq.toml").is_err());
}

#[test]
fn new_project_text_quotes_and_skips_empty_values() {
    let fields = vec![
        ("title".to_string(), "Plan: v2".to_string()),
        ("status".to_string(), "active".to_string()),
        ("deadline".to_string(), String::new()),
    ];
    assert_eq!(
        new_project_text(&fields, ""),
        "---\ntitle: \"Plan: v2\"\nstatus: active\n---\n"
    );
}

fn options(title: &str) -> NewOptions {
    NewOptions {
        track: "lab".to_string(),
        title: title.to_string(),
        owner: None,
        slug: None,
        status: "active".to_string(),
        priority: Some("70".to_string()),
        priority_is_finite: true,
        deadline: Some("  ".to_string()),
        my_next: Some("Email Sam".to_string()),
        action_mode: None,
        edit: false,
        new_track: false,
    }
}

#[test]
fn plan_new_builds_the_file() {
    let state = TrackState { is_dir: true, exists: true };
    let taken = vec!["yy-grant-report.md".to_string()];
    let plan = plan_new(&options("  Grant report "), None, &vec!["lab".to_string()], &state, &taken).unwrap();
    assert!(!plan.create_track);
    assert_eq!(plan.filename, "yy-grant-report-2.md");
    assert_eq!(plan.relative, "lab/yy-grant-report-2.md");
    assert_eq!(
        plan.text,
        "---\ntitle: Grant report\nstatus: active\npriority: 70\nmy_next: Email Sam\n---\n"
    );
}

#[test]
fn plan_new_reports_errors_in_order() {
    let state = TrackState { is_dir: false, exists: false };
    let error = plan_new(&options("   "), None, &Vec::new(), &state, &Vec::new()).unwrap_err();
    assert_eq!(error.message(), "--title cannot be empty");
    let error = plan_new(&options("!!!"), Some("yy"), &Vec::new(), &state, &Vec::new()).unwrap_err();
    assert_eq!(
        error.message(),
        "Could not derive a slug from title \"!!!\"; pass --slug explicitly"
    );
    let error = plan_new(&options("Plan"), None, &Vec::new(), &state, &Vec::new()).unwrap_err();
    assert!(matches!(error, NewProjectError::UnknownTrack { .. }));
    assert_eq!(
        error.message(),
        "Unknown track \"lab\". Existing tracks: (no tracks discovered). Pass --new-track to create it."
    );
    let mut with_new_track = options("Plan");
    with_new_track.new_track = true;
    let plan = plan_new(&with_new_track, None, &Vec::new(), &state, &Vec::new()).unwrap();
    assert!(plan.create_track);
    let mut infinite = options("Plan");
    infinite.priority_is_finite = false;
    let error = plan_new(&infinite, None, &Vec::new(), &state, &Vec::new()).unwrap_err();
    assert_eq!(error.message(), "--priority must be a finite number");
}

#[test]
fn plan_new_writes_the_action_mode_when_given() {
    let state = TrackState { is_dir: true, exists: true };
    let mut serial = options("Launch");
    serial.action_mode = Some("serial".to_string());
    let plan = plan_new(&serial, Some("ab"), &vec!["lab".to_string()], &state, &Vec::new()).unwrap();
    assert_eq!(plan.relative, "lab/ab-launch.md");
    assert_eq!(
        plan.text,
        "---\ntitle: Launch\nstatus: active\npriority: 70\nmy_next: Email Sam\naction_mode: serial\n---\n"
    );
    let mut blank = options("Launch");
    blank.action_mode = Some(" ".to_string());
    let plan = plan_new(&blank, None, &vec!["lab".to_string()], &state, &Vec::new()).unwrap();
    assert!(!plan.text.contains("action_mode"));
}

#[test]
fn ordered_keys_keeps_configured_order_then_appends() {
    let configured = vec!["b".to_string(), "a".to_string()];
    let present = vec!["c".to_string(), "a".to_string(), "c".to_string(), "d".to_string()];
    assert_eq!(ordered_keys(&configured, &present), vec!["b", "a", "c", "d"]);
}
