use std::io;

use project_hq::agent::AgentError;
use project_hq::api::{
    agent_error_status, collect_owners, new_project_error_status, owner_from_file,
    path_touches_reload_target, project_file_status, request_is_authorized, routine_error_status,
    task_error_status, undo_error_status,
};
use project_hq::commands::NewProjectError;
use project_hq::dates::Instant;
use project_hq::project::Project;
use project_hq::project_file::ProjectFileError;
use project_hq::routine::RoutineError;
use project_hq::task::TaskError;
use project_hq::undo::UndoError;

#[test]
fn desktop_auth_accepts_header_or_query_token() {
    assert!(request_is_authorized(Some("secret"), None, "secret"));
    assert!(request_is_authorized(None, Some("thread=one&hq_token=secret"), "secret"));
    assert!(!request_is_authorized(None, Some("hq_token=wrong"), "secret"));
}

#[test]
fn auth_refuses_near_misses() {
    assert!(!request_is_authorized(Some("secre"), None, "secret"));
    assert!(!request_is_authorized(None, None, "secret"));
    assert!(!request_is_authorized(None, Some("hq_token"), "secret"));
    assert!(!request_is_authorized(None, Some("token=secret"), "secret"));
    assert!(request_is_authorized(None, Some("hq_token=a=b"), "a=b"));
}

#[test]
fn bad_request_errors_map_to_400() {
    assert_eq!(project_file_status(&ProjectFileError::InvalidPath("bad".to_string())), 400);
}

#[test]
fn missing_files_map_to_404() {
    let error = ProjectFileError::Read {
        file: "missing.md".to_string(),
        source: io::Error::new(io::ErrorKind::NotFound, "missing"),
    };
    assert_eq!(project_file_status(&error), 404);
    let denied = ProjectFileError::Read {
        file: "denied.md".to_string(),
        source: io::Error::new(io::ErrorKind::PermissionDenied, "denied"),
    };
    assert_eq!(project_file_status(&denied), 500);
}

#[test]
fn checkbox_conflicts_map_to_409() {
    assert_eq!(project_file_status(&ProjectFileError::CheckboxConflict), 409);
}

#[test]
fn error_responses_keep_the_existing_json_shape() {
    let error = ProjectFileError::InvalidPath("bad.md".to_string());
    assert_eq!(project_file_status(&error), 400);
    assert_eq!(error.message(), "Invalid file path: bad.md");
}

#[test]
fn new_project_errors_have_explicit_statuses() {
    let validation = NewProjectError::Validation("--title cannot be empty".into());
    assert_eq!(new_project_error_status(&validation), 400);
    assert_eq!(validation.message(), "--title cannot be empty");

    let unknown = NewProjectError::UnknownTrack {
        track: "ideas".to_string(),
        known: "research".to_string(),
    };
    assert_eq!(new_project_error_status(&unknown), 404);
    assert_eq!(
        unknown.message(),
        "Unknown track \"ideas\". Existing tracks: research. Pass --new-track to create it."
    );
}

#[test]
fn other_errors_have_their_statuses() {
    assert_eq!(task_error_status(&TaskError::InvalidLine("x".to_string())), 400);
    assert_eq!(task_error_status(&TaskError::Conflict), 409);
    assert_eq!(routine_error_status(&RoutineError::AlreadyExists("x".to_string())), 409);
    assert_eq!(routine_error_status(&RoutineError::Malformed("x".to_string())), 400);
    assert_eq!(undo_error_status(&UndoError::NothingToUndo), 409);
    assert_eq!(undo_error_status(&UndoError::StateUnavailable), 500);
    assert_eq!(agent_error_status(&AgentError::UnknownSession), 404);
    assert_eq!(agent_error_status(&AgentError::RuntimeUnavailable("x".to_string())), 503);
    assert_eq!(agent_error_status(&AgentError::Runtime("x".to_string())), 502);
    assert_eq!(agent_error_status(&AgentError::NoChange("HQ".to_string())), 409);
}

#[test]
fn managed_file_events_trigger_reload() {
    assert!(path_touches_reload_target("research/project.md"));
    assert!(path_touches_reload_target("hq.toml"));
    assert!(path_touches_reload_target("_tasks/todo.txt"));
    assert!(!path_touches_reload_target("research/project.txt"));
}

#[test]
fn reload_targets_follow_path_components() {
    assert!(path_touches_reload_target("/home/me/hq/_tasks/done.txt"));
    assert!(path_touches_reload_target("/home/me/hq/hq.toml"));
    assert!(!path_touches_reload_target("/home/me/hq/.md"));
    assert!(!path_touches_reload_target("/home/me/hq/other/todo.txt"));
    assert!(path_touches_reload_target("a/./b.md/"));
}

#[test]
fn owners_come_from_file_prefixes() {
    assert_eq!(owner_from_file("research/yy-paper.md").as_deref(), Some("yy"));
    assert_eq!(owner_from_file("research\\ab-notes.md").as_deref(), Some("ab"));
    assert_eq!(owner_from_file("research/paper.md"), None);
    assert_eq!(owner_from_file("research/-paper.md"), None);
}

#[test]
fn owners_are_collected_sorted_once() {
    let now = Instant { date: 739_000, secs: 1_780_000_000, nanos: 0 };
    let text = "---\ntitle: P\nstatus: active\n---\n";
    let projects = vec![
        Project::from_text(text, "research", "research/zz-a.md", &now).unwrap(),
        Project::from_text(text, "research", "research/aa-b.md", &now).unwrap(),
        Project::from_text(text, "research", "research/zz-c.md", &now).unwrap(),
        Project::from_text(text, "research", "research/plain.md", &now).unwrap(),
    ];
    assert_eq!(collect_owners(&projects, Some("mm")), vec!["aa", "mm", "zz"]);
    assert_eq!(collect_owners(&projects, None), vec!["aa", "zz"]);
}
