use project_hq::agent::{
    baseline_of, changed_paths, check_creatable, check_live_unchanged, check_turn_message,
    check_workspace_copy, pending_change, project_candidate, proposed_text, require_changed,
    session_info_from, turn_info_from, turn_text,
    workspace_is_dirty, check_apply, AgentApplyResult, AgentChange, AgentError, AgentFileChange,
    AgentFileChangeKind, AgentRuntimeStatus, ApplyStop, LiveFile, ProjectTexts,
};
use project_hq::dates::Instant;
use project_hq::project_file::ProjectFileError;

fn now() -> Instant {
    Instant { date: 739_000, secs: 1_780_000_000, nanos: 0 }
}

fn live_base() -> ProjectTexts {
    let mut base = ProjectTexts::new();
    base.insert(
        "research/test.md".to_string(),
        "---\ntitle: Test\nstatus: active\n---\n\nOriginal research.\n".to_string(),
    );
    base.insert(
        "personal/task.md".to_string(),
        "---\ntitle: Task\nstatus: active\n---\n\nOriginal personal.\n".to_string(),
    );
    base
}

#[test]
fn project_texts_keep_name_order_and_replace_in_place() {
    let mut texts = live_base();
    assert_eq!(texts.len(), 2);
    assert_eq!(texts.entry(0).0, "personal/task.md");
    assert_eq!(texts.entry(1).0, "research/test.md");
    texts.insert("research/test.md".to_string(), "changed".to_string());
    assert_eq!(texts.len(), 2);
    assert_eq!(texts.get("research/test.md").unwrap(), "changed");
    assert!(texts.get("missing.md").is_none());
    assert!(texts.contains("personal/task.md"));
}

#[test]
fn repository_change_lists_a_modified_project_with_its_diff() {
    let base = live_base();
    let mut candidates = live_base();
    candidates.insert(
        "research/test.md".to_string(),
        "---\ntitle: Test\nstatus: active\n---\n\nAgent edit.\n".to_string(),
    );
    let change = pending_change(&base, &candidates, &vec!["research/test.md".to_string()]).unwrap();
    assert!(change.changed);
    assert!(change.diff.contains("-Original research."));
    assert!(change.diff.contains("+Agent edit."));
    assert!(change.diff.contains("a/research/test.md"));
    assert!(change.diff.contains("b/research/test.md"));
    assert!(change.diff.ends_with('\n'));
    assert_eq!(change.files.len(), 1);
    assert_eq!(change.files[0].file, "research/test.md");
    assert_eq!(change.files[0].kind, AgentFileChangeKind::Modified);
}

#[test]
fn unchanged_workspace_proposes_nothing() {
    let base = live_base();
    let change = pending_change(&base, &live_base(), &Vec::new()).unwrap();
    assert!(!change.changed);
    assert!(change.files.is_empty());
    assert_eq!(change.diff, "");
    assert!(require_changed(&change).is_err());
    match require_changed(&change) {
        Err(AgentError::NoChange(what)) => assert_eq!(what, "HQ"),
        other => panic!("unexpected {other:?}"),
    }
}

#[test]
fn new_project_is_proposed_as_created() {
    let base = live_base();
    let mut candidates = live_base();
    candidates.insert(
        "personal/new.md".to_string(),
        "---\ntitle: New\nstatus: active\n---\n\nCreated by agent.\n".to_string(),
    );
    let change = pending_change(&base, &candidates, &vec!["personal/new.md".to_string()]).unwrap();
    assert_eq!(change.files.len(), 1);
    assert_eq!(change.files[0].kind, AgentFileChangeKind::Created);
    assert!(change.files[0].diff.contains("/dev/null"));
    assert!(change.files[0].diff.contains("+Created by agent."));
}

#[test]
fn several_projects_change_in_name_order() {
    let base = live_base();
    let mut candidates = live_base();
    candidates.insert(
        "research/test.md".to_string(),
        "---\ntitle: Test\nstatus: waiting\n---\n\nAgent research edit.\n".to_string(),
    );
    candidates.insert(
        "personal/task.md".to_string(),
        "---\ntitle: Task\nstatus: done\n---\n\nAgent personal edit.\n".to_string(),
    );
    let change = pending_change(&base, &candidates, &Vec::new()).unwrap();
    assert_eq!(change.files.len(), 2);
    assert_eq!(change.files[0].file, "personal/task.md");
    assert_eq!(change.files[1].file, "research/test.md");
    assert!(change.diff.contains("+Agent personal edit."));
    assert!(change.diff.contains("+Agent research edit."));
}

#[test]
fn non_project_file_changes_are_not_approvable_here() {
    let base = live_base();
    let change = pending_change(&base, &live_base(), &vec!["notes.txt".to_string()]);
    match change {
        Err(AgentError::UnsupportedChange(message)) => assert_eq!(
            message,
            "The agent changed unsupported files: notes.txt. Reject the workspace and try again."
        ),
        other => panic!("unexpected {other:?}"),
    }
}

#[test]
fn deleted_project_is_not_supported() {
    let base = live_base();
    let mut candidates = ProjectTexts::new();
    candidates.insert(
        "research/test.md".to_string(),
        "---\ntitle: Test\nstatus: active\n---\n\nOriginal research.\n".to_string(),
    );
    match pending_change(&base, &candidates, &vec!["personal/task.md".to_string()]) {
        Err(AgentError::UnsupportedChange(message)) => assert_eq!(
            message,
            "The agent deleted or invalidated personal/task.md; project deletion is not supported"
        ),
        other => panic!("unexpected {other:?}"),
    }
}

#[test]
fn approval_refuses_a_newer_live_edit() {
    let base = live_base();
    let baseline = baseline_of(&base, "research/test.md").unwrap().clone();
    let live = "---\ntitle: Test\nstatus: done\n---\n\nNewer live edit.\n";
    match check_live_unchanged("research/test.md", &baseline, live) {
        Err(AgentError::Project(ProjectFileError::RevisionConflict { file })) => {
            assert_eq!(file, "research/test.md")
        }
        other => panic!("unexpected {other:?}"),
    }
    assert!(check_live_unchanged("research/test.md", &baseline, &baseline).is_ok());
}

#[test]
fn approval_needs_a_baseline_and_proposed_text() {
    let base = live_base();
    match baseline_of(&base, "personal/new.md") {
        Err(AgentError::InvalidResponse(message)) => {
            assert_eq!(message, "Missing agent baseline for personal/new.md")
        }
        other => panic!("unexpected {other:?}"),
    }
    match proposed_text(&base, "personal/new.md") {
        Err(AgentError::InvalidResponse(message)) => {
            assert_eq!(message, "Missing proposed contents for personal/new.md")
        }
        other => panic!("unexpected {other:?}"),
    }
}

#[test]
fn created_project_needs_a_free_path() {
    assert!(check_creatable("personal/new.md", false).is_ok());
    match check_creatable("personal/new.md", true) {
        Err(AgentError::Project(ProjectFileError::AlreadyExists { kind, name })) => {
            assert_eq!(kind, "project");
            assert_eq!(name, "personal/new.md");
        }
        other => panic!("unexpected {other:?}"),
    }
}

#[test]
fn applying_records_the_new_baseline_and_created_files() {
    let mut base = live_base();
    let mut candidates = live_base();
    candidates.insert(
        "personal/new.md".to_string(),
        "---\ntitle: New\nstatus: active\n---\n\nCreated by agent.\n".to_string(),
    );
    let change = pending_change(&base, &candidates, &Vec::new()).unwrap();
    let mut result = AgentApplyResult::new();
    for file_change in &change.files {
        let text = proposed_text(&candidates, &file_change.file).unwrap().clone();
        result.record(&mut base, file_change, text);
    }
    assert!(result.ok);
    assert_eq!(result.files, vec!["personal/new.md"]);
    assert_eq!(result.created, vec!["personal/new.md"]);
    assert!(base.contains("personal/new.md"));
    let again = pending_change(&base, &candidates, &Vec::new()).unwrap();
    assert!(!again.changed);
}

#[test]
fn changed_paths_are_sorted_once_each() {
    let paths = changed_paths(
        &vec!["research/b.md".to_string(), "research/a.md".to_string()],
        &vec!["notes.txt".to_string(), "research/a.md".to_string()],
    );
    assert_eq!(paths, vec!["notes.txt", "research/a.md", "research/b.md"]);
    assert!(workspace_is_dirty(&paths));
    assert!(!workspace_is_dirty(&Vec::new()));
}

#[test]
fn project_collection_ignores_non_project_markdown_texts() {
    let skip = vec!["README.md".to_string()];
    let project = project_candidate(
        "research",
        "project.md",
        "---\ntitle: Project\nstatus: active\n---\n",
        &skip,
        &now(),
    )
    .unwrap();
    assert_eq!(
        project,
        Some((
            "research/project.md".to_string(),
            "---\ntitle: Project\nstatus: active\n---\n".to_string()
        ))
    );
    let reference = project_candidate(
        "research",
        "reference.md",
        "# Reference document\n\nNot an HQ project.\n",
        &skip,
        &now(),
    )
    .unwrap();
    assert_eq!(reference, None);
    assert_eq!(
        project_candidate("research", "README.md", "---\ntitle: R\nstatus: active\n---\n", &skip, &now())
            .unwrap(),
        None
    );
    assert_eq!(
        project_candidate("research", "notes.txt", "---\ntitle: R\nstatus: active\n---\n", &skip, &now())
            .unwrap(),
        None
    );
}

#[test]
fn turn_messages_must_not_be_blank() {
    assert!(check_turn_message("  hello ").is_ok());
    match check_turn_message("   \n") {
        Err(AgentError::Runtime(message)) => assert_eq!(message, "Agent message cannot be empty"),
        other => panic!("unexpected {other:?}"),
    }
}

#[test]
fn turn_text_mentions_the_viewed_file() {
    assert_eq!(turn_text("Hi", None), "Hi");
    assert_eq!(turn_text("Hi", Some("  ")), "Hi");
    let text = turn_text("Hi", Some("research/test.md"));
    assert!(text.starts_with("The user is currently viewing `research/test.md` beside this conversation."));
    assert!(text.ends_with("before answering.\n\nHi"));
}

#[test]
fn runtime_status_reports_version_or_error() {
    let ok = AgentRuntimeStatus::from_version(Ok("codex 1.0".to_string()));
    assert!(ok.available);
    assert_eq!(ok.provider, "codex");
    assert_eq!(ok.version.as_deref(), Some("codex 1.0"));
    assert!(ok.error.is_none());
    let err = AgentRuntimeStatus::from_version(Err(AgentError::RuntimeUnavailable("gone".to_string())));
    assert!(!err.available);
    assert_eq!(err.error.as_deref(), Some("gone"));
    assert_eq!(AgentError::UnknownSession.message(), "No HQ agent session");
    assert_eq!(
        AgentError::InvalidResponse("x".to_string()).message(),
        "Codex returned an invalid response: x"
    );
    assert_eq!(
        AgentError::NoChange("HQ".to_string()).message(),
        "The agent has no proposed change for HQ"
    );
}

#[test]
fn workspace_copy_must_match_the_snapshot() {
    let mut base = ProjectTexts::new();
    base.insert("work/a.md".to_string(), "A".to_string());
    let mut same = ProjectTexts::new();
    same.insert("work/a.md".to_string(), "A".to_string());
    assert!(check_workspace_copy(&base, &same).is_ok());

    let mut changed = ProjectTexts::new();
    changed.insert("work/a.md".to_string(), "A edited".to_string());
    match check_workspace_copy(&base, &changed) {
        Err(AgentError::Runtime(message)) => assert_eq!(
            message,
            "HQ changed while the agent workspace was being prepared; try again"
        ),
        other => panic!("unexpected {other:?}"),
    }
    assert!(check_workspace_copy(&base, &ProjectTexts::new()).is_err());
}

#[test]
fn session_and_turn_infos_need_their_ids() {
    let info = session_info_from(Some("thread-1"), None, Some("gpt")).unwrap();
    assert_eq!(info.thread_id, "thread-1");
    assert_eq!(info.provider, "openai");
    assert_eq!(info.model, "gpt");
    let info = session_info_from(Some("thread-2"), Some("azure"), None).unwrap();
    assert_eq!(info.provider, "azure");
    assert_eq!(info.model, "default");
    match session_info_from(None, Some("azure"), Some("gpt")) {
        Err(AgentError::InvalidResponse(message)) => assert_eq!(message, "thread/start omitted thread.id"),
        other => panic!("unexpected {other:?}"),
    }

    let turn = turn_info_from("thread-1", Some("turn-7")).unwrap();
    assert_eq!(turn.thread_id, "thread-1");
    assert_eq!(turn.turn_id, "turn-7");
    match turn_info_from("thread-1", None) {
        Err(AgentError::InvalidResponse(message)) => assert_eq!(message, "turn/start omitted turn.id"),
        other => panic!("unexpected {other:?}"),
    }
}

fn change_of(files: &[(&str, AgentFileChangeKind)]) -> AgentChange {
    AgentChange {
        changed: !files.is_empty(),
        diff: String::new(),
        files: files
            .iter()
            .map(|(file, kind)| AgentFileChange { file: file.to_string(), kind: *kind, diff: String::new() })
            .collect(),
    }
}

#[test]
fn every_file_is_checked_before_an_approved_change_applies() {
    let mut base = ProjectTexts::new();
    base.insert("lab/a.md".to_string(), "A".to_string());
    base.insert("lab/b.md".to_string(), "B".to_string());
    let change = change_of(&[
        ("lab/a.md", AgentFileChangeKind::Modified),
        ("lab/b.md", AgentFileChangeKind::Modified),
        ("lab/c.md", AgentFileChangeKind::Created),
    ]);
    let ready = vec![LiveFile::Text("A".into()), LiveFile::Text("B".into()), LiveFile::Exists(false)];
    assert!(check_apply(&change, &base, &ready).is_ok());

    let conflict = vec![LiveFile::Text("A".into()), LiveFile::Text("B edited".into()), LiveFile::Exists(true)];
    match check_apply(&change, &base, &conflict) {
        Err(ApplyStop::Refused(AgentError::Project(ProjectFileError::RevisionConflict { file }))) => {
            assert_eq!(file, "lab/b.md")
        }
        other => panic!("unexpected {other:?}"),
    }
    let taken = vec![LiveFile::Text("A".into()), LiveFile::Text("B".into()), LiveFile::Exists(true)];
    match check_apply(&change, &base, &taken) {
        Err(ApplyStop::Refused(AgentError::Project(ProjectFileError::AlreadyExists { kind, name }))) => {
            assert_eq!((kind, name.as_str()), ("project", "lab/c.md"))
        }
        other => panic!("unexpected {other:?}"),
    }
    let unreadable = vec![LiveFile::Text("A".into()), LiveFile::Unreadable, LiveFile::Exists(false)];
    assert!(matches!(check_apply(&change, &base, &unreadable), Err(ApplyStop::Io(1))));

    let unknown = change_of(&[("lab/z.md", AgentFileChangeKind::Modified)]);
    match check_apply(&unknown, &base, &vec![LiveFile::Text("Z".into())]) {
        Err(ApplyStop::Refused(AgentError::InvalidResponse(m))) => assert_eq!(m, "Missing agent baseline for lab/z.md"),
        other => panic!("unexpected {other:?}"),
    }
    let unchanged = change_of(&[]);
    assert!(matches!(check_apply(&unchanged, &base, &Vec::new()), Err(ApplyStop::Refused(AgentError::NoChange(_)))));
}
