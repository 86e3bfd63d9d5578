use project_hq::undo::{UndoError, UndoManager, UndoStep};

fn project(status: &str) -> String {
    format!("---\ntitle: Test\nstatus: {status}\n---\n\nNotes.\n")
}

fn restore(steps: &[UndoStep]) -> Vec<(String, Option<String>)> {
    steps
        .iter()
        .map(|step| (step.file.clone(), step.restore.clone()))
        .collect()
}

#[test]
fn restores_the_last_recorded_file_revision() {
    let mut manager = UndoManager::new();
    let files = vec!["personal/test.md".to_string()];
    let draft = manager.capture_files(vec![(files[0].clone(), project("active"))]);
    assert!(manager.record_files("Move project", draft, vec![project("waiting")]));

    assert_eq!(manager.status().label.as_deref(), Some("Move project"));
    assert_eq!(manager.undo_files().unwrap(), files);
    let steps = manager.check_undo(&vec![project("waiting")]).unwrap();
    assert_eq!(restore(&steps), vec![(files[0].clone(), Some(project("active")))]);
    let result = manager.finish_undo().unwrap();

    assert_eq!(result.files, files);
    assert!(!manager.status().available);
}

#[test]
fn supports_multiple_undo_steps() {
    let mut manager = UndoManager::new();
    let file = "personal/test.md".to_string();
    let first = manager.capture_files(vec![(file.clone(), project("active"))]);
    manager.record_files("First move", first, vec![project("waiting")]);
    let second = manager.capture_files(vec![(file.clone(), project("waiting"))]);
    manager.record_files("Second move", second, vec![project("done")]);

    manager.check_undo(&vec![project("done")]).unwrap();
    assert_eq!(manager.finish_undo().unwrap().label, "Second move");
    let steps = manager.check_undo(&vec![project("waiting")]).unwrap();
    assert_eq!(steps[0].restore.as_deref(), Some(project("active").as_str()));
    assert_eq!(manager.finish_undo().unwrap().label, "First move");
    assert!(matches!(manager.finish_undo(), Err(UndoError::NothingToUndo)));
}

#[test]
fn refuses_to_overwrite_a_newer_external_edit() {
    let mut manager = UndoManager::new();
    let file = "personal/test.md".to_string();
    let draft = manager.capture_files(vec![(file.clone(), project("active"))]);
    manager.record_files("Move project", draft, vec![project("waiting")]);

    let error = manager.check_undo(&vec![project("done")]).err().unwrap();

    assert!(matches!(error, UndoError::Conflict { .. }));
    assert_eq!(
        error.message(),
        "personal/test.md changed after this action; reload before trying to undo it"
    );
    assert!(manager.status().available);
}

#[test]
fn undoing_project_creation_removes_only_the_unchanged_file() {
    let mut manager = UndoManager::new();
    manager.record_created("personal/new.md", "Create project", &project("active"));

    let steps = manager.check_undo(&vec![project("active")]).unwrap();
    assert_eq!(restore(&steps), vec![("personal/new.md".to_string(), None)]);
    manager.finish_undo().unwrap();
    assert!(!manager.status().available);
}

#[test]
fn one_undo_restores_a_mixed_multi_file_agent_update() {
    let mut manager = UndoManager::new();
    let draft = manager.capture_files(vec![("personal/test.md".to_string(), project("active"))]);
    assert!(manager.record_files_and_created(
        "Apply agent update",
        draft,
        vec![project("waiting")],
        vec![("personal/new.md".to_string(), project("active"))],
    ));
    let steps = manager
        .check_undo(&vec![project("waiting"), project("active")])
        .unwrap();
    assert_eq!(
        restore(&steps),
        vec![
            ("personal/test.md".to_string(), Some(project("active"))),
            ("personal/new.md".to_string(), None)
        ]
    );
    let result = manager.finish_undo().unwrap();
    assert_eq!(result.files.len(), 2);
}

#[test]
fn no_op_changes_do_not_enter_history() {
    let mut manager = UndoManager::new();
    let draft = manager.capture_files(vec![("personal/test.md".to_string(), project("active"))]);

    assert!(!manager.record_files("No change", draft, vec![project("active")]));
    assert!(!manager.status().available);
}

#[test]
fn history_keeps_the_latest_fifty_entries() {
    let mut manager = UndoManager::new();
    for i in 0..60 {
        manager.record_created(&format!("t/{i}.md"), &format!("Create {i}"), "text");
    }
    let mut count = 0;
    while manager.finish_undo().is_ok() {
        count += 1;
    }
    assert_eq!(count, 50);
    assert!(matches!(manager.check_undo(&Vec::new()), Err(UndoError::NothingToUndo)));
}
