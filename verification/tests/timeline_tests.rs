use chrono::{Datelike, NaiveDate};
use project_hq::dates::Instant;
use project_hq::project::Project;
use project_hq::timeline::{
    apply_project_ages, assemble_timeline, blob_requests, counts_as_outflow, dedup_snapshots,
    is_load_status, is_outflow_status, merge_outflow, parse_cat_file_batch, parse_git_change,
    parse_git_log, project_file, push_or_replace_daily_snapshot, replay_history,
    revision_projects, same_project_state, sample_snapshots, timeline_projects, track_for_file,
    TimelineOutflow, TimelineProject, TimelineSnapshot, TimelineSource,
};

fn date(value: &str) -> i32 {
    NaiveDate::parse_from_str(value, "%Y-%m-%d").unwrap().num_days_from_ce()
}

fn project(file: &str) -> TimelineProject {
    TimelineProject {
        file: file.to_string(),
        title: file.to_string(),
        track: "research".to_string(),
        status: "active".to_string(),
        waiting_since: None,
        deadline: None,
        age_days: None,
    }
}

fn snapshot(day: &str, projects: Vec<TimelineProject>) -> TimelineSnapshot {
    TimelineSnapshot { date: date(day), projects, outflow: Vec::new() }
}

fn outflow(track: &str, status: &str, count: usize) -> TimelineOutflow {
    TimelineOutflow { track: track.to_string(), status: status.to_string(), count }
}

fn now() -> Instant {
    Instant { date: date("2026-06-01"), secs: 1_780_000_000, nanos: 0 }
}

fn tracks() -> Vec<String> {
    vec!["research".to_string(), "personal".to_string()]
}

#[test]
fn project_age_starts_when_project_first_appears() {
    let mut snapshots = vec![
        snapshot("2026-05-01", vec![project("research/a.md")]),
        snapshot("2026-05-03", vec![project("research/a.md"), project("research/b.md")]),
    ];

    apply_project_ages(&mut snapshots);

    assert_eq!(snapshots[0].projects[0].age_days, Some(0));
    assert_eq!(snapshots[1].projects[0].age_days, Some(2));
    assert_eq!(snapshots[1].projects[1].age_days, Some(0));
}

#[test]
fn ages_are_counted_in_date_order() {
    let mut snapshots = vec![
        snapshot("2026-05-10", vec![project("research/a.md")]),
        snapshot("2026-05-01", vec![project("research/a.md")]),
    ];
    apply_project_ages(&mut snapshots);
    assert_eq!(snapshots[0].date, date("2026-05-01"));
    assert_eq!(snapshots[0].projects[0].age_days, Some(0));
    assert_eq!(snapshots[1].projects[0].age_days, Some(9));
}

#[test]
fn statuses_on_and_off_the_plate() {
    for status in ["my-plate", "active", "waiting", "deferred"] {
        assert!(is_load_status(status));
        assert!(!is_outflow_status(status));
    }
    for status in ["submitted", "done", "dropped"] {
        assert!(is_outflow_status(status));
        assert!(!is_load_status(status));
    }
    assert!(!is_load_status("someday"));
}

#[test]
fn outflow_counts_only_a_change_of_status() {
    let mut done = project("research/a.md");
    done.status = "done".to_string();
    let active = project("research/a.md");
    assert!(counts_as_outflow(Some(&active), &done));
    assert!(!counts_as_outflow(Some(&done), &done));
    assert!(!counts_as_outflow(None, &done));
    assert!(!counts_as_outflow(Some(&done), &active));
}

#[test]
fn files_belong_to_configured_tracks_or_their_first_directory() {
    let tracks = tracks();
    assert_eq!(track_for_file(&tracks, "research/a.md").as_deref(), Some("research"));
    assert_eq!(track_for_file(&tracks, "research").as_deref(), Some("research"));
    assert_eq!(track_for_file(&tracks, "researchers/a.md").as_deref(), Some("researchers"));
    assert_eq!(track_for_file(&tracks, "other/deep/a.md").as_deref(), Some("other"));
    assert_eq!(track_for_file(&tracks, "/abs/a.md").as_deref(), Some("/"));
    assert_eq!(track_for_file(&tracks, ""), None);
}

#[test]
fn history_files_are_markdown_and_not_skipped() {
    let skip = vec!["README.md".to_string()];
    assert_eq!(project_file(&tracks(), &skip, "research/a.md").as_deref(), Some("research/a.md"));
    assert_eq!(project_file(&tracks(), &skip, "research/README.md"), None);
    assert_eq!(project_file(&tracks(), &skip, "research/a.txt"), None);
}

#[test]
fn name_status_lines_become_changes() {
    let skip = Vec::new();
    let added = parse_git_change(&tracks(), &skip, "A\tresearch/a.md").unwrap();
    assert_eq!(added.old_file, None);
    assert_eq!(added.new_file.as_deref(), Some("research/a.md"));
    let deleted = parse_git_change(&tracks(), &skip, "D\tresearch/a.md").unwrap();
    assert_eq!(deleted.old_file.as_deref(), Some("research/a.md"));
    assert_eq!(deleted.new_file, None);
    let renamed = parse_git_change(&tracks(), &skip, "R100\tresearch/a.md\tresearch/b.md").unwrap();
    assert_eq!(renamed.old_file.as_deref(), Some("research/a.md"));
    assert_eq!(renamed.new_file.as_deref(), Some("research/b.md"));
    let renamed_out = parse_git_change(&tracks(), &skip, "R100\tresearch/a.md\tresearch/b.txt").unwrap();
    assert_eq!(renamed_out.new_file, None);
    let copied = parse_git_change(&tracks(), &skip, "C75\tresearch/a.md\tresearch/c.md").unwrap();
    assert_eq!(copied.old_file, None);
    assert_eq!(copied.new_file.as_deref(), Some("research/c.md"));
    assert!(parse_git_change(&tracks(), &skip, "M\tresearch/a.txt").is_none());
    assert!(parse_git_change(&tracks(), &skip, "T\tresearch/a.md").is_none());
    assert!(parse_git_change(&tracks(), &skip, "").is_none());
}

#[test]
fn git_log_is_read_into_commits() {
    let log = "commit\tabc\t2026-05-01\n\nA\tresearch/a.md\nA\tnotes.txt\n\ncommit\tdef\t2026-05-03\n\nM\tresearch/a.md\n";
    let history = parse_git_log(&tracks(), &Vec::new(), log).unwrap();
    assert_eq!(history.len(), 2);
    assert_eq!(history[0].0.hash, "abc");
    assert_eq!(history[0].0.date, date("2026-05-01"));
    assert_eq!(history[0].1.len(), 1);
    assert_eq!(history[1].0.hash, "def");
    assert_eq!(history[1].1[0].new_file.as_deref(), Some("research/a.md"));
    assert!(parse_git_log(&tracks(), &Vec::new(), "commit\tabc\tnot-a-date\n").is_none());
    assert!(parse_git_log(&tracks(), &Vec::new(), "commit\tabc\n").is_none());
    assert_eq!(parse_git_log(&tracks(), &Vec::new(), "").unwrap().len(), 0);
}

#[test]
fn cat_file_batch_is_read_blob_by_blob() {
    let output = b"1111 blob 5\nhello\n2222 missing\n3333 tree 3\nabc\n";
    let blobs = parse_cat_file_batch(output, 3).unwrap();
    assert_eq!(blobs, vec![Some("hello".to_string()), None, None]);
    assert!(parse_cat_file_batch(b"1111 blob 50\nhello\n", 1).is_none());
    assert!(parse_cat_file_batch(b"1111 blob x\nhello\n", 1).is_none());
    assert!(parse_cat_file_batch(b"no newline", 1).is_none());
    assert_eq!(parse_cat_file_batch(b"", 0).unwrap().len(), 0);
}

#[test]
fn outflow_of_one_day_is_added_up_and_sorted() {
    let left = vec![outflow("research", "done", 1), outflow("personal", "dropped", 2)];
    let right = vec![outflow("research", "done", 3)];
    let merged = merge_outflow(&left, &right);
    assert_eq!(merged.len(), 2);
    assert_eq!((merged[0].track.as_str(), merged[0].status.as_str(), merged[0].count), ("research", "done", 4));
    assert_eq!((merged[1].track.as_str(), merged[1].status.as_str(), merged[1].count), ("personal", "dropped", 2));
}

#[test]
fn a_second_snapshot_of_a_day_replaces_the_first() {
    let mut snapshots = vec![snapshot("2026-05-01", vec![project("research/a.md")])];
    snapshots[0].outflow = vec![outflow("research", "done", 1)];
    let mut later = snapshot("2026-05-01", vec![project("research/b.md")]);
    later.outflow = vec![outflow("research", "done", 2)];
    push_or_replace_daily_snapshot(&mut snapshots, later);
    assert_eq!(snapshots.len(), 1);
    assert_eq!(snapshots[0].projects[0].file, "research/b.md");
    assert_eq!(snapshots[0].outflow[0].count, 3);
    push_or_replace_daily_snapshot(&mut snapshots, snapshot("2026-05-02", Vec::new()));
    assert_eq!(snapshots.len(), 2);
}

#[test]
fn repeated_days_with_the_same_state_collapse() {
    let a = snapshot("2026-05-01", vec![project("research/a.md")]);
    let b = snapshot("2026-05-01", vec![project("research/a.md")]);
    let c = snapshot("2026-05-02", vec![project("research/a.md")]);
    assert!(same_project_state(&a, &b));
    let kept = dedup_snapshots(vec![a, b, c]);
    assert_eq!(kept.len(), 2);
}

#[test]
fn long_histories_are_sampled_to_ninety_snapshots() {
    let start = date("2026-01-01");
    let snapshots: Vec<TimelineSnapshot> = (0..200)
        .map(|i| TimelineSnapshot { date: start + i, projects: Vec::new(), outflow: Vec::new() })
        .collect();
    let sampled = sample_snapshots(snapshots);
    assert!(sampled.len() <= 90);
    assert_eq!(sampled[0].date, start);
    assert_eq!(sampled[sampled.len() - 1].date, start + 199);
    assert_eq!(sampled[1].date, start + 3);
    let short: Vec<TimelineSnapshot> = (0..10)
        .map(|i| TimelineSnapshot { date: start + i, projects: Vec::new(), outflow: Vec::new() })
        .collect();
    assert_eq!(sample_snapshots(short).len(), 10);
}

fn parsed(text: &str, file: &str) -> Project {
    Project::from_text(text, "research", file, &now()).unwrap()
}

#[test]
fn current_projects_are_sorted_by_status_track_title_and_file() {
    let projects = vec![
        parsed("---\ntitle: B\nstatus: waiting\n---\n", "research/b.md"),
        parsed("---\ntitle: A\nstatus: active\n---\n", "research/a.md"),
        parsed("---\ntitle: C\nstatus: done\n---\n", "research/c.md"),
    ];
    let rows = timeline_projects(&projects);
    assert_eq!(rows.len(), 2);
    assert_eq!(rows[0].file, "research/a.md");
    assert_eq!(rows[1].file, "research/b.md");
}

#[test]
fn replaying_a_history_counts_outflow() {
    let log = "commit\tabc\t2026-05-01\nA\tresearch/a.md\ncommit\tdef\t2026-05-03\nM\tresearch/a.md\n";
    let history = parse_git_log(&tracks(), &Vec::new(), log).unwrap();
    let requests = blob_requests(&history);
    assert_eq!(
        requests,
        vec![
            ("abc".to_string(), "research/a.md".to_string()),
            ("def".to_string(), "research/a.md".to_string())
        ]
    );
    let blobs = vec![
        Some("---\ntitle: A\nstatus: active\n---\n".to_string()),
        Some("---\ntitle: A\nstatus: done\n---\n".to_string()),
    ];
    let revisions = revision_projects(&tracks(), &requests, Some(blobs), &now());
    assert_eq!(revisions.len(), 2);
    let snapshots = replay_history(&history, &requests, revisions);
    assert_eq!(snapshots.len(), 2);
    assert_eq!(snapshots[0].projects.len(), 1);
    assert!(snapshots[1].projects.is_empty());
    assert_eq!(snapshots[1].outflow.len(), 1);
    assert_eq!(snapshots[1].outflow[0].status, "done");
    assert_eq!(snapshots[1].outflow[0].count, 1);
}

#[test]
fn timeline_without_history_shows_today_only() {
    let projects = vec![parsed("---\ntitle: A\nstatus: active\n---\n", "research/a.md")];
    let response = assemble_timeline(&projects, date("2026-06-01"), 14, None, &Vec::new(), Vec::new());
    assert_eq!(response.source, TimelineSource::CurrentOnly);
    assert_eq!(response.stale_days, 14);
    assert_eq!(response.snapshots.len(), 1);
    assert_eq!(response.snapshots[0].projects.len(), 1);
}

#[test]
fn timeline_with_history_ends_today() {
    let log = "commit\tabc\t2026-05-01\nA\tresearch/a.md\n";
    let history = parse_git_log(&tracks(), &Vec::new(), log).unwrap();
    let requests = blob_requests(&history);
    let revisions = revision_projects(
        &tracks(),
        &requests,
        Some(vec![Some("---\ntitle: A\nstatus: active\n---\n".to_string())]),
        &now(),
    );
    let projects = vec![parsed("---\ntitle: A\nstatus: active\n---\n", "research/a.md")];
    let response = assemble_timeline(&projects, date("2026-06-01"), 14, Some(history), &requests, revisions);
    assert_eq!(response.source, TimelineSource::GitHistory);
    assert_eq!(response.snapshots.len(), 2);
    assert_eq!(response.snapshots[1].date, date("2026-06-01"));
    assert_eq!(response.snapshots[1].projects[0].age_days, Some(31));
}
