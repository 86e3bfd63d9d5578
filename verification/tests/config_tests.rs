use project_hq::config::{Config, ConfigFile, DEFAULT_STALE_DAYS};

fn strings(items: &[&str]) -> Vec<String> {
    items.iter().map(|item| item.to_string()).collect()
}

#[test]
fn default_statuses_include_my_plate_first() {
    let config = Config::with_defaults(strings(&["research"]));

    assert_eq!(config.statuses[0], "my-plate");
    assert!(config.statuses.contains(&"active".to_string()));
    assert_eq!(config.tracks, vec!["research"]);
    assert!(config.skip_files.is_empty());
    assert_eq!(config.stale_days, DEFAULT_STALE_DAYS);
    assert_eq!(config.default_owner, None);
    assert!(config.pulse_tracks.is_empty());
}

#[test]
fn config_file_settings_override_the_defaults() {
    let file = ConfigFile {
        tracks: Some(strings(&["work", "../outside", "personal", "linked"])),
        skip_tracks: None,
        skip_files: Some(strings(&["notes.md"])),
        stale_days: Some(14),
        statuses: None,
        default_owner: Some("yy".to_string()),
        pulse_tracks: Some(strings(&["work"])),
    };
    let inside = vec![true, true, true, false];

    let config = Config::from_file(file, strings(&["discovered"]), &inside);

    assert_eq!(config.tracks, vec!["work", "personal"]);
    assert_eq!(config.skip_files, vec!["notes.md"]);
    assert_eq!(config.stale_days, 14);
    assert_eq!(config.statuses[0], "my-plate");
    assert_eq!(config.default_owner.as_deref(), Some("yy"));
    assert_eq!(config.pulse_tracks, vec!["work"]);
}
