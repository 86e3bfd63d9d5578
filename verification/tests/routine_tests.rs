use chrono::{DateTime, Datelike, NaiveDate};

use project_hq::routine::{
    advance_routine, advance_routine_at, append_history, due_until, next_scheduled, create_routine, defer_routine, routine_path_shape,
    validate_one_line, write_routine_text_if_unchanged, RepeatFrom, RepeatSpec, RepeatUnit, Routine, RoutineError, RoutineInput,
    RoutineTiming,
};
use project_hq::routine_time::RoutineInstant;

fn instant(value: &str) -> RoutineInstant {
    let at = DateTime::parse_from_rfc3339(value).unwrap();
    RoutineInstant {
        secs: at.timestamp(),
        nanos: at.timestamp_subsec_nanos(),
        offset: at.offset().local_minus_utc(),
        has_time: true,
    }
}

fn day(value: &str) -> RoutineInstant {
    RoutineInstant::from_date(
        NaiveDate::parse_from_str(value, "%Y-%m-%d")
            .unwrap()
            .num_days_from_ce(),
    )
}

fn water_heater() -> RoutineInput {
    RoutineInput {
        title: "Flush water heater".into(),
        area: "home".into(),
        repeat: "1 year".into(),
        repeat_from: RepeatFrom::Completion,
        available_before: "1 month".into(),
        next_due: day("2027-07-30"),
        body: "Vendor: Example Plumbing".into(),
    }
}

#[test]
fn repeat_intervals_parse() {
    assert_eq!(
        RepeatSpec::parse("1 year", false),
        Some(RepeatSpec { count: 1, unit: RepeatUnit::Year })
    );
    assert_eq!(
        RepeatSpec::parse(" 2  Hours ", false),
        Some(RepeatSpec { count: 2, unit: RepeatUnit::Hour })
    );
    assert_eq!(
        RepeatSpec::parse("+3 weeks", false),
        Some(RepeatSpec { count: 3, unit: RepeatUnit::Week })
    );
    assert_eq!(RepeatSpec::parse("0 days", false), None);
    assert_eq!(
        RepeatSpec::parse("0 days", true),
        Some(RepeatSpec { count: 0, unit: RepeatUnit::Day })
    );
    assert_eq!(RepeatSpec::parse("1 fortnight", false), None);
    assert_eq!(RepeatSpec::parse("1 day extra", false), None);
    assert_eq!(RepeatSpec::parse("4294967296 days", false), None);
    assert_eq!(RepeatSpec::parse("-1 days", true), None);
}

#[test]
fn repeat_from_values() {
    assert_eq!(RepeatFrom::parse(" completion "), Some(RepeatFrom::Completion));
    assert_eq!(RepeatFrom::parse("fixed"), Some(RepeatFrom::Schedule));
    assert_eq!(RepeatFrom::parse("never"), None);
    assert_eq!(RepeatFrom::Schedule.as_str(), "schedule");
}

#[test]
fn routine_paths_live_directly_in_the_routines_directory() {
    assert!(routine_path_shape("_routines/flush.md").is_ok());
    assert!(routine_path_shape("_routines/a/b.md").is_err());
    assert!(routine_path_shape("_routines/.md").is_ok());
    assert!(routine_path_shape("_routines/").is_err());
    assert!(routine_path_shape("projects/flush.md").is_err());
    assert!(routine_path_shape("_routines/flush.txt").is_err());
    assert!(validate_one_line("title", "Two\nlines").is_err());
}

#[test]
fn hourly_routine_is_due_for_one_interval_then_overdue() {
    let text = "---\ntype: routine\ntitle: Stand up\narea: health\nrepeat: 2 hours\nrepeat_from: completion\navailable_before: 0 hours\nnext_due: 2026-08-15T09:00:00-04:00\n---\n";
    let at = |moment: &str| {
        Routine::from_text_at(text, "_routines/stand-up.md", &instant(moment))
            .unwrap()
            .timing
    };
    assert_eq!(at("2026-08-15T08:59:00-04:00"), RoutineTiming::Upcoming);
    assert_eq!(at("2026-08-15T10:30:00-04:00"), RoutineTiming::Due);
    assert_eq!(at("2026-08-15T11:30:00-04:00"), RoutineTiming::Overdue);
}

#[test]
fn timestamp_deferral_becomes_available_at_the_exact_instant() {
    let text = "---\ntype: routine\ntitle: Stand up\narea: health\nrepeat: 1 day\nrepeat_from: completion\navailable_before: 1 day\nnext_due: 2027-07-02T09:00:00-04:00\ndeferred_until: 2027-07-01T15:00:00-04:00\n---\n";
    let deferred = Routine::from_text_at(text, "_routines/a.md", &instant("2027-07-01T14:59:59-04:00")).unwrap();
    let available = Routine::from_text_at(text, "_routines/a.md", &instant("2027-07-01T15:00:00-04:00")).unwrap();
    assert_eq!(deferred.timing, RoutineTiming::Deferred);
    assert_eq!(available.timing, RoutineTiming::Available);
}

#[test]
fn from_text_reports_fields_in_order() {
    let base = "---\ntype: routine\ntitle: T\nrepeat: 1 day\nrepeat_from: completion\nnext_due: 2027-07-02T09:00:00-04:00\n---\n";
    let now = instant("2027-07-01T12:00:00-04:00");
    assert!(Routine::from_text_at(base, "_routines/a.md", &now).is_ok());
    let error = Routine::from_text_at(&base.replace("type: routine", "type: project"), "_routines/a.md", &now).unwrap_err();
    assert_eq!(error.message(), "Invalid routine frontmatter in _routines/a.md");
    let error = Routine::from_text_at(&base.replace("repeat: 1 day", "repeat: often"), "_routines/a.md", &now).unwrap_err();
    assert_eq!(error.message(), "Invalid repeat: expected a number and day, week, month, or year");
    let error = Routine::from_text_at(&base.replace("repeat_from: completion", "repeat_from: later"), "_routines/a.md", &now).unwrap_err();
    assert_eq!(error.message(), "Invalid repeat_from: expected completion or schedule");
    let error = Routine::from_text_at(&base.replace("next_due: 2027-07-02T09:00:00-04:00", "next_due: soon"), "_routines/a.md", &now).unwrap_err();
    assert_eq!(error.message(), "Invalid next_due: expected YYYY-MM-DD or an RFC 3339 timestamp");
    let error = Routine::from_text_at(&base.replace("title: T\n", ""), "_routines/a.md", &now).unwrap_err();
    assert!(matches!(error, RoutineError::InvalidField { field: "title", message: "is required" }));
}

#[test]
fn completion_history_stays_inside_history_section() {
    let body = "## History\n\n- 2026-07-30 — completed\n\n## Manual\n\nKeep this.";
    let updated = append_history(body, "2027-07-30", true);
    let new_entry = updated.find("2027-07-30 — completed").unwrap();
    let manual = updated.find("## Manual").unwrap();
    assert!(new_entry < manual);
    assert_eq!(
        append_history("  ", "2027-07-30", false),
        "## History\n\n- 2027-07-30 — skipped\n"
    );
    assert_eq!(
        append_history("Notes", "2027-07-30", true),
        "Notes\n\n## History\n\n- 2027-07-30 — completed\n"
    );
}

#[test]
fn creating_and_deferring_routines() {
    let taken = vec!["flush-water-heater.md".to_string()];
    let (file, text) = create_routine(&water_heater(), &taken).unwrap();
    assert_eq!(file, "_routines/flush-water-heater-2.md");
    assert!(text.starts_with("---\ntype: routine\ntitle: Flush water heater\narea: home\nrepeat: 1 year\nrepeat_from: completion\navailable_before: 1 month\nnext_due: 2027-07-30\n---\n\nVendor: Example Plumbing\n"));
    let now = instant("2027-07-01T12:00:00-04:00");
    let routine = Routine::from_text_at(&text, &file, &now).unwrap();
    let deferred = defer_routine(&routine, "2027-07-15").unwrap();
    assert!(deferred.contains("deferred_until: 2027-07-15\n"));
    assert!(defer_routine(&routine, "someday").is_err());
}

#[test]
fn hourly_routine_advances_by_the_clock() {
    let text = "---\ntype: routine\ntitle: Stand up\narea: health\nrepeat: 2 hours\nrepeat_from: completion\navailable_before: 0 hours\nnext_due: 2026-08-15T09:00:00-04:00\n---\n";
    let now = instant("2026-08-15T09:12:30-04:00");
    let routine = Routine::from_text_at(text, "_routines/stand-up.md", &now).unwrap();
    let advanced = advance_routine(&routine, &now, true).unwrap();
    assert!(advanced.contains("next_due: 2026-08-15 11:12\n"));
    assert!(advanced.contains("last_completed: 2026-08-15 09:12\n"));
    assert!(advanced.contains("2026-08-15 09:12 — completed"));
}

#[test]
fn fixed_schedule_advances_to_one_future_occurrence_without_backlog() {
    let text = "---\ntype: routine\ntitle: Stretch\narea: health\nrepeat: 1 day\nrepeat_from: schedule\navailable_before: 0 days\nnext_due: 2026-07-27T09:00:00-04:00\n---\n";
    let now = instant("2026-07-30T12:00:00-04:00");
    let routine = Routine::from_text_at(text, "_routines/stretch.md", &now).unwrap();
    let advanced = advance_routine(&routine, &now, false).unwrap();
    assert!(advanced.contains("next_due: 2026-07-31 09:00\n"));
    assert!(!advanced.contains("last_completed"));
}

#[test]
fn completion_at_a_recorded_moment_counts_from_that_moment() {
    let text = "---\ntype: routine\ntitle: Water plants\narea: home\nrepeat: 3 days\nrepeat_from: completion\navailable_before: 1 day\nnext_due: 2026-08-01T08:00:00+00:00\nlast_completed: 2026-07-29 08:00\ndeferred_until: 2026-08-02\n---\n\nUse rain water.\n";
    let now = instant("2026-08-05T10:30:00+00:00");
    let routine = Routine::from_text_at(text, "_routines/water-plants.md", &now).unwrap();
    let stamp = instant("2026-08-05T10:30:00+00:00");

    let completed = advance_routine_at(&routine, &stamp, &now, true).unwrap();
    assert_eq!(
        completed,
        "---\ntype: routine\ntitle: Water plants\narea: home\nrepeat: 3 days\nrepeat_from: completion\navailable_before: 1 day\nnext_due: 2026-08-08 10:30\nlast_completed: 2026-08-05 10:30\n---\n\nUse rain water.\n\n## History\n\n- 2026-08-05 10:30 — completed\n"
    );

    let skipped = advance_routine_at(&routine, &stamp, &now, false).unwrap();
    assert!(skipped.contains("last_completed: 2026-07-29 08:00\n"));
    assert!(skipped.contains("- 2026-08-05 10:30 — skipped\n"));
    assert!(!skipped.contains("deferred_until"));
}

#[test]
fn fixed_schedule_keeps_its_cadence() {
    let weekly = RepeatSpec { count: 1, unit: RepeatUnit::Week };
    let monday = instant("2026-08-03T09:00:00+00:00");
    let thursday_two_weeks_later = instant("2026-08-20T12:00:00+00:00");

    let next = next_scheduled(weekly, &monday, &thursday_two_weeks_later).unwrap();
    assert_eq!(next, instant("2026-08-24T09:00:00+00:00"));

    let before = instant("2026-07-01T00:00:00+00:00");
    let first = next_scheduled(weekly, &monday, &before).unwrap();
    assert_eq!(first, instant("2026-08-10T09:00:00+00:00"));
}

#[test]
fn invalid_repeat_is_refused_before_advancing() {
    let mut routine = Routine::from_text_at(
        "---\ntype: routine\ntitle: Stretch\narea: health\nrepeat: 1 day\nrepeat_from: schedule\navailable_before: 0 days\nnext_due: 2026-07-27\n---\n",
        "_routines/stretch.md",
        &instant("2026-07-30T12:00:00-04:00"),
    )
    .unwrap();
    routine.repeat = "often".to_string();
    let now = instant("2026-07-30T12:00:00-04:00");
    assert!(matches!(
        advance_routine(&routine, &now, true),
        Err(RoutineError::InvalidField { field: "repeat", .. })
    ));
}

#[test]
fn a_date_becomes_the_start_of_that_local_day() {
    for text in ["2026-03-08", "2026-08-01", "2026-11-01", "1999-12-31"] {
        let number = NaiveDate::parse_from_str(text, "%Y-%m-%d").unwrap().num_days_from_ce();
        let moment = RoutineInstant::from_date(number);
        assert!(!moment.has_time);
        assert_eq!(moment.nanos, 0);
        assert_eq!(moment.secs + i64::from(moment.offset), (i64::from(number) - 719_163) * 86_400);
        assert_eq!(RoutineInstant::date(&moment), i64::from(number));
        assert_eq!(moment.display(), text);
    }
}

#[test]
fn moments_read_by_their_form() {
    let number = NaiveDate::parse_from_str("2026-08-15", "%Y-%m-%d").unwrap().num_days_from_ce();
    let date = RoutineInstant::parse("  2026-08-15 ").unwrap();
    assert!(!date.has_time);
    assert_eq!(date.nanos, 0);
    assert_eq!(date.secs + i64::from(date.offset), (i64::from(number) - 719_163) * 86_400);

    let stamp = RoutineInstant::parse("2026-08-15T09:00:00-04:00").unwrap();
    assert_eq!(stamp, instant("2026-08-15T09:00:00-04:00"));
    assert_eq!(stamp.offset, -4 * 3600);

    for text in ["2026-08-15 09:30", "2026-08-15 09:30:00", "2026-08-15T09:30:00", "2026-08-15T09:30"] {
        let clock = RoutineInstant::parse(text).unwrap();
        assert!(clock.has_time);
        assert_eq!(clock.nanos, 0);
        assert_eq!(
            clock.secs + i64::from(clock.offset),
            (i64::from(number) - 719_163) * 86_400 + 9 * 3600 + 30 * 60
        );
    }
    assert_eq!(RoutineInstant::parse("soon"), None);
    assert_eq!(RoutineInstant::parse(""), None);
    assert_eq!(RoutineInstant::parse("2026-02-30"), None);
}

#[test]
fn a_dated_occurrence_is_due_until_the_next_day_begins() {
    let repeat = RepeatSpec::parse("1 week", false).unwrap();
    let end = due_until(&day("2026-08-15"), repeat).unwrap();
    assert!(!end.has_time);
    assert_eq!(end.nanos, 0);
    let next = NaiveDate::parse_from_str("2026-08-16", "%Y-%m-%d").unwrap().num_days_from_ce();
    assert_eq!(RoutineInstant::date(&end), i64::from(next));
    assert_eq!(end.secs + i64::from(end.offset), (i64::from(next) - 719_163) * 86_400);

    let hourly = RepeatSpec::parse("2 hours", false).unwrap();
    let end = due_until(&instant("2026-08-15T09:00:00-04:00"), hourly).unwrap();
    assert_eq!(end, instant("2026-08-15T11:00:00-04:00"));
}

#[test]
fn from_text_reports_moment_fields() {
    let base = "---\ntype: routine\ntitle: T\nrepeat: 1 day\nrepeat_from: completion\nnext_due: 2027-07-02\n---\n";
    let now = instant("2027-07-01T12:00:00-04:00");
    let routine = Routine::from_text_at(base, "_routines/a.md", &now).unwrap();
    assert_eq!(routine.next_due, day("2027-07-02"));
    assert_eq!(routine.available_on, day("2027-07-02"));
    assert_eq!(routine.last_completed, None);

    let with_last = base.replace("next_due:", "last_completed: 2027-07-01\nnext_due:");
    let routine = Routine::from_text_at(&with_last, "_routines/a.md", &now).unwrap();
    assert_eq!(routine.last_completed, Some(day("2027-07-01")));

    let error = Routine::from_text_at(&base.replace("next_due:", "last_completed: whenever\nnext_due:"), "_routines/a.md", &now).unwrap_err();
    assert_eq!(error.message(), "Invalid last_completed: expected YYYY-MM-DD or an RFC 3339 timestamp");
    let error = Routine::from_text_at(&base.replace("next_due:", "deferred_until: someday\nnext_due:"), "_routines/a.md", &now).unwrap_err();
    assert_eq!(error.message(), "Invalid deferred_until: expected YYYY-MM-DD or an RFC 3339 timestamp");
    let error = Routine::from_text_at(&base.replace("next_due:", "available_before: 300000 years\nnext_due:"), "_routines/a.md", &now).unwrap_err();
    assert_eq!(error.message(), "Invalid available_before: date is out of range");
    let error = Routine::from_text_at(&base.replace("next_due: 2027-07-02", "next_due: 2027-13-02"), "_routines/a.md", &now).unwrap_err();
    assert_eq!(error.message(), "Invalid next_due: expected YYYY-MM-DD or an RFC 3339 timestamp");
}

#[test]
fn a_routine_file_is_rewritten_only_with_a_readable_routine() {
    let now = instant("2027-07-01T12:00:00-04:00");
    let old = "---\ntype: routine\ntitle: T\nrepeat: 1 day\nrepeat_from: completion\nnext_due: 2027-07-02\n---\n";
    let new = old.replace("title: T", "title: Renamed");
    assert!(write_routine_text_if_unchanged("_routines/a.md", old, old, &new, &now).is_ok());
    let error = write_routine_text_if_unchanged("_routines/a.md", old, old, &new.replace("next_due: 2027-07-02\n", ""), &now).unwrap_err();
    assert_eq!(error.message(), "Invalid next_due: is required");
    let error = write_routine_text_if_unchanged("_routines/a.md", old, "changed", &new, &now).unwrap_err();
    assert!(matches!(error, RoutineError::Write { .. }));
    let error = write_routine_text_if_unchanged("notes/a.md", old, old, &new, &now).unwrap_err();
    assert!(matches!(error, RoutineError::InvalidPath(_)));
    let error = write_routine_text_if_unchanged("_routines/a.md", old, old, "no frontmatter", &now).unwrap_err();
    assert!(matches!(error, RoutineError::Malformed(_)));
}
