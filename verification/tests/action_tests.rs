use project_hq::action::{
    normalize_context, normalize_person, normalize_tag, parse_actions, ActionMode, ActionSource,
};

#[test]
fn parses_action_mode_values_and_aliases() {
    assert_eq!(ActionMode::parse("serial"), Some(ActionMode::Serial));
    assert_eq!(ActionMode::parse("parallel"), Some(ActionMode::Parallel));
    assert_eq!(ActionMode::parse("sequential"), Some(ActionMode::Serial));
    assert_eq!(ActionMode::parse("single"), Some(ActionMode::Parallel));
    assert_eq!(
        ActionMode::parse("single-actions"),
        Some(ActionMode::Parallel)
    );
    assert_eq!(ActionMode::parse("unknown"), None);
    assert_eq!(
        ActionMode::from_field(Some("unknown")),
        ActionMode::Parallel
    );
    assert_eq!(ActionMode::Serial.as_str(), "serial");
    assert_eq!(ActionMode::Parallel.as_str(), "parallel");
}

#[test]
fn normalizes_context_and_person_queries() {
    assert_eq!(normalize_context("Phone"), Some("phone".to_string()));
    assert_eq!(normalize_context("@PHONE"), Some("phone".to_string()));
    assert_eq!(normalize_person("Alex"), Some("alex".to_string()));
    assert_eq!(normalize_person("&ALEX"), Some("alex".to_string()));
    assert_eq!(
        normalize_person("&youngho-eom"),
        Some("youngho-eom".to_string())
    );
    assert_eq!(normalize_context("@"), None);
    assert_eq!(normalize_person("&"), None);
    assert_eq!(normalize_context("two words"), None);
    assert_eq!(normalize_person("two words"), None);

    // The original API remains a context alias.
    assert_eq!(normalize_tag("Phone"), Some("phone".to_string()));
    assert_eq!(normalize_tag("@PHONE"), Some("phone".to_string()));
}

#[test]
fn parses_contexts_people_and_mode_directives() {
    let actions = parse_actions(
        "- [ ] Call &Mom @Phone @quick\n  * [X] Sent mail to &Alex @email\n- Note\n",
        None,
        ActionMode::Parallel,
        true,
    );

    assert_eq!(actions.len(), 2);
    assert_eq!(actions[0].text, "Call &Mom @Phone @quick");
    assert_eq!(actions[0].contexts, vec!["phone", "quick"]);
    assert_eq!(actions[0].people, vec!["mom"]);
    assert_eq!(actions[1].contexts, vec!["email"]);
    assert_eq!(actions[1].people, vec!["alex"]);
    assert!(actions[0].available);
    assert_eq!(actions[0].line, Some(0));
    assert!(actions[1].completed);
    assert!(!actions[1].available);
}

#[test]
fn does_not_treat_email_addresses_as_contexts_or_people() {
    let actions = parse_actions(
        "- [ ] Email person@example.com @computer\n",
        None,
        ActionMode::Parallel,
        true,
    );

    assert_eq!(actions[0].contexts, vec!["computer"]);
    assert!(actions[0].people.is_empty());
}

#[test]
fn strips_sentence_punctuation_from_tokens() {
    let actions = parse_actions(
        "- [ ] Call &Alex, then work @home.\n",
        None,
        ActionMode::Parallel,
        true,
    );

    assert_eq!(actions[0].people, vec!["alex"]);
    assert_eq!(actions[0].contexts, vec!["home"]);
}

#[test]
fn ignores_malformed_or_empty_checkboxes() {
    let actions = parse_actions(
        "-[ ] Missing bullet space\n- [ ]Missing text space\n- [ ]   \n",
        None,
        ActionMode::Parallel,
        true,
    );

    assert!(actions.is_empty());
}

#[test]
fn ignores_checkbox_examples_inside_fenced_code_blocks() {
    let actions = parse_actions(
        "```markdown\n- [ ] Example @phone\n```\n- [ ] Real @computer\n\
         ~~~\n- [ ] Another example @errand\n~~~\n",
        None,
        ActionMode::Parallel,
        true,
    );

    assert_eq!(actions.len(), 1);
    assert_eq!(actions[0].text, "Real @computer");
    assert_eq!(actions[0].line, Some(3));
}

#[test]
fn serial_mode_exposes_only_first_incomplete_checklist_action() {
    let actions = parse_actions(
        "- [x] Done\n- [ ] First @computer\n- [ ] Later @phone\n",
        None,
        ActionMode::Serial,
        true,
    );

    assert!(!actions[0].available);
    assert!(actions[1].available);
    assert!(!actions[2].available);
}

#[test]
fn parallel_mode_exposes_every_incomplete_action() {
    let actions = parse_actions("- [ ] One\n- [ ] Two\n", None, ActionMode::Parallel, true);
    assert!(actions.iter().all(|action| action.available));
}

#[test]
fn serial_directive_exposes_only_the_first_action_in_its_branch() {
    let actions = parse_actions(
        "- Calls !serial\n  - [x] Mom\n  - [ ] Electrician @phone\n  - [ ] Plumber @phone\n\
         - [ ] Buy filter @errand\n",
        None,
        ActionMode::Parallel,
        true,
    );

    assert_eq!(actions.len(), 4);
    assert!(!actions[0].available);
    assert!(actions[1].available);
    assert!(!actions[2].available);
    assert!(actions[3].available);
}

#[test]
fn parallel_directive_can_override_an_inherited_serial_mode() {
    let actions = parse_actions(
        "- Shopping !parallel\n  - [ ] Buy filter\n  - [ ] Buy batteries\n\
         - [ ] Later top-level action\n",
        None,
        ActionMode::Serial,
        true,
    );

    assert_eq!(actions.len(), 3);
    assert!(actions[0].available);
    assert!(actions[1].available);
    assert!(!actions[2].available);
}

#[test]
fn checkbox_with_children_is_a_group_until_its_children_are_complete() {
    let actions = parse_actions(
        "- [ ] Replace lights !serial\n  - [x] Buy fixtures\n  - [ ] Call electrician\n\
         - [ ] Other project\n",
        None,
        ActionMode::Parallel,
        true,
    );

    assert_eq!(actions.len(), 4);
    assert!(!actions[0].available);
    assert!(!actions[1].available);
    assert!(actions[2].available);
    assert!(actions[3].available);
}

#[test]
fn legacy_at_mode_markers_remain_readable_but_are_not_contexts() {
    let actions = parse_actions(
        "- Calls @serial\n  - [ ] First @phone\n  - [ ] Later @phone\n",
        None,
        ActionMode::Parallel,
        true,
    );

    assert!(actions[0].available);
    assert!(!actions[1].available);
    assert!(!actions[0].contexts.contains(&"serial".to_string()));
}

#[test]
fn inactive_project_has_no_available_actions() {
    let actions = parse_actions(
        "- [ ] Body @phone\n",
        Some("Legacy @computer"),
        ActionMode::Parallel,
        false,
    );

    assert!(actions.iter().all(|action| !action.available));
}

#[test]
fn my_next_remains_a_compatibility_action() {
    let actions = parse_actions("", Some("Call Julie @phone"), ActionMode::Parallel, true);

    assert_eq!(actions.len(), 1);
    assert_eq!(actions[0].source, ActionSource::MyNext);
    assert_eq!(actions[0].contexts, vec!["phone"]);
    assert!(actions[0].people.is_empty());
    assert!(actions[0].available);
    assert_eq!(actions[0].line, None);
}


#[test]
fn serial_mode_exposes_a_single_action_in_a_nested_checklist() {
    let actions = parse_actions(
        "- [ ] Plan\n  - [x] Outline\n  - [ ] Draft\n  - [ ] Review\n- [ ] Ship\n",
        None,
        ActionMode::Serial,
        true,
    );

    let available: Vec<usize> = actions
        .iter()
        .enumerate()
        .filter(|(_, action)| action.available)
        .map(|(index, _)| index)
        .collect();
    assert_eq!(available, vec![2]);
    assert_eq!(actions[2].text, "Draft");
}

#[test]
fn a_flat_serial_checklist_offers_only_its_first_unchecked_box() {
    let body = "- [x] Draft\n- [ ] Review\n- [ ] Publish\n";
    let serial = parse_actions(body, None, ActionMode::Serial, true);
    let flags: Vec<(bool, bool)> = serial.iter().map(|a| (a.completed, a.available)).collect();
    assert_eq!(flags, vec![(true, false), (false, true), (false, false)]);
    let parallel = parse_actions(body, None, ActionMode::Parallel, true);
    let flags: Vec<(bool, bool)> = parallel.iter().map(|a| (a.completed, a.available)).collect();
    assert_eq!(flags, vec![(true, false), (false, true), (false, true)]);
}

#[test]
fn a_nested_checklist_with_an_unchecked_box_offers_an_action() {
    let body = "- [x] Done\n- [ ] Group !parallel\n  - [x] Part one\n  - [ ] Part two\n  - [ ] Part three\n- [ ] Later\n";
    let serial = parse_actions(body, None, ActionMode::Serial, true);
    let available: Vec<&str> = serial.iter().filter(|a| a.available).map(|a| a.text.as_str()).collect();
    assert_eq!(available, vec!["Part two", "Part three"]);
}

#[test]
fn a_nested_serial_checklist_offers_exactly_one_action() {
    let body = "- [ ] Group\n  - [x] First\n  - [ ] Second\n  - [ ] Third\n- [ ] Later\n";
    let actions = parse_actions(body, None, ActionMode::Serial, true);
    let available: Vec<&str> = actions.iter().filter(|a| a.available).map(|a| a.text.as_str()).collect();
    assert_eq!(available, vec!["Second"]);
}
