//! Status moves, deferrals, metadata edits and reordering of projects, as
//! rewrites of a project document's frontmatter.

use vstd::prelude::*;

use crate::action::{
    mode_named, parse_actions, project_actions, strings_view, Action, ActionMode, ActionSource,
    ActionView,
};
use crate::dates::{valid_deferral, valid_deferred_until};
use crate::frontmatter::{document_fields, parse_frontmatter, split_document, SplitFailure};
use crate::naming::{decimal, decimal_chars};
use crate::project_file::{
    any_match, assembled, body_of, field_line, formatted_value, project_body, replaced_lines,
    split_error, upserted, without_field, FrontmatterLines, ProjectDocument, ProjectFileError,
};
use crate::text::{
    chars_of, eq, insert_sorted, join, lines, string_of, strictly_sorted, trim, trimmed,
};

verus! {

/// A priority as the frontmatter writes it (the number's decimal form), and
/// whether it is the default priority.
#[derive(Debug)]
pub struct PriorityValue {
    pub text: String,
    pub is_default: bool,
}

pub open spec fn priority_view(p: Option<&PriorityValue>) -> Option<(Seq<char>, bool)> {
    match p {
        Some(v) => Some((v.text@, v.is_default)),
        None => None,
    }
}

/// A status must not be blank.
pub fn validate_status(file: &str, status: &str) -> (r: Result<(), ProjectFileError>)
    ensures
        r is Ok <==> trim(status@).len() > 0,
        r matches Err(e) ==> e matches ProjectFileError::InvalidStatus { file: f } && f@ == file@,
{
    if trimmed(&chars_of(status)).len() == 0 {
        return Err(ProjectFileError::InvalidStatus { file: string_of(&chars_of(file)) });
    }
    Ok(())
}

/// The action mode a frontmatter asks for; parallel when absent or unknown.
pub open spec fn fields_mode(fields: Map<Seq<char>, Seq<char>>) -> ActionMode {
    if fields.contains_key("action_mode"@) {
        match mode_named(fields["action_mode"@]) {
            Some(m) => m,
            None => ActionMode::Parallel,
        }
    } else {
        ActionMode::Parallel
    }
}

/// The people of an action that is an available, unfinished checklist item.
pub open spec fn qualifying_people(a: ActionView) -> Set<Seq<char>> {
    if a.source == ActionSource::Checklist && !a.completed && a.available {
        a.people.to_set()
    } else {
        Set::empty()
    }
}

/// Everyone named by the available, unfinished checklist actions.
pub open spec fn waiting_people(acts: Seq<ActionView>) -> Set<Seq<char>>
    decreases acts.len(),
{
    if acts.len() == 0 {
        Set::empty()
    } else {
        waiting_people(acts.drop_last()).union(qualifying_people(acts.last()))
    }
}

pub open spec fn is_singleton(s: Set<Seq<char>>) -> bool {
    exists|p: Seq<char>| s == set![p]
}

/// A `waiting_on` value was given and is not blank.
pub open spec fn waiting_given(given: Option<Seq<char>>) -> bool {
    given matches Some(g) && trim(g).len() > 0
}

/// Who a project entering `waiting` waits on: the one person of its
/// available actions when there is exactly one, else the value given, trimmed.
pub open spec fn chosen_waiting(people: Set<Seq<char>>, given: Option<Seq<char>>) -> Seq<char> {
    if is_singleton(people) {
        people.choose()
    } else {
        match given {
            Some(g) => trim(g),
            None => Seq::empty(),
        }
    }
}

/// The frontmatter lines after a move: the new status, the priority when
/// one is given (only replaced when it is the default, else inserted after
/// the status), and `waiting_on` with `waiting_since` set when entering
/// waiting or both removed when leaving it.
pub open spec fn moved_lines(
    ls: Seq<Seq<char>>,
    to_status: Seq<char>,
    priority: Option<(Seq<char>, bool)>,
    waiting: Option<Seq<char>>,
    leaving: bool,
    today: Seq<char>,
) -> Seq<Seq<char>> {
    let l1 = replaced_lines(ls, "status"@, field_line("status"@, to_status));
    let l2 = match priority {
        Some((t, d)) => if d {
            replaced_lines(l1, "priority"@, field_line("priority"@, t))
        } else {
            upserted(l1, "priority"@, field_line("priority"@, t), "status"@)
        },
        None => l1,
    };
    match waiting {
        Some(w) => upserted(
            upserted(l2, "waiting_on"@, field_line("waiting_on"@, formatted_value(w)), "status"@),
            "waiting_since"@,
            field_line("waiting_since"@, today),
            "waiting_on"@,
        ),
        None => if leaving {
            without_field(without_field(l2, "waiting_on"@), "waiting_since"@)
        } else {
            l2
        },
    }
}

/// The sorted, distinct people of the available, unfinished checklist actions.
fn collect_waiting_people(acts: &Vec<Action>) -> (r: Vec<Vec<char>>)
    ensures
        strictly_sorted(r@.map_values(|e: Vec<char>| e@)),
        r@.map_values(|e: Vec<char>| e@).to_set() == waiting_people(
            acts@.map_values(|a: Action| a@),
        ),
{
    let ghost views = acts@.map_values(|a: Action| a@);
    let mut people: Vec<Vec<char>> = Vec::new();
    assert(people@.map_values(|e: Vec<char>| e@).to_set() =~= Set::<Seq<char>>::empty());
    let mut i: usize = 0;
    while i < acts.len()
        invariant
            i <= acts.len(),
            views == acts@.map_values(|a: Action| a@),
            strictly_sorted(people@.map_values(|e: Vec<char>| e@)),
            people@.map_values(|e: Vec<char>| e@).to_set() == waiting_people(
                views.subrange(0, i as int),
            ),
        decreases acts.len() - i,
    {
        let a = &acts[i];
        let ghost base = waiting_people(views.subrange(0, i as int));
        assert(views.subrange(0, i + 1).drop_last() =~= views.subrange(0, i as int));
        assert(views.subrange(0, i + 1).last() == a@);
        if a.source == ActionSource::Checklist && !a.completed && a.available {
            let ghost pv = strings_view(a.people@);
            let mut j: usize = 0;
            assert(pv.subrange(0, 0).to_set() =~= Set::<Seq<char>>::empty());
            assert(base.union(Set::<Seq<char>>::empty()) =~= base);
            while j < a.people.len()
                invariant
                    j <= a.people.len(),
                    pv == strings_view(a.people@),
                    strictly_sorted(people@.map_values(|e: Vec<char>| e@)),
                    people@.map_values(|e: Vec<char>| e@).to_set() == base.union(
                        pv.subrange(0, j as int).to_set(),
                    ),
                decreases a.people.len() - j,
            {
                let ghost before = people@.map_values(|e: Vec<char>| e@).to_set();
                let c = chars_of(a.people[j].as_str());
                insert_sorted(&mut people, c);
                proof {
                    assert(pv.subrange(0, j + 1) =~= pv.subrange(0, j as int).push(c@));
                    assert(pv.subrange(0, j + 1).to_set() =~= pv.subrange(0, j as int).to_set().insert(
                        c@,
                    )) by {
                        pv.subrange(0, j as int).lemma_push_to_set_commute(c@);
                    }
                    assert(base.union(pv.subrange(0, j + 1).to_set()) =~= before.insert(c@));
                }
                j = j + 1;
            }
            assert(pv.subrange(0, a.people.len() as int) =~= pv);
            assert(qualifying_people(a@) == pv.to_set());
        } else {
            assert(qualifying_people(a@) =~= Set::<Seq<char>>::empty());
            assert(base.union(Set::<Seq<char>>::empty()) =~= base);
        }
        i = i + 1;
    }
    assert(views.subrange(0, acts.len() as int) =~= views);
    people
}

proof fn lemma_sorted_singleton(s: Seq<Seq<char>>)
    requires
        strictly_sorted(s),
    ensures
        is_singleton(s.to_set()) <==> s.len() == 1,
        s.len() == 1 ==> s.to_set() == set![s[0]],
{
    assert forall|i: int, j: int| 0 <= i < s.len() && 0 <= j < s.len() && i != j implies s[i]
        != s[j] by {
        if i < j {
            assert(crate::text::lex_lt(s[i], s[j]));
            crate::text::lemma_lex_irreflexive(s[i]);
        } else {
            assert(crate::text::lex_lt(s[j], s[i]));
            crate::text::lemma_lex_irreflexive(s[j]);
        }
    }
    assert(s.no_duplicates());
    s.unique_seq_to_set();
    if s.len() == 1 {
        assert(s.to_set() =~= set![s[0]]) by {
            assert(s.contains(s[0]));
        }
    }
    if is_singleton(s.to_set()) {
        let p = choose|p: Seq<char>| s.to_set() == set![p];
        assert(set![p].len() == 1) by {
            assert(set![p] =~= Set::<Seq<char>>::empty().insert(p));
        }
    }
}

/// Move a project to another status. A project entering `waiting` records
/// who it waits on (the one person of its available actions, else the value
/// given) and since `today`; one leaving `waiting` drops both fields. A
/// priority, when given, is written too. Returns the new document text.
pub fn move_project(
    file: &str,
    text: &str,
    to_status: &str,
    priority: Option<&PriorityValue>,
    waiting_on: Option<&str>,
    today: &str,
) -> (r: Result<String, ProjectFileError>)
    ensures
        trim(to_status@).len() == 0 ==> (r matches Err(ProjectFileError::InvalidStatus { file: f })
            && f@ == file@),
        trim(to_status@).len() > 0 ==> match split_document(text@) {
            Err(failure) => (r matches Err(e) && split_error(file@, failure, e)),
            Ok((fm, bs)) => match document_fields(text@) {
                None => (r matches Err(ProjectFileError::Frontmatter { file: f, reason }) && f@
                    == file@ && reason == "Invalid frontmatter or missing title/status"),
                Some(fields) => {
                    let given = match waiting_on {
                        Some(g) => Some(g@),
                        None => None,
                    };
                    let entering = fields["status"@] != "waiting"@ && to_status@ == "waiting"@;
                    let leaving = fields["status"@] == "waiting"@ && to_status@ != "waiting"@;
                    let people = waiting_people(
                        project_actions(body_of(text@), None, fields_mode(fields), true),
                    );
                    if entering && !is_singleton(people) && !waiting_given(given) {
                        r matches Err(ProjectFileError::WaitingOnRequired { file: f, people: ps })
                            && f@ == file@ && strictly_sorted(strings_view(ps@)) && strings_view(
                            ps@,
                        ).to_set() == people
                    } else if !any_match(lines(fm), "status"@) {
                        r matches Err(ProjectFileError::MissingField { file: f, field }) && f@
                            == file@ && field == "status"
                    } else {
                        r matches Ok(t) && t@ == assembled(
                            join(
                                moved_lines(
                                    lines(fm),
                                    to_status@,
                                    priority_view(priority),
                                    if entering {
                                        Some(chosen_waiting(people, given))
                                    } else {
                                        None
                                    },
                                    leaving,
                                    today@,
                                ),
                                seq!['\n'],
                            ),
                            bs,
                        )
                    }
                },
            },
        },
{
    validate_status(file, to_status)?;
    let doc = ProjectDocument::parse(file, text)?;
    let fields = match parse_frontmatter(text) {
        Some(f) => f,
        None => {
            return Err(
                ProjectFileError::Frontmatter {
                    file: string_of(&chars_of(file)),
                    reason: "Invalid frontmatter or missing title/status",
                },
            );
        },
    };
    proof {
        reveal_strlit("status");
    }
    let current = match fields.get("status") {
        Some(s) => s,
        None => {
            return Err(ProjectFileError::missing_field(file, "status"));
        },
    };
    let cur = chars_of(current.as_str());
    let to = chars_of(to_status);
    let w = chars_of("waiting");
    let entering = !eq(&cur, &w) && eq(&to, &w);
    let leaving = eq(&cur, &w) && !eq(&to, &w);
    let ghost given = match waiting_on {
        Some(g) => Some(g@),
        None => None,
    };
    let ghost fields_map = fields@;
    let ghost people_set = waiting_people(
        project_actions(body_of(text@), None, fields_mode(fields_map), true),
    );
    let mut chosen: Option<String> = None;
    if entering {
        let am = fields.get("action_mode");
        let mode = match &am {
            Some(s) => ActionMode::from_field(Some(s.as_str())),
            None => ActionMode::from_field(None),
        };
        let body = project_body(text);
        let acts = parse_actions(body.as_str(), None, mode, true);
        let people = collect_waiting_people(&acts);
        proof {
            lemma_sorted_singleton(people@.map_values(|e: Vec<char>| e@));
        }
        assert(people@.map_values(|e: Vec<char>| e@).to_set() == people_set);
        if people.len() == 1 {
            chosen = Some(string_of(&people[0]));
            assert(people@.map_values(|e: Vec<char>| e@)[0] == people@[0]@);
            proof {
                let x = people@[0]@;
                assert(people_set == set![x]);
                assert(people_set.contains(x));
                assert(people_set.contains(people_set.choose()));
                assert(chosen_waiting(people_set, given) == x);
            }
        } else {
            let t = match waiting_on {
                Some(g) => trimmed(&chars_of(g)),
                None => Vec::new(),
            };
            if t.len() == 0 {
                let mut names: Vec<String> = Vec::new();
                let mut k: usize = 0;
                while k < people.len()
                    invariant
                        k <= people.len(),
                        strings_view(names@) == people@.map_values(|e: Vec<char>| e@).subrange(
                            0,
                            k as int,
                        ),
                    decreases people.len() - k,
                {
                    let ghost before = strings_view(names@);
                    let s = string_of(&people[k]);
                    names.push(s);
                    assert(strings_view(names@) =~= before.push(s@));
                    assert(people@.map_values(|e: Vec<char>| e@).subrange(0, k + 1)
                        =~= people@.map_values(|e: Vec<char>| e@).subrange(0, k as int).push(
                        s@,
                    ));
                    k = k + 1;
                }
                assert(people@.map_values(|e: Vec<char>| e@).subrange(0, people.len() as int)
                    =~= people@.map_values(|e: Vec<char>| e@));
                return Err(
                    ProjectFileError::WaitingOnRequired {
                        file: string_of(&chars_of(file)),
                        people: names,
                    },
                );
            }
            chosen = Some(string_of(&t));
            assert(chosen_waiting(people_set, given) == t@);
        }
    }
    let mut fl = doc.frontmatter_lines();
    if !fl.replace("status", to_status) {
        return Err(ProjectFileError::missing_field(file, "status"));
    }
    match priority {
        Some(p) => {
            if p.is_default {
                fl.replace("priority", p.text.as_str());
            } else {
                fl.upsert_after("priority", p.text.as_str(), "status");
            }
        },
        None => {},
    }
    match &chosen {
        Some(wo) => {
            fl.upsert_string_after("waiting_on", wo.as_str(), "status");
            fl.upsert_after("waiting_since", today, "waiting_on");
        },
        None => {
            if leaving {
                fl.remove("waiting_on");
                fl.remove("waiting_since");
            }
        },
    }
    let ghost wv = match &chosen {
        Some(x) => x@,
        None => Seq::<char>::empty(),
    };
    let r = doc.with_frontmatter(fl);
    proof {
        reveal_strlit("waiting");
        assert(entering ==> chosen is Some);
        assert(entering ==> wv == chosen_waiting(people_set, given));
        assert(!(entering && !is_singleton(people_set) && !waiting_given(given)));
        assert(r@ == assembled(
            join(
                moved_lines(
                    crate::text::lines(doc@.frontmatter),
                    to_status@,
                    priority_view(priority),
                    if entering {
                        Some(chosen_waiting(people_set, given))
                    } else {
                        None
                    },
                    leaving,
                    today@,
                ),
                seq!['\n'],
            ),
            doc@.body_section,
        ));
    }
    Ok(r)
}

/// Defer a project until a date or timestamp: `deferred_until` is set (or
/// inserted after the status). Returns the new document text.
pub fn defer_project(file: &str, text: &str, until: &str) -> (r: Result<String, ProjectFileError>)
    ensures
        !valid_deferral(until@) ==> (r matches Err(ProjectFileError::InvalidDate { file: f, field })
            && f@ == file@ && field == "deferred_until"),
        valid_deferral(until@) ==> match split_document(text@) {
            Err(failure) => (r matches Err(e) && split_error(file@, failure, e)),
            Ok((fm, bs)) => (r matches Ok(t) && t@ == assembled(
                join(
                    upserted(
                        lines(fm),
                        "deferred_until"@,
                        field_line("deferred_until"@, until@),
                        "status"@,
                    ),
                    seq!['\n'],
                ),
                bs,
            )),
        },
{
    if !valid_deferred_until(until) {
        return Err(
            ProjectFileError::InvalidDate {
                file: string_of(&chars_of(file)),
                field: "deferred_until",
            },
        );
    }
    let doc = ProjectDocument::parse(file, text)?;
    let mut fl = doc.frontmatter_lines();
    fl.upsert_after("deferred_until", until, "status");
    Ok(doc.with_frontmatter(fl))
}

/// The metadata a project form submits. `priority` is the decimal form of
/// the priority number and `priority_is_finite` whether that number is finite.
#[derive(Debug)]
pub struct MetadataOptions {
    pub file: String,
    pub title: String,
    pub status: String,
    pub priority: String,
    pub priority_is_finite: bool,
    pub owner: String,
    pub my_next: String,
    pub waiting_on: String,
    pub waiting_since: String,
    pub deadline: String,
    pub deferred_until: String,
    pub action_mode: String,
}

/// One optional field: removed when its value is empty, else set (quoted
/// when needed) or inserted after `anchor`.
pub open spec fn set_or_remove(ls: Seq<Seq<char>>, field: Seq<char>, value: Seq<char>, anchor: Seq<char>) -> Seq<Seq<char>> {
    if value.len() == 0 {
        without_field(ls, field)
    } else {
        upserted(ls, field, field_line(field, formatted_value(value)), anchor)
    }
}

/// The frontmatter lines after a metadata edit.
pub open spec fn metadata_lines(
    ls: Seq<Seq<char>>,
    title: Seq<char>,
    status: Seq<char>,
    priority: Seq<char>,
    owner: Seq<char>,
    my_next: Seq<char>,
    waiting_on: Seq<char>,
    waiting_since: Seq<char>,
    deadline: Seq<char>,
    deferred_until: Seq<char>,
    action_mode: Seq<char>,
) -> Seq<Seq<char>> {
    let l1 = replaced_lines(ls, "title"@, field_line("title"@, formatted_value(title)));
    let l2 = replaced_lines(l1, "status"@, field_line("status"@, formatted_value(status)));
    let l3 = upserted(l2, "priority"@, field_line("priority"@, priority), "status"@);
    let l4 = set_or_remove(l3, "owner"@, owner, "title"@);
    let l5 = set_or_remove(l4, "my_next"@, my_next, "priority"@);
    let l6 = set_or_remove(l5, "waiting_on"@, waiting_on, "status"@);
    let l7 = set_or_remove(l6, "waiting_since"@, waiting_since, "waiting_on"@);
    let l8 = set_or_remove(l7, "deadline"@, deadline, "priority"@);
    let l9 = set_or_remove(l8, "deferred_until"@, deferred_until, "status"@);
    set_or_remove(l9, "action_mode"@, action_mode, "status"@)
}

pub open spec fn mode_text(m: ActionMode) -> Seq<char> {
    match m {
        ActionMode::Serial => "serial"@,
        ActionMode::Parallel => "parallel"@,
    }
}

fn set_or_remove_field(fl: &mut FrontmatterLines, field: &str, value: &str, anchor: &str)
    ensures
        final(fl)@ == set_or_remove(old(fl)@, field@, value@, anchor@),
{
    if chars_of(value).len() == 0 {
        fl.remove(field);
    } else {
        fl.upsert_string_after(field, value, anchor);
    }
}

/// Write a project's metadata from a form: title and status are required
/// and must already be in the frontmatter; optional fields left empty are
/// removed. Returns the new document text.
pub fn update_project_metadata(text: &str, options: &MetadataOptions) -> (r: Result<
    String,
    ProjectFileError,
>)
    ensures
        ({
            let o = options;
            let file = o.file@;
            if trim(o.title@).len() == 0 {
                r matches Err(ProjectFileError::MissingField { file: f, field }) && f@ == file
                    && field == "title"
            } else if trim(o.status@).len() == 0 {
                r matches Err(ProjectFileError::InvalidStatus { file: f }) && f@ == file
            } else if !o.priority_is_finite {
                r matches Err(ProjectFileError::Frontmatter { file: f, reason }) && f@ == file
                    && reason == "Invalid priority"
            } else if o.deferred_until@.len() > 0 && !valid_deferral(o.deferred_until@) {
                r matches Err(ProjectFileError::InvalidDate { file: f, field }) && f@ == file
                    && field == "deferred_until"
            } else if mode_named(o.action_mode@) is None {
                r matches Err(ProjectFileError::Frontmatter { file: f, reason }) && f@ == file
                    && reason == "Invalid action_mode"
            } else {
                match split_document(text@) {
                    Err(failure) => r matches Err(e) && split_error(file, failure, e),
                    Ok((fm, bs)) => if !any_match(lines(fm), "title"@) {
                        r matches Err(ProjectFileError::MissingField { file: f, field }) && f@
                            == file && field == "title"
                    } else if !any_match(
                        replaced_lines(
                            lines(fm),
                            "title"@,
                            field_line("title"@, formatted_value(o.title@)),
                        ),
                        "status"@,
                    ) {
                        r matches Err(ProjectFileError::MissingField { file: f, field }) && f@
                            == file && field == "status"
                    } else {
                        r matches Ok(t) && t@ == assembled(
                            join(
                                metadata_lines(
                                    lines(fm),
                                    o.title@,
                                    o.status@,
                                    o.priority@,
                                    o.owner@,
                                    o.my_next@,
                                    o.waiting_on@,
                                    o.waiting_since@,
                                    o.deadline@,
                                    o.deferred_until@,
                                    mode_text(mode_named(o.action_mode@)->0),
                                ),
                                seq!['\n'],
                            ),
                            bs,
                        )
                    },
                }
            }
        }),
{
    let file = options.file.as_str();
    if trimmed(&chars_of(options.title.as_str())).len() == 0 {
        return Err(ProjectFileError::missing_field(file, "title"));
    }
    validate_status(file, options.status.as_str())?;
    if !options.priority_is_finite {
        return Err(
            ProjectFileError::Frontmatter { file: string_of(&chars_of(file)), reason: "Invalid priority" },
        );
    }
    let du = options.deferred_until.as_str();
    if chars_of(du).len() > 0 && !valid_deferred_until(du) {
        return Err(
            ProjectFileError::InvalidDate {
                file: string_of(&chars_of(file)),
                field: "deferred_until",
            },
        );
    }
    let mode = match ActionMode::parse(options.action_mode.as_str()) {
        Some(m) => m,
        None => {
            return Err(
                ProjectFileError::Frontmatter {
                    file: string_of(&chars_of(file)),
                    reason: "Invalid action_mode",
                },
            );
        },
    };
    let doc = ProjectDocument::parse(file, text)?;
    let mut fl = doc.frontmatter_lines();
    if !fl.replace_string("title", options.title.as_str()) {
        return Err(ProjectFileError::missing_field(file, "title"));
    }
    if !fl.replace_string("status", options.status.as_str()) {
        return Err(ProjectFileError::missing_field(file, "status"));
    }
    fl.upsert_after("priority", options.priority.as_str(), "status");
    set_or_remove_field(&mut fl, "owner", options.owner.as_str(), "title");
    set_or_remove_field(&mut fl, "my_next", options.my_next.as_str(), "priority");
    set_or_remove_field(&mut fl, "waiting_on", options.waiting_on.as_str(), "status");
    set_or_remove_field(&mut fl, "waiting_since", options.waiting_since.as_str(), "waiting_on");
    set_or_remove_field(&mut fl, "deadline", options.deadline.as_str(), "priority");
    set_or_remove_field(&mut fl, "deferred_until", du, "status");
    set_or_remove_field(&mut fl, "action_mode", mode.as_str(), "status");
    proof {
        reveal_strlit("serial");
        reveal_strlit("parallel");
    }
    Ok(doc.with_frontmatter(fl))
}

/// The first document at or after `k` that does not split, or the number of documents.
pub open spec fn first_unsplit(ts: Seq<Seq<char>>, k: int) -> int
    decreases ts.len() - k,
{
    if k < 0 || k >= ts.len() {
        ts.len() as int
    } else if split_document(ts[k]) is Err {
        k
    } else {
        first_unsplit(ts, k + 1)
    }
}

/// The priorities a reordering gives: ten times the number of projects from
/// each one to the end, so the first project ranks highest.
pub open spec fn reordered_priority(n: int, i: int) -> Seq<char> {
    decimal(((n - i) * 10) as nat)
}

/// Give an ordered list of projects descending priorities (the first gets
/// the highest): `texts[i]` is the document of `files[i]`. Returns the new
/// document texts, in order; the first document without frontmatter is an
/// error and nothing is rewritten.
pub fn reorder_projects(files: &Vec<String>, texts: &Vec<String>) -> (r: Result<
    Vec<String>,
    ProjectFileError,
>)
    requires
        texts@.len() == files@.len(),
        files@.len() * 10 <= 0x20000000000000,
    ensures
        match r {
            Ok(out) => out@.len() == texts@.len() && forall|i: int|
                0 <= i < texts@.len() ==> match split_document(#[trigger] texts@[i]@) {
                    Ok((fm, bs)) => out@[i]@ == assembled(
                        join(
                            upserted(
                                lines(fm),
                                "priority"@,
                                field_line("priority"@, reordered_priority(texts@.len() as int, i)),
                                "status"@,
                            ),
                            seq!['\n'],
                        ),
                        bs,
                    ),
                    Err(_) => false,
                },
            Err(e) => {
                let k = first_unsplit(texts@.map_values(|t: String| t@), 0);
                k < texts@.len() && match split_document(texts@[k]@) {
                    Err(failure) => split_error(files@[k]@, failure, e),
                    Ok(_) => false,
                }
            },
        },
{
    let n = texts.len();
    let mut i: usize = 0;
    while i < n
        invariant
            i <= n,
            n == texts@.len(),
            texts@.len() == files@.len(),
            forall|j: int| 0 <= j < i ==> (#[trigger] split_document(texts@[j]@)) is Ok,
            first_unsplit(texts@.map_values(|t: String| t@), 0) == first_unsplit(
                texts@.map_values(|t: String| t@),
                i as int,
            ),
        decreases n - i,
    {
        assert(texts@.map_values(|t: String| t@)[i as int] == texts@[i as int]@);
        match ProjectDocument::parse(files[i].as_str(), texts[i].as_str()) {
            Ok(_) => {},
            Err(e) => {
                return Err(e);
            },
        }
        i = i + 1;
    }
    let mut out: Vec<String> = Vec::new();
    let mut k: usize = 0;
    assert(n == texts@.len());
    while k < n
        invariant
            k <= n,
            n == texts@.len(),
            texts@.len() == files@.len(),
            n * 10 <= 0x20000000000000,
            forall|j: int| 0 <= j < n ==> (#[trigger] split_document(texts@[j]@)) is Ok,
            out@.len() == k,
            forall|i: int|
                0 <= i < k ==> match split_document(#[trigger] texts@[i]@) {
                    Ok((fm, bs)) => out@[i]@ == assembled(
                        join(
                            upserted(
                                lines(fm),
                                "priority"@,
                                field_line("priority"@, reordered_priority(n as int, i)),
                                "status"@,
                            ),
                            seq!['\n'],
                        ),
                        bs,
                    ),
                    Err(_) => false,
                },
        decreases n - k,
    {
        assert(split_document(texts@[k as int]@) is Ok);
        let doc = match ProjectDocument::parse(files[k].as_str(), texts[k].as_str()) {
            Ok(d) => d,
            Err(e) => {
                return Err(e);
            },
        };
        let p: u128 = ((n - k) as u128) * 10;
        let pt = string_of(&decimal_chars(p));
        let mut fl = doc.frontmatter_lines();
        fl.upsert_after("priority", pt.as_str(), "status");
        let t = doc.with_frontmatter(fl);
        out.push(t);
        k = k + 1;
    }
    Ok(out)
}

} // verus!
