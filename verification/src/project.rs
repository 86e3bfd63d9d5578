//! A project read from its Markdown document: frontmatter fields, visibility
//! under deferral, and its checklist actions.

use vstd::prelude::*;

use crate::action::{parse_actions, project_actions, Action, ActionMode, ActionView};
use crate::dates::{deferral_visible, deferred_is_visible_at, parse_date, parsed_date, Instant};
use crate::frontmatter::{document_fields, parse_frontmatter, Fields};
use crate::mover::fields_mode;
use crate::project_file::{body_of, project_body};
use crate::text::{chars_of, eq, string_of, trim, trimmed};

verus! {

/// A project. `priority_field` is the raw `priority` value; its number (50
/// when it is absent or not a finite number) is read where floating point is
/// available. `waiting_since` is a day number (see `dates`).
#[derive(Debug)]
pub struct Project {
    pub title: String,
    pub track: String,
    pub status: String,
    pub owner: String,
    pub priority_field: Option<String>,
    pub waiting_on: String,
    pub waiting_since: Option<i32>,
    pub my_next: String,
    pub last: String,
    pub deadline: Option<String>,
    pub deferred_until: Option<String>,
    pub visible: bool,
    pub action_mode: ActionMode,
    pub actions: Vec<Action>,
    pub file: String,
}

pub open spec fn opt_view(o: Option<String>) -> Option<Seq<char>> {
    match o {
        Some(s) => Some(s@),
        None => None,
    }
}

pub open spec fn field(fields: Map<Seq<char>, Seq<char>>, key: Seq<char>) -> Option<Seq<char>> {
    if fields.contains_key(key) {
        Some(fields[key])
    } else {
        None
    }
}

pub open spec fn field_or_empty(fields: Map<Seq<char>, Seq<char>>, key: Seq<char>) -> Seq<char> {
    if fields.contains_key(key) {
        fields[key]
    } else {
        Seq::empty()
    }
}

/// Days from the project's `deferred_until` date to `today`, when it is a
/// date that has been reached.
pub open spec fn deferred_days(p: Project, today: i32) -> Option<int> {
    match p.deferred_until {
        Some(v) => match parsed_date(v@) {
            Some(d) => if today - d >= 0 {
                Some(today - d)
            } else {
                None
            },
            None => None,
        },
        None => None,
    }
}

/// A next step that is neither blank nor the `(fill in)` placeholder.
pub open spec fn real_next_step(next: Seq<char>) -> bool {
    trim(next).len() > 0 && trim(next) != "(fill in)"@
}

/// Projects in these statuses expose their actions.
pub open spec fn actionable_status(status: Seq<char>) -> bool {
    status == "active"@ || status == "my-plate"@
}

/// What a project read from `text` holds, given its fields.
pub open spec fn project_from(
    p: Project,
    fields: Map<Seq<char>, Seq<char>>,
    body: Seq<char>,
    track: Seq<char>,
    file: Seq<char>,
    now: Instant,
) -> bool {
    let my_next = field_or_empty(fields, "my_next"@);
    let visible = deferral_visible(field(fields, "deferred_until"@), now);
    let status = fields["status"@];
    &&& p.title@ == fields["title"@]
    &&& p.track@ == (if fields.contains_key("track"@) {
        fields["track"@]
    } else {
        track
    })
    &&& p.status@ == status
    &&& p.owner@ == field_or_empty(fields, "owner"@)
    &&& opt_view(p.priority_field) == field(fields, "priority"@)
    &&& p.waiting_on@ == field_or_empty(fields, "waiting_on"@)
    &&& p.waiting_since == match field(fields, "waiting_since"@) {
        Some(v) => match parsed_date(v) {
            Some(d) => Some(d as i32),
            None => None::<i32>,
        },
        None => None,
    }
    &&& p.my_next@ == my_next
    &&& p.last@ == field_or_empty(fields, "last"@)
    &&& opt_view(p.deadline) == field(fields, "deadline"@)
    &&& opt_view(p.deferred_until) == field(fields, "deferred_until"@)
    &&& p.visible == visible
    &&& p.action_mode == fields_mode(fields)
    &&& p.actions@.map_values(|a: Action| a@) == project_actions(
        body,
        if real_next_step(my_next) {
            Some(my_next)
        } else {
            None
        },
        fields_mode(fields),
        visible && actionable_status(status),
    )
    &&& p.file@ == file
}

fn text_of(fields: &Fields, key: &str) -> (r: Option<String>)
    ensures
        opt_view(r) == field(fields@, key@),
{
    fields.get(key)
}

fn text_or_default(fields: &Fields, key: &str) -> (r: String)
    ensures
        r@ == field_or_empty(fields@, key@),
{
    match fields.get(key) {
        Some(v) => v,
        None => string_of(&Vec::new()),
    }
}

impl Project {
    /// Parse a project from Markdown text plus its track and logical file
    /// path; `None` when the frontmatter lacks a title or a status.
    pub fn from_text(text: &str, track: &str, file: &str, now: &Instant) -> (r: Option<Self>)
        ensures
            r is Some <==> document_fields(text@) is Some,
            r matches Some(p) ==> project_from(
                p,
                document_fields(text@)->0,
                body_of(text@),
                track@,
                file@,
                *now,
            ),
    {
        let fields = parse_frontmatter(text)?;
        let body = project_body(text);
        proof {
            reveal_strlit("status");
            reveal_strlit("title");
        }
        let status = match fields.get("status") {
            Some(s) => s,
            None => {
                return None;
            },
        };
        let title = match fields.get("title") {
            Some(s) => s,
            None => {
                return None;
            },
        };
        let my_next = text_or_default(&fields, "my_next");
        let deferred_until = text_of(&fields, "deferred_until");
        let visible = match &deferred_until {
            Some(d) => deferred_is_visible_at(Some(d.as_str()), now),
            None => deferred_is_visible_at(None, now),
        };
        let am = fields.get("action_mode");
        let action_mode = match &am {
            Some(s) => ActionMode::from_field(Some(s.as_str())),
            None => ActionMode::from_field(None),
        };
        let st = chars_of(status.as_str());
        let actionable = visible && (eq(&st, &chars_of("active")) || eq(&st, &chars_of("my-plate")));
        let nt = trimmed(&chars_of(my_next.as_str()));
        let has_next = nt.len() > 0 && !eq(&nt, &chars_of("(fill in)"));
        let actions = if has_next {
            parse_actions(body.as_str(), Some(my_next.as_str()), action_mode, actionable)
        } else {
            parse_actions(body.as_str(), None, action_mode, actionable)
        };
        let track_field = fields.get("track");
        let track_value = match track_field {
            Some(t) => t,
            None => string_of(&chars_of(track)),
        };
        let waiting_since = match fields.get("waiting_since") {
            Some(v) => parse_date(v.as_str()),
            None => None,
        };
        Some(
            Project {
                title,
                track: track_value,
                status,
                owner: text_or_default(&fields, "owner"),
                priority_field: text_of(&fields, "priority"),
                waiting_on: text_or_default(&fields, "waiting_on"),
                waiting_since,
                my_next,
                last: text_or_default(&fields, "last"),
                deadline: text_of(&fields, "deadline"),
                deferred_until,
                visible,
                action_mode,
                actions,
                file: string_of(&chars_of(file)),
            },
        )
    }

    /// Days since `waiting_since`, counted to `today`; none before that date.
    pub fn waiting_days(&self, today: i32) -> (r: Option<i64>)
        ensures
            r == match self.waiting_since {
                Some(d) => if today - d >= 0 {
                    Some((today - d) as i64)
                } else {
                    None
                },
                None => None::<i64>,
            },
    {
        match self.waiting_since {
            Some(d) => {
                let diff: i64 = (today as i64) - (d as i64);
                if diff >= 0 {
                    Some(diff)
                } else {
                    None
                }
            },
            None => None,
        }
    }

    /// Days since the `deferred_until` date, counted to `today`; none before
    /// that date, without a deferral, or when the deferral is not a date.
    pub fn deferred_days_past(&self, today: i32) -> (r: Option<i64>)
        ensures
            match r {
                Some(n) => deferred_days(*self, today) == Some(n as int),
                None => deferred_days(*self, today) is None,
            },
    {
        match &self.deferred_until {
            Some(v) => match parse_date(v.as_str()) {
                Some(d) => {
                    let diff: i64 = (today as i64) - (d as i64);
                    if diff >= 0 {
                        Some(diff)
                    } else {
                        None
                    }
                },
                None => None,
            },
            None => None,
        }
    }

    /// Waiting and submitted projects wait on someone else.
    pub fn is_waiting_like(&self) -> (r: bool)
        ensures
            r == (self.status@ == "waiting"@ || self.status@ == "submitted"@),
    {
        let s = chars_of(self.status.as_str());
        eq(&s, &chars_of("waiting")) || eq(&s, &chars_of("submitted"))
    }

    /// The `my_next` step, trimmed, unless it is blank or the placeholder.
    pub fn actionable_next_step(&self) -> (r: Option<String>)
        ensures
            match r {
                Some(s) => real_next_step(self.my_next@) && s@ == trim(self.my_next@),
                None => !real_next_step(self.my_next@),
            },
    {
        let t = trimmed(&chars_of(self.my_next.as_str()));
        if t.len() > 0 && !eq(&t, &chars_of("(fill in)")) {
            Some(string_of(&t))
        } else {
            None
        }
    }
}

/// A project that is deferred to a moment not yet reached is invisible, and
/// none of its actions is available.
pub proof fn lemma_deferred_project_has_no_available_action(
    p: Project,
    fields: Map<Seq<char>, Seq<char>>,
    body: Seq<char>,
    track: Seq<char>,
    file: Seq<char>,
    now: Instant,
)
    requires
        project_from(p, fields, body, track, file, now),
        !deferral_visible(field(fields, "deferred_until"@), now),
    ensures
        !p.visible,
        forall|i: int| 0 <= i < p.actions@.len() ==> !(#[trigger] p.actions@[i]).available,
{
    let my_next = field_or_empty(fields, "my_next"@);
    let next = if real_next_step(my_next) {
        Some(my_next)
    } else {
        None
    };
    crate::action::lemma_inactive_project_has_no_available_action(body, next, fields_mode(fields));
    assert forall|i: int| 0 <= i < p.actions@.len() implies !(#[trigger] p.actions@[i]).available by {
        assert(p.actions@.map_values(|a: Action| a@)[i] == p.actions@[i]@);
    }
}

} // verus!
