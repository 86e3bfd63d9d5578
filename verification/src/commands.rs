//! The decisions behind the `new` command: which owner, slug, file name and
//! frontmatter a new project gets, and the errors it can give.

use vstd::prelude::*;

use crate::naming::{
    candidate_name, check_project_path, first_free, check_track_name, new_frontmatter, new_project_text,
    relative_markdown_path, resolve_filename, slug_of, slugify, valid_name, validate_name,
};
use crate::project_file::{
    assembled, cat2, cat3, debug_quoted, debug_text, message_of, normalized_body, ProjectFileError,
};
use crate::text::{append, chars_of, eq, join, join_with, string_of, trim, trimmed};

verus! {

/// The owner used when neither the command nor the configuration names one.
pub open spec fn fallback_owner() -> Seq<char> {
    "yy"@
}

#[derive(Debug)]
pub enum NewProjectError {
    Validation(String),
    UnknownTrack { track: String, known: String },
    ProjectFile(ProjectFileError),
}

impl NewProjectError {
    /// The human-readable message of the error.
    pub fn message(&self) -> (r: String)
        ensures
            self matches NewProjectError::Validation(m) ==> r@ == m@,
            self matches NewProjectError::UnknownTrack { track, known } ==> r@ == "Unknown track "@
                + debug_quoted(track@) + ". Existing tracks: "@ + known@
                + ". Pass --new-track to create it."@,
            self matches NewProjectError::ProjectFile(e) ==> !(e is Read || e is Write) ==> r@
                == message_of(&e),
    {
        match self {
            NewProjectError::Validation(m) => string_of(&chars_of(m.as_str())),
            NewProjectError::UnknownTrack { track, known } => {
                let q = debug_text(track.as_str());
                let mut r = chars_of("Unknown track ");
                append(&mut r, &chars_of(q.as_str()));
                append(&mut r, &chars_of(". Existing tracks: "));
                append(&mut r, &chars_of(known.as_str()));
                append(&mut r, &chars_of(". Pass --new-track to create it."));
                string_of(&r)
            },
            NewProjectError::ProjectFile(e) => e.message(),
        }
    }

    /// A project-file error, as the `new` command reports it.
    pub fn from_project_file(e: ProjectFileError) -> (r: Self)
        ensures
            r == NewProjectError::ProjectFile(e),
    {
        NewProjectError::ProjectFile(e)
    }
}

/// The options of the `new` command. `priority` is the decimal form of the
/// priority number and `priority_is_finite` whether that number is finite.
#[derive(Debug)]
pub struct NewOptions {
    pub track: String,
    pub title: String,
    pub owner: Option<String>,
    pub slug: Option<String>,
    pub status: String,
    pub priority: Option<String>,
    pub priority_is_finite: bool,
    pub deadline: Option<String>,
    pub my_next: Option<String>,
    pub action_mode: Option<String>,
    pub edit: bool,
    pub new_track: bool,
}

/// What the `new` command is to do: create the track directory first when
/// asked, then write `text` to `track/filename` (failing if it exists).
#[derive(Debug)]
pub struct NewProjectPlan {
    pub create_track: bool,
    pub track: String,
    pub filename: String,
    pub relative: String,
    pub text: String,
}

/// What the file system says about the target track.
#[derive(Debug)]
pub struct TrackState {
    /// The track is an existing directory.
    pub is_dir: bool,
    /// Something exists at the track's path.
    pub exists: bool,
}

pub open spec fn opt_view(o: Option<String>) -> Option<Seq<char>> {
    match o {
        Some(s) => Some(s@),
        None => None,
    }
}

/// The owner of a new project: the one given, else the configured default,
/// else `yy`.
pub open spec fn chosen_owner(given: Option<Seq<char>>, default_owner: Option<Seq<char>>) -> Seq<char> {
    match given {
        Some(o) => o,
        None => match default_owner {
            Some(d) => d,
            None => fallback_owner(),
        },
    }
}

/// The slug of a new project: the one given, else the slug of the title.
pub open spec fn chosen_slug(given: Option<Seq<char>>, title: Seq<char>) -> Seq<char> {
    match given {
        Some(s) => s,
        None => slug_of(title),
    }
}

/// An optional field is written when it is not blank.
pub open spec fn optional_field(key: Seq<char>, value: Option<Seq<char>>) -> Seq<(Seq<char>, Seq<char>)> {
    match value {
        Some(v) => if trim(v).len() > 0 {
            seq![(key, v)]
        } else {
            Seq::empty()
        },
        None => Seq::empty(),
    }
}

/// The frontmatter fields of a new project, in order.
pub open spec fn new_fields(
    title: Seq<char>,
    status: Seq<char>,
    priority: Option<Seq<char>>,
    deadline: Option<Seq<char>>,
    my_next: Option<Seq<char>>,
    action_mode: Option<Seq<char>>,
) -> Seq<(Seq<char>, Seq<char>)> {
    seq![("title"@, title), ("status"@, status)] + (match priority {
        Some(p) => seq![("priority"@, p)],
        None => Seq::empty(),
    }) + optional_field("deadline"@, deadline) + optional_field("my_next"@, my_next)
        + optional_field("action_mode"@, action_mode)
}

/// The names of the configured tracks, joined for the unknown-track error.
pub open spec fn known_tracks(tracks: Seq<Seq<char>>) -> Seq<char> {
    if tracks.len() == 0 {
        "(no tracks discovered)"@
    } else {
        join(tracks, ", "@)
    }
}

fn push_field(fields: &mut Vec<(String, String)>, key: &str, value: &String)
    ensures
        final(fields)@.map_values(|f: (String, String)| (f.0@, f.1@)) == old(fields)@.map_values(
            |f: (String, String)| (f.0@, f.1@),
        ).push((key@, value@)),
{
    let ghost before = fields@.map_values(|f: (String, String)| (f.0@, f.1@));
    let k = string_of(&chars_of(key));
    let v = string_of(&chars_of(value.as_str()));
    fields.push((k, v));
    assert(fields@.map_values(|f: (String, String)| (f.0@, f.1@)) =~= before.push((key@, value@)));
}


/// Decide what `new` does. `tracks` are the configured tracks, `state`
/// describes the target track on disk, and `taken` holds the file names
/// present in the configured tracks and the target track.
pub fn plan_new(
    opts: &NewOptions,
    default_owner: Option<&str>,
    tracks: &Vec<String>,
    state: &TrackState,
    taken: &Vec<String>,
) -> (r: Result<NewProjectPlan, NewProjectError>)
    ensures
        ({
            let title = trim(opts.title@);
            let owner = chosen_owner(
                opt_view(opts.owner),
                match default_owner {
                    Some(d) => Some(d@),
                    None => None,
                },
            );
            let slug = chosen_slug(opt_view(opts.slug), title);
            if title.len() == 0 {
                r matches Err(NewProjectError::Validation(m)) && m@ == "--title cannot be empty"@
            } else if !valid_name(owner) {
                r matches Err(NewProjectError::ProjectFile(ProjectFileError::InvalidName { kind, name }))
                    && kind == "owner" && name@ == owner
            } else if opts.slug is None && slug.len() == 0 {
                r matches Err(NewProjectError::Validation(m)) && m@ == "Could not derive a slug from title "@
                    + debug_quoted(title) + "; pass --slug explicitly"@
            } else if !valid_name(slug) {
                r matches Err(NewProjectError::ProjectFile(ProjectFileError::InvalidName { kind, name }))
                    && kind == "slug" && name@ == slug
            } else if trim(opts.status@).len() == 0 {
                r matches Err(NewProjectError::Validation(m)) && m@ == "--status cannot be empty"@
            } else if opts.priority is Some && !opts.priority_is_finite {
                r matches Err(NewProjectError::Validation(m)) && m@
                    == "--priority must be a finite number"@
            } else if !state.is_dir && !opts.new_track {
                r matches Err(NewProjectError::UnknownTrack { track, known }) && track@
                    == opts.track@ && known@ == known_tracks(tracks@.map_values(|t: String| t@))
            } else if !state.is_dir && !(valid_name(opts.track@) && !(opts.track@.len() > 0 && (
            opts.track@[0] == '.' || opts.track@[0] == '_'))) {
                r matches Err(NewProjectError::ProjectFile(ProjectFileError::InvalidName { kind, name }))
                    && kind == "track name" && name@ == opts.track@
            } else if !state.is_dir && state.exists {
                r matches Err(NewProjectError::ProjectFile(ProjectFileError::AlreadyExists { kind, name }))
                    && kind == "track" && name@ == opts.track@
            } else {
                match r {
                    Ok(plan) => {
                        &&& plan.create_track == !state.is_dir
                        &&& plan.track@ == opts.track@
                        &&& plan.relative@ == opts.track@ + seq!['/'] + plan.filename@
                        &&& relative_markdown_path(plan.relative@)
                        &&& first_free(
                            taken@.map_values(|t: String| t@),
                            owner + seq!['-'] + slug,
                            plan.filename@,
                        )
                        &&& plan.text@ == assembled(
                            new_frontmatter(
                                new_fields(
                                    title,
                                    opts.status@,
                                    opt_view(opts.priority),
                                    opt_view(opts.deadline),
                                    opt_view(opts.my_next),
                                    opt_view(opts.action_mode),
                                ),
                            ),
                            normalized_body(Seq::empty()),
                        )
                    },
                    Err(e) => e matches NewProjectError::ProjectFile(ProjectFileError::InvalidPath(p))
                        && p@ == opts.track@ + seq!['/'] + p@.subrange(
                        opts.track@.len() + 1int,
                        p@.len() as int,
                    ) && !relative_markdown_path(p@),
                }
            }
        }),
{
    let tc = trimmed(&chars_of(opts.title.as_str()));
    if tc.len() == 0 {
        return Err(NewProjectError::Validation(string_of(&chars_of("--title cannot be empty"))));
    }
    let title = string_of(&tc);
    let owner = match &opts.owner {
        Some(o) => string_of(&chars_of(o.as_str())),
        None => match default_owner {
            Some(d) => string_of(&chars_of(d)),
            None => string_of(&chars_of("yy")),
        },
    };
    proof {
        reveal_strlit("yy");
    }
    match validate_name("owner", owner.as_str()) {
        Ok(()) => {},
        Err(e) => {
            return Err(NewProjectError::ProjectFile(e));
        },
    }
    let slug = match &opts.slug {
        Some(s) => string_of(&chars_of(s.as_str())),
        None => {
            let derived = slugify(title.as_str());
            if chars_of(derived.as_str()).len() == 0 {
                let q = debug_text(title.as_str());
                let mut m = chars_of("Could not derive a slug from title ");
                append(&mut m, &chars_of(q.as_str()));
                append(&mut m, &chars_of("; pass --slug explicitly"));
                return Err(NewProjectError::Validation(string_of(&m)));
            }
            derived
        },
    };
    match validate_name("slug", slug.as_str()) {
        Ok(()) => {},
        Err(e) => {
            return Err(NewProjectError::ProjectFile(e));
        },
    }
    if trimmed(&chars_of(opts.status.as_str())).len() == 0 {
        return Err(NewProjectError::Validation(string_of(&chars_of("--status cannot be empty"))));
    }
    if opts.priority.is_some() && !opts.priority_is_finite {
        return Err(
            NewProjectError::Validation(string_of(&chars_of("--priority must be a finite number"))),
        );
    }
    let track = string_of(&chars_of(opts.track.as_str()));
    if !state.is_dir {
        if !opts.new_track {
            let known = if tracks.len() == 0 {
                string_of(&chars_of("(no tracks discovered)"))
            } else {
                let mut ts: Vec<Vec<char>> = Vec::new();
                let mut i: usize = 0;
                while i < tracks.len()
                    invariant
                        i <= tracks.len(),
                        ts@.map_values(|t: Vec<char>| t@) == tracks@.map_values(|t: String| t@).subrange(
                            0,
                            i as int,
                        ),
                    decreases tracks.len() - i,
                {
                    let ghost before = ts@.map_values(|t: Vec<char>| t@);
                    let c = chars_of(tracks[i].as_str());
                    ts.push(c);
                    assert(ts@.map_values(|t: Vec<char>| t@) =~= before.push(c@));
                    assert(tracks@.map_values(|t: String| t@).subrange(0, i + 1)
                        =~= tracks@.map_values(|t: String| t@).subrange(0, i as int).push(c@));
                    i = i + 1;
                }
                assert(tracks@.map_values(|t: String| t@).subrange(0, tracks.len() as int)
                    =~= tracks@.map_values(|t: String| t@));
                string_of(&join_with(&ts, &chars_of(", ")))
            };
            return Err(NewProjectError::UnknownTrack { track, known });
        }
        match check_track_name(track.as_str()) {
            Ok(()) => {},
            Err(e) => {
                return Err(NewProjectError::ProjectFile(e));
            },
        }
        if state.exists {
            return Err(
                NewProjectError::ProjectFile(
                    ProjectFileError::AlreadyExists { kind: "track", name: track },
                ),
            );
        }
    }
    let filename = resolve_filename(taken, owner.as_str(), slug.as_str());
    let mut rel = chars_of(track.as_str());
    rel.push('/');
    append(&mut rel, &chars_of(filename.as_str()));
    let relative = string_of(&rel);
    match check_project_path(relative.as_str()) {
        Ok(()) => {},
        Err(e) => {
            proof {
                assert(rel@.subrange(opts.track@.len() + 1int, rel@.len() as int) =~= filename@);
            }
            return Err(NewProjectError::ProjectFile(e));
        },
    }
    let mut fields: Vec<(String, String)> = Vec::new();
    push_field(&mut fields, "title", &title);
    push_field(&mut fields, "status", &opts.status);
    match &opts.priority {
        Some(p) => push_field(&mut fields, "priority", p),
        None => {},
    }
    match &opts.deadline {
        Some(d) => if trimmed(&chars_of(d.as_str())).len() > 0 {
            push_field(&mut fields, "deadline", d);
        },
        None => {},
    }
    match &opts.my_next {
        Some(n) => if trimmed(&chars_of(n.as_str())).len() > 0 {
            push_field(&mut fields, "my_next", n);
        },
        None => {},
    }
    match &opts.action_mode {
        Some(m) => if trimmed(&chars_of(m.as_str())).len() > 0 {
            push_field(&mut fields, "action_mode", m);
        },
        None => {},
    }
    let text = new_project_text(&fields, string_of(&Vec::new()).as_str());
    proof {
        assert(fields@.map_values(|f: (String, String)| (f.0@, f.1@)) =~= new_fields(
            title@,
            opts.status@,
            opt_view(opts.priority),
            opt_view(opts.deadline),
            opt_view(opts.my_next),
            opt_view(opts.action_mode),
        ));
        assert(crate::naming::fields_view(fields@) =~= fields@.map_values(
            |f: (String, String)| (f.0@, f.1@),
        ));
    }
    Ok(NewProjectPlan { create_track: !state.is_dir, track, filename, relative, text })
}

/// The configured keys first, then each other key present, once.
pub open spec fn ordered_key_list(configured: Seq<Seq<char>>, present: Seq<Seq<char>>) -> Seq<Seq<char>>
    decreases present.len(),
{
    if present.len() == 0 {
        configured
    } else {
        let prev = ordered_key_list(configured, present.drop_last());
        if prev.contains(present.last()) {
            prev
        } else {
            prev.push(present.last())
        }
    }
}

/// Order group keys: the configured order first, then any other key present,
/// each once, in the order given.
pub fn ordered_keys(configured: &Vec<String>, present: &Vec<String>) -> (r: Vec<String>)
    ensures
        r@.map_values(|s: String| s@) == ordered_key_list(
            configured@.map_values(|s: String| s@),
            present@.map_values(|s: String| s@),
        ),
{
    let ghost cv = configured@.map_values(|s: String| s@);
    let ghost pv = present@.map_values(|s: String| s@);
    let mut out: Vec<Vec<char>> = Vec::new();
    let mut i: usize = 0;
    while i < configured.len()
        invariant
            i <= configured.len(),
            cv == configured@.map_values(|s: String| s@),
            out@.map_values(|s: Vec<char>| s@) == cv.subrange(0, i as int),
        decreases configured.len() - i,
    {
        let ghost before = out@.map_values(|s: Vec<char>| s@);
        let c = chars_of(configured[i].as_str());
        out.push(c);
        assert(out@.map_values(|s: Vec<char>| s@) =~= before.push(c@));
        assert(cv.subrange(0, i + 1) =~= cv.subrange(0, i as int).push(c@));
        i = i + 1;
    }
    assert(cv.subrange(0, configured.len() as int) =~= cv);
    assert(pv.subrange(0, 0) =~= Seq::<Seq<char>>::empty());
    let mut j: usize = 0;
    while j < present.len()
        invariant
            j <= present.len(),
            pv == present@.map_values(|s: String| s@),
            out@.map_values(|s: Vec<char>| s@) == ordered_key_list(cv, pv.subrange(0, j as int)),
        decreases present.len() - j,
    {
        let ghost before = out@.map_values(|s: Vec<char>| s@);
        assert(pv.subrange(0, j + 1).drop_last() =~= pv.subrange(0, j as int));
        let c = chars_of(present[j].as_str());
        let mut found = false;
        let mut k: usize = 0;
        while k < out.len()
            invariant
                k <= out.len(),
                before == out@.map_values(|s: Vec<char>| s@),
                !found ==> forall|m: int| 0 <= m < k ==> before[m] != c@,
                found ==> before.contains(c@),
            decreases out.len() - k,
        {
            if eq(&out[k], &c) {
                assert(before[k as int] == c@);
                found = true;
            }
            k = k + 1;
        }
        if !found {
            out.push(c);
            assert(out@.map_values(|s: Vec<char>| s@) =~= before.push(c@));
        }
        j = j + 1;
    }
    assert(pv.subrange(0, present.len() as int) =~= pv);
    let mut r: Vec<String> = Vec::new();
    let ghost ov = out@.map_values(|s: Vec<char>| s@);
    let mut m: usize = 0;
    while m < out.len()
        invariant
            m <= out.len(),
            ov == out@.map_values(|s: Vec<char>| s@),
            r@.map_values(|s: String| s@) == ov.subrange(0, m as int),
        decreases out.len() - m,
    {
        let ghost before = r@.map_values(|s: String| s@);
        let s = string_of(&out[m]);
        r.push(s);
        assert(r@.map_values(|s: String| s@) =~= before.push(s@));
        assert(ov.subrange(0, m + 1) =~= ov.subrange(0, m as int).push(s@));
        m = m + 1;
    }
    assert(ov.subrange(0, out.len() as int) =~= ov);
    r
}

// ---------------------------------------------------------------------------
// Starter content
// ---------------------------------------------------------------------------

/// A project card that `init` writes.
#[derive(Debug)]
pub struct StarterProject {
    pub track: String,
    pub filename: String,
    pub frontmatter: Vec<(String, String)>,
    pub body: String,
}

/// The README that `init` writes beside the tracks.
pub fn starter_readme() -> (r: String)
    ensures
        r@ == "# HQ\n\nThis folder is your HQ. Each subfolder is a *track* (a category), and each\nMarkdown file inside a track is one project card on the board.\n\n- Edit any card in any text editor \u{2014} or open this folder as an Obsidian vault.\n- The HQ app watches these files and updates the board live.\n- The `---` block at the top of each card holds the fields the board reads:\n  `title`, `status` (active, waiting, submitted, deferred, done, dropped),\n  and optional `deadline`, `my_next`, `waiting_on`, `priority`.\n"@,
{
    string_of(&chars_of("# HQ\n\nThis folder is your HQ. Each subfolder is a *track* (a category), and each\nMarkdown file inside a track is one project card on the board.\n\n- Edit any card in any text editor \u{2014} or open this folder as an Obsidian vault.\n- The HQ app watches these files and updates the board live.\n- The `---` block at the top of each card holds the fields the board reads:\n  `title`, `status` (active, waiting, submitted, deferred, done, dropped),\n  and optional `deadline`, `my_next`, `waiting_on`, `priority`.\n"))
}

fn owned(s: &str) -> (r: String)
    ensures
        r@ == s@,
{
    string_of(&chars_of(s))
}

fn field_pair(k: &str, v: &str) -> (r: (String, String))
    ensures
        r.0@ == k@,
        r.1@ == v@,
{
    (owned(k), owned(v))
}

pub open spec fn pair_views(v: Seq<(String, String)>) -> Seq<(Seq<char>, Seq<char>)> {
    v.map_values(|e: (String, String)| (e.0@, e.1@))
}

/// The three example cards of a new HQ directory: a welcome card in
/// `projects`, a class in `classes` and a waiting errand in `life`.
pub fn starter_projects() -> (r: Vec<StarterProject>)
    ensures
        r@.len() == 3,
        r@[0].track@ == "projects"@ && r@[0].filename@ == "welcome-to-hq.md"@,
        r@[1].track@ == "classes"@ && r@[1].filename@ == "example-class.md"@,
        r@[2].track@ == "life"@ && r@[2].filename@ == "example-waiting.md"@,
        r@[0].body@ == "Every card on this board is a plain Markdown file in your HQ folder \u{2014} this one is `projects/welcome-to-hq.md`. There is no database: your stuff is just text files you can open, edit, and back up like anything else.\n\n## The basics\n\n- Columns are statuses. Drag a card to move it.\n- Click a card to read or edit it in the side panel.\n- **+ New project** adds a card to a track (a folder, like `classes/`).\n- Checkboxes in a card are clickable from the board:\n  - [ ] try checking this box\n  - [ ] then drag this card to **done**\n\n## The fields at the top\n\nThe block between the `---` lines is what the board reads: `title`, `status`, and optional extras like `deadline`, `my_next` (your next action), or `waiting_on` (who or what you're waiting for).\n\n## Editing with Obsidian (optional, but nice)\n\nBecause everything is plain Markdown, you can open your HQ folder as a vault in [Obsidian](https://obsidian.md) and do your longer writing there. The board watches the files and updates live \u{2014} HQ is the dashboard, Obsidian is the editor.\n"@,
        r@[1].body@ == "A track like `classes/` works well with one card per course.\n\n- [ ] problem set 2\n- [ ] reading response\n- [x] lab safety quiz\n"@,
        r@[2].body@ == "Cards in **waiting** are things where the ball is in someone else's court. `waiting_on` says what you're waiting for, so the board can remind you when it's been sitting too long.\n"@,
        pair_views(r@[0].frontmatter@) == seq![
            ("title"@, "Welcome to HQ \u{1f44b}"@),
            ("status"@, "active"@),
            ("priority"@, "10"@),
            ("my_next"@, "read this card, then drag it to Done"@),
        ],
        pair_views(r@[1].frontmatter@) == seq![
            ("title"@, "Example: Bio 101"@),
            ("status"@, "active"@),
            ("my_next"@, "read chapter 3 before Friday"@),
            ("deadline"@, "friday"@),
        ],
        pair_views(r@[2].frontmatter@) == seq![
            ("title"@, "Example: passport renewal"@),
            ("status"@, "waiting"@),
            ("waiting_on"@, "new photo appointment"@),
        ],
{
    let mut welcome: Vec<(String, String)> = Vec::new();
    welcome.push(field_pair("title", "Welcome to HQ \u{1f44b}"));
    welcome.push(field_pair("status", "active"));
    welcome.push(field_pair("priority", "10"));
    welcome.push(field_pair("my_next", "read this card, then drag it to Done"));
    let mut class: Vec<(String, String)> = Vec::new();
    class.push(field_pair("title", "Example: Bio 101"));
    class.push(field_pair("status", "active"));
    class.push(field_pair("my_next", "read chapter 3 before Friday"));
    class.push(field_pair("deadline", "friday"));
    let mut waiting: Vec<(String, String)> = Vec::new();
    waiting.push(field_pair("title", "Example: passport renewal"));
    waiting.push(field_pair("status", "waiting"));
    waiting.push(field_pair("waiting_on", "new photo appointment"));
    assert(pair_views(welcome@) =~= seq![
        ("title"@, "Welcome to HQ \u{1f44b}"@),
        ("status"@, "active"@),
        ("priority"@, "10"@),
        ("my_next"@, "read this card, then drag it to Done"@),
    ]);
    assert(pair_views(class@) =~= seq![
        ("title"@, "Example: Bio 101"@),
        ("status"@, "active"@),
        ("my_next"@, "read chapter 3 before Friday"@),
        ("deadline"@, "friday"@),
    ]);
    assert(pair_views(waiting@) =~= seq![
        ("title"@, "Example: passport renewal"@),
        ("status"@, "waiting"@),
        ("waiting_on"@, "new photo appointment"@),
    ]);
    let mut r: Vec<StarterProject> = Vec::new();
    r.push(StarterProject {
        track: owned("projects"),
        filename: owned("welcome-to-hq.md"),
        frontmatter: welcome,
        body: owned("Every card on this board is a plain Markdown file in your HQ folder \u{2014} this one is `projects/welcome-to-hq.md`. There is no database: your stuff is just text files you can open, edit, and back up like anything else.\n\n## The basics\n\n- Columns are statuses. Drag a card to move it.\n- Click a card to read or edit it in the side panel.\n- **+ New project** adds a card to a track (a folder, like `classes/`).\n- Checkboxes in a card are clickable from the board:\n  - [ ] try checking this box\n  - [ ] then drag this card to **done**\n\n## The fields at the top\n\nThe block between the `---` lines is what the board reads: `title`, `status`, and optional extras like `deadline`, `my_next` (your next action), or `waiting_on` (who or what you're waiting for).\n\n## Editing with Obsidian (optional, but nice)\n\nBecause everything is plain Markdown, you can open your HQ folder as a vault in [Obsidian](https://obsidian.md) and do your longer writing there. The board watches the files and updates live \u{2014} HQ is the dashboard, Obsidian is the editor.\n"),
    });
    r.push(StarterProject {
        track: owned("classes"),
        filename: owned("example-class.md"),
        frontmatter: class,
        body: owned("A track like `classes/` works well with one card per course.\n\n- [ ] problem set 2\n- [ ] reading response\n- [x] lab safety quiz\n"),
    });
    r.push(StarterProject {
        track: owned("life"),
        filename: owned("example-waiting.md"),
        frontmatter: waiting,
        body: owned("Cards in **waiting** are things where the ball is in someone else's court. `waiting_on` says what you're waiting for, so the board can remind you when it's been sitting too long.\n"),
    });
    r
}

/// `init` refuses a path that exists and is no directory.
pub fn init_not_a_directory(shown: &str) -> (r: NewProjectError)
    ensures
        r matches NewProjectError::Validation(m) && m@ == shown@ + " exists and is not a directory"@,
{
    NewProjectError::Validation(cat2(shown, " exists and is not a directory"))
}

/// `init` adds starter content only where no track is found yet.
pub fn check_init_target(shown: &str, tracks: &Vec<String>) -> (r: Result<(), NewProjectError>)
    ensures
        r is Ok <==> tracks@.len() == 0,
        r matches Err(NewProjectError::Validation(m)) ==> m@ == shown@
            + " already looks like an HQ directory (tracks: "@ + join(
            tracks@.map_values(|t: String| t@),
            ", "@,
        ) + "); refusing to add starter content"@,
        r is Err ==> r matches Err(NewProjectError::Validation(_)),
{
    if tracks.len() == 0 {
        return Ok(());
    }
    let mut parts: Vec<Vec<char>> = Vec::new();
    let mut i: usize = 0;
    while i < tracks.len()
        invariant
            i <= tracks.len(),
            parts@.map_values(|l: Vec<char>| l@) == tracks@.map_values(|t: String| t@).take(i as int),
        decreases tracks.len() - i,
    {
        let ghost before = parts@.map_values(|l: Vec<char>| l@);
        parts.push(chars_of(tracks[i].as_str()));
        assert(parts@.map_values(|l: Vec<char>| l@) =~= before.push(tracks@[i as int]@));
        i = i + 1;
        assert(parts@.map_values(|l: Vec<char>| l@) =~= tracks@.map_values(|t: String| t@).take(i as int));
    }
    assert(tracks@.map_values(|t: String| t@).take(i as int) =~= tracks@.map_values(|t: String| t@));
    let listed = string_of(&join_with(&parts, &chars_of(", ")));
    let mut m = chars_of(shown);
    append(&mut m, &chars_of(" already looks like an HQ directory (tracks: "));
    append(&mut m, &chars_of(listed.as_str()));
    append(&mut m, &chars_of("); refusing to add starter content"));
    Err(NewProjectError::Validation(string_of(&m)))
}

} // verus!
