//! The rules of the dashboard's HTTP interface that do not depend on the
//! server: which status code an error answers with, who may call, which file
//! events reload the page, and the owners offered for completion.

use vstd::prelude::*;

use crate::agent::AgentError;
use crate::commands::NewProjectError;
use crate::project::Project;
use crate::project_file::ProjectFileError;
use crate::routine::RoutineError;
use crate::task::TaskError;
use crate::text::{chars_of, eq, has_suffix, slice, split_char, split_on, string_of, strictly_sorted};
use crate::timeline::last_index_of;
use crate::undo::UndoError;

verus! {

pub const BAD_REQUEST: u16 = 400;
pub const UNAUTHORIZED: u16 = 401;
pub const NOT_FOUND: u16 = 404;
pub const CONFLICT: u16 = 409;
pub const INTERNAL_SERVER_ERROR: u16 = 500;
pub const BAD_GATEWAY: u16 = 502;
pub const SERVICE_UNAVAILABLE: u16 = 503;

/// Calls `std::io::Error::kind` and compares it with `ErrorKind::NotFound`;
/// which kind an error has depends on where it came from and is left unstated.
#[verifier::external_body]
fn io_not_found(error: &std::io::Error) -> (r: bool) {
    error.kind() == std::io::ErrorKind::NotFound
}

/// The status of a project-file error, where a read error's file was missing
/// or not.
pub open spec fn project_status(e: ProjectFileError, missing: bool) -> u16 {
    match e {
        ProjectFileError::InvalidPath(_) | ProjectFileError::InvalidStatus { .. }
        | ProjectFileError::InvalidDate { .. } | ProjectFileError::InvalidName { .. }
        | ProjectFileError::Frontmatter { .. } | ProjectFileError::MissingField { .. }
        | ProjectFileError::WaitingOnRequired { .. } => BAD_REQUEST,
        ProjectFileError::Read { .. } => if missing {
            NOT_FOUND
        } else {
            INTERNAL_SERVER_ERROR
        },
        ProjectFileError::Write { .. } => INTERNAL_SERVER_ERROR,
        ProjectFileError::AlreadyExists { .. } | ProjectFileError::CheckboxConflict
        | ProjectFileError::RevisionConflict { .. } => CONFLICT,
    }
}

/// The status of a project-file error given whether a read failed for a
/// missing file: bad input is 400, a missing file 404, other I/O 500, and
/// a conflict with what is on disk 409.
pub fn project_status_when(error: &ProjectFileError, missing: bool) -> (r: u16)
    ensures
        r == project_status(*error, missing),
{
    match error {
        ProjectFileError::InvalidPath(_) | ProjectFileError::InvalidStatus { .. }
        | ProjectFileError::InvalidDate { .. } | ProjectFileError::InvalidName { .. }
        | ProjectFileError::Frontmatter { .. } | ProjectFileError::MissingField { .. }
        | ProjectFileError::WaitingOnRequired { .. } => BAD_REQUEST,
        ProjectFileError::Read { .. } => if missing {
            NOT_FOUND
        } else {
            INTERNAL_SERVER_ERROR
        },
        ProjectFileError::Write { .. } => INTERNAL_SERVER_ERROR,
        ProjectFileError::AlreadyExists { .. } | ProjectFileError::CheckboxConflict
        | ProjectFileError::RevisionConflict { .. } => CONFLICT,
    }
}

/// The status a project-file error answers with; for a read error it asks
/// the I/O error whether the file was missing.
pub fn project_file_status(error: &ProjectFileError) -> (r: u16)
    ensures
        !(error is Read) ==> r == project_status(*error, false),
        error is Read ==> r == NOT_FOUND || r == INTERNAL_SERVER_ERROR,
{
    let missing = match error {
        ProjectFileError::Read { source, .. } => io_not_found(source),
        _ => false,
    };
    project_status_when(error, missing)
}

pub open spec fn task_status(e: TaskError, missing: bool) -> u16 {
    match e {
        TaskError::InvalidPath(_) | TaskError::InvalidLine(_) => BAD_REQUEST,
        TaskError::Conflict => CONFLICT,
        TaskError::Read { .. } => if missing {
            NOT_FOUND
        } else {
            INTERNAL_SERVER_ERROR
        },
        TaskError::Write { .. } => INTERNAL_SERVER_ERROR,
    }
}

pub fn task_status_when(error: &TaskError, missing: bool) -> (r: u16)
    ensures
        r == task_status(*error, missing),
{
    match error {
        TaskError::InvalidPath(_) | TaskError::InvalidLine(_) => BAD_REQUEST,
        TaskError::Conflict => CONFLICT,
        TaskError::Read { .. } => if missing {
            NOT_FOUND
        } else {
            INTERNAL_SERVER_ERROR
        },
        TaskError::Write { .. } => INTERNAL_SERVER_ERROR,
    }
}

/// The status a task error answers with.
pub fn task_error_status(error: &TaskError) -> (r: u16)
    ensures
        !(error is Read) ==> r == task_status(*error, false),
        error is Read ==> r == NOT_FOUND || r == INTERNAL_SERVER_ERROR,
{
    let missing = match error {
        TaskError::Read { source, .. } => io_not_found(source),
        _ => false,
    };
    task_status_when(error, missing)
}

pub open spec fn routine_status(e: RoutineError, missing: bool) -> u16 {
    match e {
        RoutineError::InvalidPath(_) | RoutineError::InvalidField { .. } | RoutineError::Malformed(
            _,
        ) => BAD_REQUEST,
        RoutineError::AlreadyExists(_) => CONFLICT,
        RoutineError::Read { .. } => if missing {
            NOT_FOUND
        } else {
            INTERNAL_SERVER_ERROR
        },
        RoutineError::Write { .. } => INTERNAL_SERVER_ERROR,
    }
}

pub fn routine_status_when(error: &RoutineError, missing: bool) -> (r: u16)
    ensures
        r == routine_status(*error, missing),
{
    match error {
        RoutineError::InvalidPath(_) | RoutineError::InvalidField { .. } | RoutineError::Malformed(
            _,
        ) => BAD_REQUEST,
        RoutineError::AlreadyExists(_) => CONFLICT,
        RoutineError::Read { .. } => if missing {
            NOT_FOUND
        } else {
            INTERNAL_SERVER_ERROR
        },
        RoutineError::Write { .. } => INTERNAL_SERVER_ERROR,
    }
}

/// The status a routine error answers with.
pub fn routine_error_status(error: &RoutineError) -> (r: u16)
    ensures
        !(error is Read) ==> r == routine_status(*error, false),
        error is Read ==> r == NOT_FOUND || r == INTERNAL_SERVER_ERROR,
{
    let missing = match error {
        RoutineError::Read { source, .. } => io_not_found(source),
        _ => false,
    };
    routine_status_when(error, missing)
}

/// The status an undo error answers with: nothing to undo and a conflict
/// are 409, a broken history or removal 500, and a project-file error its own.
pub fn undo_error_status(error: &UndoError) -> (r: u16)
    ensures
        (error is NothingToUndo || error is Conflict) ==> r == CONFLICT,
        (error is StateUnavailable || error is Remove) ==> r == INTERNAL_SERVER_ERROR,
        error matches UndoError::Project(e) ==> (!(e is Read) ==> r == project_status(*e, false)),
{
    match error {
        UndoError::NothingToUndo | UndoError::Conflict { .. } => CONFLICT,
        UndoError::StateUnavailable | UndoError::Remove { .. } => INTERNAL_SERVER_ERROR,
        UndoError::Project(e) => project_file_status(e),
    }
}

/// The status a failed project creation answers with: invalid options 400,
/// an unknown track 404, and a project-file error its own.
pub fn new_project_error_status(error: &NewProjectError) -> (r: u16)
    ensures
        error is Validation ==> r == BAD_REQUEST,
        error is UnknownTrack ==> r == NOT_FOUND,
        error matches NewProjectError::ProjectFile(e) ==> (!(e is Read) ==> r == project_status(
            *e,
            false,
        )),
{
    match error {
        NewProjectError::Validation(_) => BAD_REQUEST,
        NewProjectError::UnknownTrack { .. } => NOT_FOUND,
        NewProjectError::ProjectFile(e) => project_file_status(e),
    }
}

/// The status an agent error answers with: no runtime 503, a failing
/// runtime 502, no session 404, nothing or something unsupported to apply
/// 409, and a project-file error its own.
pub fn agent_error_status(error: &AgentError) -> (r: u16)
    ensures
        error is RuntimeUnavailable ==> r == SERVICE_UNAVAILABLE,
        (error is Runtime || error is InvalidResponse || error is Io) ==> r == BAD_GATEWAY,
        error is UnknownSession ==> r == NOT_FOUND,
        (error is NoChange || error is UnsupportedChange) ==> r == CONFLICT,
        error matches AgentError::Project(e) ==> (!(e is Read) ==> r == project_status(*e, false)),
{
    match error {
        AgentError::RuntimeUnavailable(_) => SERVICE_UNAVAILABLE,
        AgentError::Runtime(_) | AgentError::InvalidResponse(_) | AgentError::Io { .. } => BAD_GATEWAY,
        AgentError::UnknownSession => NOT_FOUND,
        AgentError::NoChange(_) | AgentError::UnsupportedChange(_) => CONFLICT,
        AgentError::Project(e) => project_file_status(e),
    }
}

// ---------------------------------------------------------------------------
// Who may call
// ---------------------------------------------------------------------------

/// A query string carries `hq_token=<expected>` as one of its `&`-separated
/// pairs (split at the first `=`).
pub open spec fn query_has_token(query: Seq<char>, expected: Seq<char>) -> bool {
    exists|i: int|
        0 <= i < split_on(query, '&').len() && {
            let pair = #[trigger] split_on(query, '&')[i];
            pair.contains('=') && pair.take(crate::text::find_from(pair, '=', 0)) == "hq_token"@
                && pair.skip(crate::text::find_from(pair, '=', 0) + 1) == expected
        }
}

/// A request may call when its `x-hq-token` header, or the `hq_token` pair of
/// its query, is the expected token.
pub fn request_is_authorized(header: Option<&str>, query: Option<&str>, expected: &str) -> (r: bool)
    ensures
        r == ((header matches Some(h) && h@ == expected@) || (query matches Some(q) && query_has_token(
            q@,
            expected@,
        ))),
{
    let e = chars_of(expected);
    let header_matches = match header {
        Some(h) => eq(&chars_of(h), &e),
        None => false,
    };
    if header_matches {
        return true;
    }
    let q = match query {
        Some(q) => chars_of(q),
        None => {
            return false;
        },
    };
    let pairs = split_char(&q, '&');
    let ghost ps = pairs@.map_values(|l: Vec<char>| l@);
    let key = chars_of("hq_token");
    let mut i: usize = 0;
    while i < pairs.len()
        invariant
            i <= pairs.len(),
            ps == pairs@.map_values(|l: Vec<char>| l@),
            ps == split_on(q@, '&'),
            e@ == expected@,
            key@ == "hq_token"@,
            query matches Some(qs) && qs@ == q@,
            forall|j: int| 0 <= j < i ==> !({
                let pair = #[trigger] ps[j];
                pair.contains('=') && pair.take(crate::text::find_from(pair, '=', 0)) == "hq_token"@
                    && pair.skip(crate::text::find_from(pair, '=', 0) + 1) == expected@
            }),
        decreases pairs.len() - i,
    {
        let pair = &pairs[i];
        assert(ps[i as int] == pair@);
        let k = crate::text::find_char_from(pair, '=', 0);
        proof {
            crate::text::lemma_find_from_range(pair@, '=', 0);
        }
        if k < pair.len() {
            assert(pair@[k as int] == '=');
            assert(pair@.contains('='));
            let name = slice(pair, 0, k);
            let value = slice(pair, k + 1, pair.len());
            assert(name@ =~= pair@.take(k as int));
            assert(value@ =~= pair@.skip(k + 1));
            if eq(&name, &key) && eq(&value, &e) {
                assert(split_on(q@, '&')[i as int] == pair@);
                assert({
                    let pr = split_on(q@, '&')[i as int];
                    pr.contains('=') && pr.take(crate::text::find_from(pr, '=', 0)) == "hq_token"@
                        && pr.skip(crate::text::find_from(pr, '=', 0) + 1) == expected@
                });
                assert(query_has_token(q@, expected@));
                return true;
            }
        } else {
            assert(!pair@.contains('='));
        }
        i = i + 1;
    }
    false
}

// ---------------------------------------------------------------------------
// File events
// ---------------------------------------------------------------------------

/// A path's components as `std::path::Path` reads them: the pieces between
/// slashes, without empty pieces and `.` pieces.
pub open spec fn path_parts(path: Seq<char>) -> Seq<Seq<char>> {
    split_on(path, '/').filter(|c: Seq<char>| c.len() > 0 && c != "."@)
}

/// The file name of a path: its last component unless that is `..`.
pub open spec fn path_file_name(path: Seq<char>) -> Option<Seq<char>> {
    let parts = path_parts(path);
    if parts.len() == 0 || parts.last() == ".."@ {
        None
    } else {
        Some(parts.last())
    }
}

/// The extension of a file name: what follows its last dot, where that dot
/// is not the name's first character.
pub open spec fn name_extension(name: Seq<char>) -> Option<Seq<char>> {
    let k = last_index_of(name, '.');
    if k > 0 {
        Some(name.skip(k + 1))
    } else {
        None
    }
}

/// A change to a Markdown file, to the task lists, or to `hq.toml` reloads
/// the dashboard.
pub open spec fn reload_target(path: Seq<char>) -> bool {
    let parts = path_parts(path);
    let ends_in = |a: Seq<char>, b: Seq<char>| parts.len() >= 2 && parts[parts.len() - 2] == a
        && parts.last() == b;
    ||| (path_file_name(path) matches Some(n) && name_extension(n) == Some("md"@))
    ||| ends_in("_tasks"@, "todo.txt"@)
    ||| ends_in("_tasks"@, "done.txt"@)
    ||| path_file_name(path) == Some("hq.toml"@)
}

fn kept_parts(path: &str) -> (r: Vec<Vec<char>>)
    ensures
        r@.map_values(|l: Vec<char>| l@) == path_parts(path@),
{
    let pieces = split_char(&chars_of(path), '/');
    let ghost ps = pieces@.map_values(|l: Vec<char>| l@);
    let dot = chars_of(".");
    let mut r: Vec<Vec<char>> = Vec::new();
    let mut i: usize = 0;
    while i < pieces.len()
        invariant
            i <= pieces.len(),
            ps == pieces@.map_values(|l: Vec<char>| l@),
            ps == split_on(path@, '/'),
            dot@ == "."@,
            r@.map_values(|l: Vec<char>| l@) == ps.take(i as int).filter(
                |c: Seq<char>| c.len() > 0 && c != "."@,
            ),
        decreases pieces.len() - i,
    {
        let ghost before = r@.map_values(|l: Vec<char>| l@);
        proof {
            assert(ps.take(i + 1) =~= ps.take(i as int).push(ps[i as int]));
            ps.take(i as int).lemma_filter_push(ps[i as int], |c: Seq<char>| c.len() > 0 && c != "."@);
        }
        assert(ps[i as int] == pieces@[i as int]@);
        if pieces[i].len() > 0 && !eq(&pieces[i], &dot) {
            r.push(pieces[i].clone());
            assert(r@.map_values(|l: Vec<char>| l@) =~= before.push(ps[i as int]));
        }
        i = i + 1;
    }
    assert(ps.take(i as int) =~= ps);
    r
}

/// Whether a changed path reloads the dashboard.
pub fn path_touches_reload_target(path: &str) -> (r: bool)
    ensures
        r == reload_target(path@),
{
    let parts = kept_parts(path);
    let ghost pv = parts@.map_values(|l: Vec<char>| l@);
    let n = parts.len();
    let name_ok = n > 0 && !eq(&parts[n - 1], &chars_of(".."));
    let mut markdown = false;
    let mut config = false;
    if name_ok {
        let name = &parts[n - 1];
        assert(pv.last() == name@);
        config = eq(name, &chars_of("hq.toml"));
        let mut k = name.len();
        assert(name@.take(name@.len() as int) =~= name@);
        while k > 0 && name[k - 1] != '.'
            invariant
                k <= name.len(),
                last_index_of(name@, '.') == last_index_of(name@.take(k as int), '.'),
            decreases k,
        {
            assert(name@.take(k as int).drop_last() =~= name@.take(k - 1));
            k = k - 1;
        }
        proof {
            assert(name@.take(name@.len() as int) =~= name@);
            if k > 0 {
                assert(name@.take(k as int).last() == '.');
            }
        }
        if k > 1 {
            let ext = slice(name, k, name.len());
            assert(ext@ =~= name@.skip(k as int));
            markdown = eq(&ext, &chars_of("md"));
        }
    }
    let mut tasks = false;
    if n >= 2 && eq(&parts[n - 2], &chars_of("_tasks")) {
        assert(pv[n - 2] == parts@[n - 2]@ && pv.last() == parts@[n - 1]@);
        tasks = eq(&parts[n - 1], &chars_of("todo.txt")) || eq(&parts[n - 1], &chars_of("done.txt"));
    }
    proof {
        if n >= 2 {
            assert(pv[n - 2] == parts@[n - 2]@ && pv.last() == parts@[n - 1]@);
        }
    }
    markdown || tasks || config
}

// ---------------------------------------------------------------------------
// Owners
// ---------------------------------------------------------------------------

/// The owner prefix of a project file: the part of its file name (without
/// `.md`) before the first hyphen, where that is not empty.
pub open spec fn file_owner(file: Seq<char>) -> Option<Seq<char>> {
    let name = split_on(split_on(file, '/').last(), '\\').last();
    let stem = if crate::text::ends_with(name, ".md"@) {
        name.take(name.len() - 3)
    } else {
        name
    };
    let k = crate::text::find_from(stem, '-', 0);
    if k < stem.len() && k > 0 {
        Some(stem.take(k))
    } else {
        None
    }
}

pub fn owner_from_file(file: &str) -> (r: Option<String>)
    ensures
        match r {
            Some(o) => file_owner(file@) == Some(o@),
            None => file_owner(file@) is None,
        },
{
    let by_slash = split_char(&chars_of(file), '/');
    let last = &by_slash[by_slash.len() - 1];
    assert(by_slash@.map_values(|l: Vec<char>| l@).last() == last@);
    let by_backslash = split_char(last, '\\');
    let name = &by_backslash[by_backslash.len() - 1];
    assert(by_backslash@.map_values(|l: Vec<char>| l@).last() == name@);
    proof {
        reveal_strlit(".md");
    }
    let stem = if has_suffix(name, &chars_of(".md")) {
        slice(name, 0, name.len() - 3)
    } else {
        name.clone()
    };
    assert(stem@ == (if crate::text::ends_with(name@, ".md"@) {
        name@.take(name@.len() - 3)
    } else {
        name@
    })) by {
        reveal_strlit(".md");
    }
    let k = crate::text::find_char_from(&stem, '-', 0);
    if k < stem.len() && k > 0 {
        let o = slice(&stem, 0, k);
        assert(o@ =~= stem@.take(k as int));
        Some(string_of(&o))
    } else {
        None
    }
}

pub open spec fn project_owners(ps: Seq<Project>) -> Set<Seq<char>> {
    Set::new(|o: Seq<char>| exists|i: int| 0 <= i < ps.len() && file_owner(#[trigger] ps[i].file@) == Some(o))
}

/// The owners offered for completion: the owner prefixes of the project
/// files and the default owner, sorted, each once.
pub fn collect_owners(projects: &Vec<Project>, default_owner: Option<&str>) -> (r: Vec<String>)
    ensures
        strictly_sorted(r@.map_values(|o: String| o@)),
        r@.map_values(|o: String| o@).to_set() == match default_owner {
            Some(d) => project_owners(projects@).insert(d@),
            None => project_owners(projects@),
        },
{
    let mut acc: Vec<Vec<char>> = Vec::new();
    let mut i: usize = 0;
    assert(project_owners(projects@.take(0)) =~= Set::<Seq<char>>::empty());
    assert(acc@.map_values(|e: Vec<char>| e@).to_set() =~= Set::<Seq<char>>::empty());
    while i < projects.len()
        invariant
            i <= projects.len(),
            strictly_sorted(acc@.map_values(|e: Vec<char>| e@)),
            acc@.map_values(|e: Vec<char>| e@).to_set() == project_owners(projects@.take(i as int)),
        decreases projects.len() - i,
    {
        let ghost before = project_owners(projects@.take(i as int));
        let owner = owner_from_file(projects[i].file.as_str());
        match owner {
            Some(o) => {
                crate::text::insert_sorted(&mut acc, chars_of(o.as_str()));
                proof {
                    assert(project_owners(projects@.take(i + 1)) =~= before.insert(o@)) by {
                        assert forall|x: Seq<char>| project_owners(projects@.take(i + 1)).contains(x) <==> before.insert(o@).contains(x) by {
                            if project_owners(projects@.take(i + 1)).contains(x) {
                                let j = choose|j: int| 0 <= j < i + 1 && file_owner(#[trigger] projects@.take(i + 1)[j].file@) == Some(x);
                                if j < i {
                                    assert(projects@.take(i as int)[j] == projects@.take(i + 1)[j]);
                                }
                            }
                            if before.contains(x) {
                                let j = choose|j: int| 0 <= j < i && file_owner(#[trigger] projects@.take(i as int)[j].file@) == Some(x);
                                assert(projects@.take(i + 1)[j] == projects@.take(i as int)[j]);
                            }
                            if x == o@ {
                                assert(projects@.take(i + 1)[i as int] == projects@[i as int]);
                            }
                        }
                    }
                }
            },
            None => {
                proof {
                    assert(project_owners(projects@.take(i + 1)) =~= before) by {
                        assert forall|x: Seq<char>| project_owners(projects@.take(i + 1)).contains(x) <==> before.contains(x) by {
                            if project_owners(projects@.take(i + 1)).contains(x) {
                                let j = choose|j: int| 0 <= j < i + 1 && file_owner(#[trigger] projects@.take(i + 1)[j].file@) == Some(x);
                                if j < i {
                                    assert(projects@.take(i as int)[j] == projects@.take(i + 1)[j]);
                                } else {
                                    assert(projects@.take(i + 1)[j] == projects@[i as int]);
                                }
                            }
                            if before.contains(x) {
                                let j = choose|j: int| 0 <= j < i && file_owner(#[trigger] projects@.take(i as int)[j].file@) == Some(x);
                                assert(projects@.take(i + 1)[j] == projects@.take(i as int)[j]);
                            }
                        }
                    }
                }
            },
        }
        i = i + 1;
    }
    assert(projects@.take(i as int) =~= projects@);
    match default_owner {
        Some(d) => {
            crate::text::insert_sorted(&mut acc, chars_of(d));
        },
        None => {},
    }
    let mut r: Vec<String> = Vec::new();
    let mut k: usize = 0;
    while k < acc.len()
        invariant
            k <= acc.len(),
            r@.map_values(|o: String| o@) == acc@.map_values(|e: Vec<char>| e@).take(k as int),
        decreases acc.len() - k,
    {
        let ghost before = r@.map_values(|o: String| o@);
        r.push(string_of(&acc[k]));
        assert(r@.map_values(|o: String| o@) =~= before.push(acc@[k as int]@));
        k = k + 1;
        assert(r@.map_values(|o: String| o@) =~= acc@.map_values(|e: Vec<char>| e@).take(k as int));
    }
    assert(acc@.map_values(|e: Vec<char>| e@).take(k as int) =~= acc@.map_values(|e: Vec<char>| e@));
    r
}

} // verus!
