//! The workload timeline: a replay of the repository's history, one snapshot
//! per day, of the projects that were on someone's plate and of the projects
//! that left it (submitted, done or dropped).
//!
//! Running `git` is the caller's part. This module reads what `git log` and
//! `git cat-file --batch` print, replays the changes, and shapes the result.

use vstd::prelude::*;

use crate::dates::date_text;
use crate::project::Project;
use crate::text::{chars_of, concat, ends_with, eq, has_prefix, has_suffix, lex_less, lex_lt,
    lemma_lex_irreflexive, lemma_lex_total, lemma_lex_transitive, slice, split_char, split_on,
    starts_with, string_of,
};

verus! {

/// How many snapshots a replayed history keeps at most.
pub const MAX_HISTORY_SNAPSHOTS: usize = 90;

#[derive(Debug, Clone, Copy, PartialEq, Eq, Structural)]
pub enum TimelineSource {
    GitHistory,
    CurrentOnly,
}

/// How many projects of a track moved to an outflow status on a day.
#[derive(Debug, Clone)]
pub struct TimelineOutflow {
    pub track: String,
    pub status: String,
    pub count: usize,
}

/// A project on the plate in a snapshot.
#[derive(Debug, Clone)]
pub struct TimelineProject {
    pub file: String,
    pub title: String,
    pub track: String,
    pub status: String,
    pub waiting_since: Option<i32>,
    pub deadline: Option<String>,
    pub age_days: Option<i64>,
}

/// The state of one day.
#[derive(Debug, Clone)]
pub struct TimelineSnapshot {
    pub date: i32,
    pub projects: Vec<TimelineProject>,
    pub outflow: Vec<TimelineOutflow>,
}

#[derive(Debug, Clone)]
pub struct TimelineResponse {
    pub source: TimelineSource,
    pub stale_days: i64,
    pub snapshots: Vec<TimelineSnapshot>,
}

/// A commit of the history: its hash and its day.
#[derive(Debug, Clone)]
pub struct GitCommit {
    pub hash: String,
    pub date: i32,
}

/// One line of a commit's name-status listing, as project files.
#[derive(Debug, Clone)]
pub struct GitChange {
    pub old_file: Option<String>,
    pub new_file: Option<String>,
}

// ---------------------------------------------------------------------------
// Statuses
// ---------------------------------------------------------------------------

/// Statuses that put a project on the plate.
pub open spec fn load_status(s: Seq<char>) -> bool {
    s == "my-plate"@ || s == "active"@ || s == "waiting"@ || s == "deferred"@
}

/// Statuses that take a project off the plate.
pub open spec fn outflow_status(s: Seq<char>) -> bool {
    s == "submitted"@ || s == "done"@ || s == "dropped"@
}

pub fn is_load_status(status: &str) -> (r: bool)
    ensures
        r == load_status(status@),
{
    let s = chars_of(status);
    eq(&s, &chars_of("my-plate")) || eq(&s, &chars_of("active")) || eq(&s, &chars_of("waiting"))
        || eq(&s, &chars_of("deferred"))
}

pub fn is_outflow_status(status: &str) -> (r: bool)
    ensures
        r == outflow_status(status@),
{
    let s = chars_of(status);
    eq(&s, &chars_of("submitted")) || eq(&s, &chars_of("done")) || eq(&s, &chars_of("dropped"))
}

/// A project that reaches an outflow status from another status counts as
/// outflow; one first seen in an outflow status does not.
pub open spec fn row_outflow(previous: Option<ProjectRow>, current: ProjectRow) -> bool {
    outflow_status(current.status) && (previous matches Some(p) && p.status != current.status)
}

pub fn counts_as_outflow(previous: Option<&TimelineProject>, current: &TimelineProject) -> (r: bool)
    ensures
        r == row_outflow(
            match previous {
                Some(p) => Some(p@),
                None => None,
            },
            current@,
        ),
{
    if !is_outflow_status(current.status.as_str()) {
        return false;
    }
    match previous {
        Some(p) => !eq(&chars_of(p.status.as_str()), &chars_of(current.status.as_str())),
        None => false,
    }
}

// ---------------------------------------------------------------------------
// Files of the history
// ---------------------------------------------------------------------------

/// The first component of a relative path: what precedes the first `/`, or
/// the root itself for an absolute path.
pub open spec fn first_component(file: Seq<char>) -> Option<Seq<char>> {
    if file.len() == 0 {
        None
    } else if file[0] == '/' {
        Some(seq!['/'])
    } else {
        Some(split_on(file, '/')[0])
    }
}

/// The track a file belongs to: the first configured track it equals or lies
/// under, else its first path component.
pub open spec fn track_of(tracks: Seq<Seq<char>>, file: Seq<char>) -> Option<Seq<char>>
    decreases tracks.len(),
{
    if tracks.len() == 0 {
        first_component(file)
    } else if file == tracks[0] || starts_with(file, tracks[0].push('/')) {
        Some(tracks[0])
    } else {
        track_of(tracks.drop_first(), file)
    }
}

pub open spec fn strings(v: Seq<String>) -> Seq<Seq<char>> {
    v.map_values(|s: String| s@)
}

pub fn track_for_file(tracks: &Vec<String>, file: &str) -> (r: Option<String>)
    ensures
        r matches Some(t) ==> track_of(strings(tracks@), file@) == Some(t@),
        r is None ==> track_of(strings(tracks@), file@) is None,
{
    let f = chars_of(file);
    let ghost ts = strings(tracks@);
    let mut i: usize = 0;
    assert(ts.skip(0) =~= ts);
    while i < tracks.len()
        invariant
            i <= tracks.len(),
            ts == strings(tracks@),
            f@ == file@,
            track_of(ts, file@) == track_of(ts.skip(i as int), file@),
        decreases tracks.len() - i,
    {
        assert(ts.skip(i as int).drop_first() =~= ts.skip(i + 1));
        let t = chars_of(tracks[i].as_str());
        let mut under = t.clone();
        under.push('/');
        if eq(&f, &t) || has_prefix(&f, &under) {
            return Some(string_of(&t));
        }
        i = i + 1;
    }
    assert(ts.skip(i as int) =~= Seq::<Seq<char>>::empty());
    if f.len() == 0 {
        None
    } else if f[0] == '/' {
        let mut root: Vec<char> = Vec::new();
        root.push('/');
        assert(root@ =~= seq!['/']);
        Some(string_of(&root))
    } else {
        let parts = split_char(&f, '/');
        assert(parts@.map_values(|l: Vec<char>| l@)[0] == parts@[0]@);
        Some(string_of(&parts[0]))
    }
}

/// The last component of a path: what follows its last `/`.
pub open spec fn base_name(file: Seq<char>) -> Seq<char> {
    split_on(file, '/').last()
}

/// The project files of the history: Markdown files that are not skipped by
/// name. (A Markdown name always has a track: a configured one, else its
/// first component.)
pub open spec fn history_project_file(
    tracks: Seq<Seq<char>>,
    skip_files: Seq<Seq<char>>,
    file: Seq<char>,
) -> bool {
    ends_with(file, ".md"@) && !skip_files.contains(base_name(file)) && track_of(tracks, file) is Some
}

pub fn project_file(tracks: &Vec<String>, skip_files: &Vec<String>, file: &str) -> (r: Option<
    String,
>)
    ensures
        r is Some <==> history_project_file(strings(tracks@), strings(skip_files@), file@),
        r matches Some(f) ==> f@ == file@,
{
    let f = chars_of(file);
    if !has_suffix(&f, &chars_of(".md")) {
        return None;
    }
    let parts = split_char(&f, '/');
    let name = &parts[parts.len() - 1];
    assert(name@ == base_name(file@)) by {
        assert(parts@.map_values(|l: Vec<char>| l@).last() == parts@[parts.len() - 1]@);
    }
    let ghost sk = strings(skip_files@);
    let mut i: usize = 0;
    while i < skip_files.len()
        invariant
            i <= skip_files.len(),
            sk == strings(skip_files@),
            name@ == base_name(file@),
            forall|j: int| 0 <= j < i ==> sk[j] != name@,
        decreases skip_files.len() - i,
    {
        if eq(&chars_of(skip_files[i].as_str()), name) {
            assert(sk[i as int] == name@);
            assert(sk.contains(base_name(file@)));
            return None;
        }
        i = i + 1;
    }
    assert(!sk.contains(base_name(file@)));
    match track_for_file(tracks, file) {
        Some(_) => Some(string_of(&f)),
        None => None,
    }
}

/// A change as the pair of its old and new project file.
pub open spec fn change_view(c: GitChange) -> (Option<Seq<char>>, Option<Seq<char>>) {
    (crate::project::opt_view(c.old_file), crate::project::opt_view(c.new_file))
}

/// The project file named by the piece at `k`, if there is such a piece and
/// it names one.
pub open spec fn piece_file(
    tracks: Seq<Seq<char>>,
    skip_files: Seq<Seq<char>>,
    pieces: Seq<Seq<char>>,
    k: int,
) -> Option<Seq<char>> {
    if k < pieces.len() && history_project_file(tracks, skip_files, pieces[k]) {
        Some(pieces[k])
    } else {
        None
    }
}

/// A line of `git log --name-status`: a status letter, a tab, and the file
/// (or, for a rename or copy, the old and the new file). Additions and
/// modifications bring a new text, deletions take one away, renames do both,
/// copies bring one; lines about other files, or of another kind, are no change.
pub open spec fn git_change_of(
    tracks: Seq<Seq<char>>,
    skip_files: Seq<Seq<char>>,
    line: Seq<char>,
) -> Option<(Option<Seq<char>>, Option<Seq<char>>)> {
    let pieces = split_on(line, '\t');
    let status = pieces[0];
    if status.len() == 0 {
        None
    } else if status[0] == 'A' || status[0] == 'M' {
        match piece_file(tracks, skip_files, pieces, 1) {
            Some(f) => Some((None, Some(f))),
            None => None,
        }
    } else if status[0] == 'D' {
        match piece_file(tracks, skip_files, pieces, 1) {
            Some(f) => Some((Some(f), None)),
            None => None,
        }
    } else if status[0] == 'R' {
        let old = piece_file(tracks, skip_files, pieces, 1);
        let new = piece_file(tracks, skip_files, pieces, 2);
        if old is Some || new is Some {
            Some((old, new))
        } else {
            None
        }
    } else if status[0] == 'C' {
        match piece_file(tracks, skip_files, pieces, 2) {
            Some(f) => Some((None, Some(f))),
            None => None,
        }
    } else {
        None
    }
}

fn file_at(tracks: &Vec<String>, skip_files: &Vec<String>, pieces: &Vec<Vec<char>>, k: usize) -> (r:
    Option<String>)
    ensures
        crate::project::opt_view(r) == piece_file(
            strings(tracks@),
            strings(skip_files@),
            pieces@.map_values(|l: Vec<char>| l@),
            k as int,
        ),
{
    if k < pieces.len() {
        let s = string_of(&pieces[k]);
        assert(pieces@.map_values(|l: Vec<char>| l@)[k as int] == pieces@[k as int]@);
        project_file(tracks, skip_files, s.as_str())
    } else {
        None
    }
}

pub fn parse_git_change(tracks: &Vec<String>, skip_files: &Vec<String>, line: &str) -> (r: Option<
    GitChange,
>)
    ensures
        match r {
            Some(c) => git_change_of(strings(tracks@), strings(skip_files@), line@) == Some(
                change_view(c),
            ),
            None => git_change_of(strings(tracks@), strings(skip_files@), line@) is None,
        },
{
    let pieces = split_char(&chars_of(line), '\t');
    let status = &pieces[0];
    assert(pieces@.map_values(|l: Vec<char>| l@)[0] == status@);
    if status.len() == 0 {
        return None;
    }
    let c = status[0];
    if c == 'A' || c == 'M' {
        match file_at(tracks, skip_files, &pieces, 1) {
            Some(f) => Some(GitChange { old_file: None, new_file: Some(f) }),
            None => None,
        }
    } else if c == 'D' {
        match file_at(tracks, skip_files, &pieces, 1) {
            Some(f) => Some(GitChange { old_file: Some(f), new_file: None }),
            None => None,
        }
    } else if c == 'R' {
        let old_file = file_at(tracks, skip_files, &pieces, 1);
        let new_file = file_at(tracks, skip_files, &pieces, 2);
        if old_file.is_some() || new_file.is_some() {
            Some(GitChange { old_file, new_file })
        } else {
            None
        }
    } else if c == 'C' {
        match file_at(tracks, skip_files, &pieces, 2) {
            Some(f) => Some(GitChange { old_file: None, new_file: Some(f) }),
            None => None,
        }
    } else {
        None
    }
}

// ---------------------------------------------------------------------------
// The log
// ---------------------------------------------------------------------------

pub type ChangeView = (Option<Seq<char>>, Option<Seq<char>>);

/// A commit with its changes: hash, day and the changes in listing order.
pub type EntryView = (Seq<char>, int, Seq<ChangeView>);

pub open spec fn changes_view(v: Seq<GitChange>) -> Seq<ChangeView> {
    v.map_values(|c: GitChange| change_view(c))
}

pub open spec fn entry_view(e: (GitCommit, Vec<GitChange>)) -> EntryView {
    (e.0.hash@, e.0.date as int, changes_view(e.1@))
}

pub open spec fn history_view(h: Seq<(GitCommit, Vec<GitChange>)>) -> Seq<EntryView> {
    h.map_values(|e: (GitCommit, Vec<GitChange>)| entry_view(e))
}

/// What reading the log has gathered so far: the finished commits and the
/// commit being read; `None` once a commit header fails to read.
pub type LogState = Option<(Seq<EntryView>, Option<EntryView>)>;

/// The commits, with the one being read closed.
pub open spec fn closed_entries(done: Seq<EntryView>, current: Option<EntryView>) -> Seq<EntryView> {
    match current {
        Some(e) => done.push(e),
        None => done,
    }
}

/// Read one line of `git log --format=commit%x09%H%x09%cs --name-status`:
/// blank lines are skipped; `commit`, a tab, the hash, a tab and the
/// `YYYY-MM-DD` day open a commit (a header without a readable day spoils
/// the whole log); other lines are changes of the open commit.
pub open spec fn log_step(
    tracks: Seq<Seq<char>>,
    skip_files: Seq<Seq<char>>,
    state: LogState,
    line: Seq<char>,
) -> LogState {
    match state {
        None => None,
        Some((done, current)) => if line.len() == 0 {
            state
        } else if starts_with(line, "commit\t"@) {
            let pieces = split_on(line.skip(7), '\t');
            if pieces.len() < 2 {
                None
            } else {
                match crate::dates::parsed_date(pieces[1]) {
                    None => None,
                    Some(d) => Some(
                        (closed_entries(done, current), Some((pieces[0], d, Seq::empty()))),
                    ),
                }
            }
        } else {
            match current {
                Some(e) => match git_change_of(tracks, skip_files, line) {
                    Some(c) => Some((done, Some((e.0, e.1, e.2.push(c))))),
                    None => state,
                },
                None => state,
            }
        },
    }
}

pub open spec fn log_state(
    tracks: Seq<Seq<char>>,
    skip_files: Seq<Seq<char>>,
    lines: Seq<Seq<char>>,
) -> LogState
    decreases lines.len(),
{
    if lines.len() == 0 {
        Some((Seq::empty(), None))
    } else {
        log_step(tracks, skip_files, log_state(tracks, skip_files, lines.drop_last()), lines.last())
    }
}

/// The commits of a log, oldest first as `--reverse` prints them.
pub open spec fn log_entries(
    tracks: Seq<Seq<char>>,
    skip_files: Seq<Seq<char>>,
    log: Seq<char>,
) -> Option<Seq<EntryView>> {
    match log_state(tracks, skip_files, crate::text::lines(log)) {
        Some((done, current)) => Some(closed_entries(done, current)),
        None => None,
    }
}

/// Read the output of `git log --reverse --date=short --format=commit%x09%H%x09%cs
/// --name-status -M` into commits and their project-file changes.
pub fn parse_git_log(tracks: &Vec<String>, skip_files: &Vec<String>, log: &str) -> (r: Option<
    Vec<(GitCommit, Vec<GitChange>)>,
>)
    ensures
        match r {
            Some(h) => log_entries(strings(tracks@), strings(skip_files@), log@) == Some(
                history_view(h@),
            ),
            None => log_entries(strings(tracks@), strings(skip_files@), log@) is None,
        },
{
    let ghost ts = strings(tracks@);
    let ghost sk = strings(skip_files@);
    let lines = crate::text::lines_of(&chars_of(log));
    let ghost ls = lines@.map_values(|l: Vec<char>| l@);
    let mut done: Vec<(GitCommit, Vec<GitChange>)> = Vec::new();
    let mut current: Option<(GitCommit, Vec<GitChange>)> = None;
    let mut i: usize = 0;
    let header = chars_of("commit\t");
    while i < lines.len()
        invariant
            i <= lines.len(),
            ls == lines@.map_values(|l: Vec<char>| l@),
            ls == crate::text::lines(log@),
            ts == strings(tracks@),
            sk == strings(skip_files@),
            header@ == "commit\t"@,
            log_state(ts, sk, ls.take(i as int)) == Some(
                (
                    history_view(done@),
                    match current {
                        Some(e) => Some(entry_view(e)),
                        None => None,
                    },
                ),
            ),
        decreases lines.len() - i,
    {
        assert(ls.take(i + 1).drop_last() =~= ls.take(i as int));
        assert(ls.take(i + 1).last() == lines@[i as int]@);
        let line = &lines[i];
        if line.len() == 0 {
            i = i + 1;
            continue;
        }
        if has_prefix(line, &header) {
            proof {
                reveal_strlit("commit\t");
            }
            let rest = slice(line, 7, line.len());
            assert(rest@ =~= line@.skip(7));
            let pieces = split_char(&rest, '\t');
            let ghost ps = pieces@.map_values(|l: Vec<char>| l@);
            if pieces.len() < 2 {
                proof {
                    lemma_log_failed_stays(ts, sk, ls, i as int + 1);
                }
                return None;
            }
            assert(ps[1] == pieces@[1]@ && ps[0] == pieces@[0]@);
            let day = string_of(&pieces[1]);
            match crate::dates::parse_date(day.as_str()) {
                None => {
                    proof {
                        lemma_log_failed_stays(ts, sk, ls, i as int + 1);
                    }
                    return None;
                },
                Some(d) => {
                    let ghost before = history_view(done@);
                    match current {
                        Some(e) => {
                            let ghost ev = entry_view(e);
                            done.push(e);
                            assert(history_view(done@) =~= before.push(ev));
                        },
                        None => {},
                    }
                    let commit = GitCommit { hash: string_of(&pieces[0]), date: d };
                    let fresh: Vec<GitChange> = Vec::new();
                    assert(changes_view(fresh@) =~= Seq::<ChangeView>::empty());
                    current = Some((commit, fresh));
                },
            }
        } else {
            let ghost cur0 = current;
            match current {
                Some(mut e) => {
                    let ls_line = string_of(line);
                    match parse_git_change(tracks, skip_files, ls_line.as_str()) {
                        Some(c) => {
                            let ghost ev = entry_view(e);
                            let ghost cv = change_view(c);
                            e.1.push(c);
                            assert(changes_view(e.1@) =~= ev.2.push(cv));
                        },
                        None => {},
                    }
                    current = Some(e);
                },
                None => {},
            }
        }
        i = i + 1;
    }
    assert(ls.take(i as int) =~= ls);
    let ghost before = history_view(done@);
    match current {
        Some(e) => {
            let ghost ev = entry_view(e);
            done.push(e);
            assert(history_view(done@) =~= before.push(ev));
        },
        None => {},
    }
    Some(done)
}

proof fn lemma_log_failed_stays(
    tracks: Seq<Seq<char>>,
    skip_files: Seq<Seq<char>>,
    lines: Seq<Seq<char>>,
    i: int,
)
    requires
        0 <= i <= lines.len(),
        log_state(tracks, skip_files, lines.take(i)) is None,
    ensures
        log_state(tracks, skip_files, lines) is None,
    decreases lines.len() - i,
{
    if i < lines.len() {
        assert(lines.take(i + 1).drop_last() =~= lines.take(i));
        lemma_log_failed_stays(tracks, skip_files, lines, i + 1);
    } else {
        assert(lines.take(i) =~= lines);
    }
}

// ---------------------------------------------------------------------------
// The blobs of `git cat-file --batch`
// ---------------------------------------------------------------------------

/// The text that bytes encode in UTF-8, `None` where they are not UTF-8.
pub uninterp spec fn utf8_decoded(b: Seq<u8>) -> Option<Seq<char>>;

/// Calls `std::str::from_utf8`; the result is named `utf8_decoded`.
#[verifier::external_body]
fn utf8_text(bytes: &[u8]) -> (r: Option<String>)
    ensures
        match r {
            Some(t) => utf8_decoded(bytes@) == Some(t@),
            None => utf8_decoded(bytes@) is None,
        },
{
    std::str::from_utf8(bytes).ok().map(|t| t.to_string())
}

/// `usize::from_str`: an optional `+`, then at least one decimal digit, the
/// value fitting in a `usize`.
pub open spec fn parsed_usize(s: Seq<char>) -> Option<int> {
    let d = if s.len() > 0 && s[0] == '+' {
        s.drop_first()
    } else {
        s
    };
    if d.len() > 0 && crate::routine::all_digits(d) && crate::routine::digits_value(d) <= usize::MAX {
        Some(crate::routine::digits_value(d))
    } else {
        None
    }
}

fn parse_usize(s: &Vec<char>) -> (r: Option<usize>)
    ensures
        match r {
            Some(v) => parsed_usize(s@) == Some(v as int),
            None => parsed_usize(s@) is None,
        },
{
    let start: usize = if s.len() > 0 && s[0] == '+' {
        1
    } else {
        0
    };
    let d = slice(s, start, s.len());
    assert(d@ =~= (if s@.len() > 0 && s@[0] == '+' {
        s@.drop_first()
    } else {
        s@
    }));
    if d.len() == 0 {
        return None;
    }
    let ghost dd = d@;
    let mut v: usize = 0;
    let mut i: usize = 0;
    assert(d@.subrange(0, 0) =~= Seq::<char>::empty());
    while i < d.len()
        invariant
            i <= d.len(),
            dd == d@,
            dd.len() > 0,
            parsed_usize(s@) == (if crate::routine::all_digits(dd) && crate::routine::digits_value(dd)
                <= usize::MAX {
                Some(crate::routine::digits_value(dd))
            } else {
                None
            }),
            crate::routine::all_digits(d@.subrange(0, i as int)),
            v as int == crate::routine::digits_value(d@.subrange(0, i as int)),
        decreases d.len() - i,
    {
        let c = d[i];
        assert(d@.subrange(0, i + 1).drop_last() =~= d@.subrange(0, i as int));
        if !('0' <= c && c <= '9') {
            assert(!crate::routine::all_digits(d@)) by {
                assert(d@[i as int] == c);
            }
            return None;
        }
        let dv: usize = ((c as u32) - ('0' as u32)) as usize;
        if v > (usize::MAX - dv) / 10 {
            proof {
                assert(crate::routine::all_digits(d@.subrange(0, i + 1)));
                assert(dv <= 9);
                assert(v * 10 + dv > usize::MAX) by (nonlinear_arith)
                    requires
                        v > (usize::MAX - dv) / 10,
                        dv <= 9,
                ;
                assert(crate::routine::digits_value(d@.subrange(0, i + 1)) == v * 10 + dv);
                if crate::routine::all_digits(d@) {
                    crate::routine::lemma_digits_value_grows(d@, i + 1);
                }
            }
            return None;
        }
        proof {
            assert(v * 10 + dv <= usize::MAX) by (nonlinear_arith)
                requires
                    v <= (usize::MAX - dv) / 10,
                    dv <= 9,
            ;
        }
        v = v * 10 + dv;
        i = i + 1;
    }
    assert(d@.subrange(0, d.len() as int) =~= d@);
    Some(v)
}

/// The position of the first newline at or after `k`, or -1.
pub open spec fn newline_from(b: Seq<u8>, k: int) -> int
    decreases b.len() - k,
{
    if k < 0 || k >= b.len() {
        -1
    } else if b[k] == 10 {
        k
    } else {
        newline_from(b, k + 1)
    }
}

/// The position of the last `c` in `s`, or -1.
pub open spec fn last_index_of(s: Seq<char>, c: char) -> int
    decreases s.len(),
{
    if s.len() == 0 {
        -1
    } else if s.last() == c {
        s.len() - 1
    } else {
        last_index_of(s.drop_last(), c)
    }
}

pub open spec fn with_prefix<A>(pre: Seq<A>, rest: Option<Seq<A>>) -> Option<Seq<A>> {
    match rest {
        Some(r) => Some(pre + r),
        None => None,
    }
}

/// The blobs of a `git cat-file --batch` answer from `cursor`, `remaining`
/// of them. Each starts with a header line: `<object> missing` gives no
/// text; else `<oid> <type> <size>`, whose size must read; an object other
/// than a blob gives no text, and a blob's `size` bytes follow, with one
/// newline after them, giving their text when it is UTF-8. The answer fails
/// where a header has no newline or is not UTF-8, or where the bytes run out.
pub open spec fn batch_from(b: Seq<u8>, cursor: int, remaining: nat) -> Option<
    Seq<Option<Seq<char>>>,
>
    decreases remaining,
{
    if remaining == 0 {
        Some(Seq::empty())
    } else {
        let nl = newline_from(b, cursor);
        if nl < 0 {
            None
        } else {
            match utf8_decoded(b.subrange(cursor, nl)) {
                None => None,
                Some(h) => {
                    let next = nl + 1;
                    let rest = (remaining - 1) as nat;
                    if ends_with(h, " missing"@) {
                        with_prefix(seq![None], batch_from(b, next, rest))
                    } else {
                        let sp = last_index_of(h, ' ');
                        match parsed_usize(h.skip(sp + 1)) {
                            None => None,
                            Some(size) => if sp < 0 {
                                None
                            } else if h.subrange(last_index_of(h.take(sp), ' ') + 1, sp)
                                != "blob"@ {
                                with_prefix(seq![None], batch_from(b, next, rest))
                            } else if next + size > b.len() {
                                None
                            } else {
                                let end = next + size;
                                let after = if end < b.len() && b[end] == 10 {
                                    end + 1
                                } else {
                                    end
                                };
                                with_prefix(
                                    seq![utf8_decoded(b.subrange(next, end))],
                                    batch_from(b, after, rest),
                                )
                            },
                        }
                    }
                },
            }
        }
    }
}

pub open spec fn blobs_view(v: Seq<Option<String>>) -> Seq<Option<Seq<char>>> {
    v.map_values(|o: Option<String>| crate::project::opt_view(o))
}

fn bytes_between(b: &[u8], start: usize, end: usize) -> (r: Vec<u8>)
    requires
        start <= end <= b@.len(),
    ensures
        r@ == b@.subrange(start as int, end as int),
{
    let mut r: Vec<u8> = Vec::new();
    let mut i = start;
    while i < end
        invariant
            start <= i <= end,
            end <= b@.len(),
            r@ == b@.subrange(start as int, i as int),
        decreases end - i,
    {
        r.push(b[i]);
        i = i + 1;
        assert(r@ =~= b@.subrange(start as int, i as int));
    }
    r
}

fn last_space(s: &Vec<char>, end: usize) -> (r: Option<usize>)
    requires
        end <= s@.len(),
    ensures
        match r {
            Some(k) => k < end && last_index_of(s@.take(end as int), ' ') == k as int,
            None => last_index_of(s@.take(end as int), ' ') == -1,
        },
{
    let mut k = end;
    while k > 0
        invariant
            k <= end,
            end <= s@.len(),
            last_index_of(s@.take(end as int), ' ') == last_index_of(s@.take(k as int), ' '),
        decreases k,
    {
        assert(s@.take(k as int).drop_last() =~= s@.take(k - 1));
        if s[k - 1] == ' ' {
            return Some(k - 1);
        }
        k = k - 1;
    }
    None
}

/// Read the answer of `git cat-file --batch` to `expected` requests: the text
/// of each blob, in request order.
pub fn parse_cat_file_batch(output: &[u8], expected: usize) -> (r: Option<Vec<Option<String>>>)
    ensures
        match r {
            Some(v) => batch_from(output@, 0, expected as nat) == Some(blobs_view(v@)),
            None => batch_from(output@, 0, expected as nat) is None,
        },
{
    let ghost b = output@;
    let mut cursor: usize = 0;
    let mut blobs: Vec<Option<String>> = Vec::new();
    while blobs.len() < expected
        invariant
            b == output@,
            cursor <= b.len(),
            blobs.len() <= expected,
            batch_from(b, 0, expected as nat) == with_prefix(
                blobs_view(blobs@),
                batch_from(b, cursor as int, (expected - blobs.len()) as nat),
            ),
        decreases expected - blobs.len(),
    {
        let ghost pre = blobs_view(blobs@);
        let ghost rem = (expected - blobs.len()) as nat;
        let mut nl = cursor;
        while nl < output.len() && output[nl] != 10
            invariant
                cursor <= nl <= b.len(),
                b == output@,
                newline_from(b, cursor as int) == newline_from(b, nl as int),
            decreases b.len() - nl,
        {
            nl = nl + 1;
        }
        if nl >= output.len() {
            assert(batch_from(b, cursor as int, rem) is None);
            return None;
        }
        let header_bytes = bytes_between(output, cursor, nl);
        let header = match utf8_text(header_bytes.as_slice()) {
            Some(h) => chars_of(h.as_str()),
            None => {
                return None;
            },
        };
        let next = nl + 1;
        if has_suffix(&header, &chars_of(" missing")) {
            blobs.push(None);
            cursor = next;
            assert(blobs_view(blobs@) =~= pre + seq![None]);
            assert(with_prefix(pre, with_prefix(seq![None], batch_from(b, cursor as int, (rem - 1) as nat)))
                == with_prefix(pre + seq![None], batch_from(b, cursor as int, (rem - 1) as nat)));
            continue;
        }
        let sp = last_space(&header, header.len());
        assert(header@.take(header.len() as int) =~= header@);
        let size_start: usize = match sp {
            Some(k) => k + 1,
            None => 0,
        };
        let size_text = slice(&header, size_start, header.len());
        assert(size_text@ =~= header@.skip(last_index_of(header@, ' ') + 1));
        let size = match parse_usize(&size_text) {
            Some(n) => n,
            None => {
                return None;
            },
        };
        let k = match sp {
            Some(k) => k,
            None => {
                return None;
            },
        };
        let sp2 = last_space(&header, k);
        let type_start: usize = match sp2 {
            Some(j) => j + 1,
            None => 0,
        };
        let object_type = slice(&header, type_start, k);
        assert(object_type@ =~= header@.subrange(last_index_of(header@.take(k as int), ' ') + 1, k as int));
        if !eq(&object_type, &chars_of("blob")) {
            blobs.push(None);
            cursor = next;
            assert(blobs_view(blobs@) =~= pre + seq![None]);
            assert(with_prefix(pre, with_prefix(seq![None], batch_from(b, cursor as int, (rem - 1) as nat)))
                == with_prefix(pre + seq![None], batch_from(b, cursor as int, (rem - 1) as nat)));
            continue;
        }
        if size > output.len() - next {
            return None;
        }
        let end = next + size;
        let content = bytes_between(output, next, end);
        let text = utf8_text(content.as_slice());
        cursor = if end < output.len() && output[end] == 10 {
            end + 1
        } else {
            end
        };
        let ghost tv = crate::project::opt_view(text);
        blobs.push(text);
        assert(blobs_view(blobs@) =~= pre + seq![tv]);
        assert(with_prefix(pre, with_prefix(seq![tv], batch_from(b, cursor as int, (rem - 1) as nat)))
            == with_prefix(pre + seq![tv], batch_from(b, cursor as int, (rem - 1) as nat)));
    }
    assert(blobs_view(blobs@) + Seq::<Option<Seq<char>>>::empty() =~= blobs_view(blobs@));
    Some(blobs)
}

// ---------------------------------------------------------------------------
// Stable insertion order
// ---------------------------------------------------------------------------

/// `x` placed after every element it does not sort before (so after its equals).
pub open spec fn insert_by<A>(s: Seq<A>, x: A, lt: spec_fn(A, A) -> bool) -> Seq<A>
    decreases s.len(),
{
    if s.len() == 0 {
        seq![x]
    } else if lt(x, s[0]) {
        seq![x] + s
    } else {
        seq![s[0]] + insert_by(s.drop_first(), x, lt)
    }
}

/// A stable sort: each element in turn placed after the earlier ones that do
/// not sort after it.
pub open spec fn sort_by<A>(s: Seq<A>, lt: spec_fn(A, A) -> bool) -> Seq<A>
    decreases s.len(),
{
    if s.len() == 0 {
        s
    } else {
        insert_by(sort_by(s.drop_last(), lt), s.last(), lt)
    }
}

pub proof fn lemma_insert_by_at<A>(s: Seq<A>, x: A, lt: spec_fn(A, A) -> bool, k: int)
    requires
        0 <= k <= s.len(),
        forall|j: int| 0 <= j < k ==> !lt(x, #[trigger] s[j]),
        k < s.len() ==> lt(x, s[k]),
    ensures
        insert_by(s, x, lt) == s.take(k).push(x) + s.skip(k),
    decreases k,
{
    if k == 0 {
        assert(s.take(0).push(x) + s.skip(0) =~= seq![x] + s);
        if s.len() == 0 {
            assert(seq![x] + s =~= seq![x]);
        }
    } else {
        let t = s.drop_first();
        assert forall|j: int| 0 <= j < k - 1 implies !lt(x, #[trigger] t[j]) by {
            assert(t[j] == s[j + 1]);
        }
        lemma_insert_by_at(t, x, lt, k - 1);
        assert(s.take(k).push(x) + s.skip(k) =~= seq![s[0]] + (t.take(k - 1).push(x) + t.skip(
            k - 1,
        )));
    }
}

/// Where `insert_by` puts `x`: after the leading elements it does not sort
/// before, right before the first one it does.
pub proof fn lemma_insert_by_position<A>(s: Seq<A>, x: A, lt: spec_fn(A, A) -> bool) -> (k: int)
    ensures
        0 <= k <= s.len(),
        forall|j: int| 0 <= j < k ==> !lt(x, #[trigger] s[j]),
        k < s.len() ==> lt(x, s[k]),
        insert_by(s, x, lt) == s.insert(k, x),
    decreases s.len(),
{
    if s.len() == 0 {
        assert(s.insert(0, x) =~= seq![x]);
        0
    } else if lt(x, s[0]) {
        assert(s.insert(0, x) =~= seq![x] + s);
        0
    } else {
        let t = s.drop_first();
        let k = lemma_insert_by_position(t, x, lt);
        assert forall|j: int| 0 <= j < k + 1 implies !lt(x, #[trigger] s[j]) by {
            if j > 0 {
                assert(s[j] == t[j - 1]);
            }
        }
        assert(seq![s[0]] + t.insert(k, x) =~= s.insert(k + 1, x));
        k + 1
    }
}

/// No later element sorts before an earlier one.
pub open spec fn sorted_by<A>(s: Seq<A>, lt: spec_fn(A, A) -> bool) -> bool {
    forall|i: int, j: int| 0 <= i < j < s.len() ==> !lt(#[trigger] s[j], #[trigger] s[i])
}

/// `lt` is a strict order: irreflexive and transitive.
pub open spec fn strict_order<A>(lt: spec_fn(A, A) -> bool) -> bool {
    &&& forall|a: A| !#[trigger] lt(a, a)
    &&& forall|a: A, b: A, c: A| #[trigger] lt(a, b) && #[trigger] lt(b, c) ==> lt(a, c)
}

/// Sorting keeps every element, as many times as it occurs, whatever is
/// looked at of them.
pub proof fn lemma_sort_by_keeps<A, B>(s: Seq<A>, lt: spec_fn(A, A) -> bool, f: spec_fn(A) -> B)
    ensures
        sort_by(s, lt).len() == s.len(),
        sort_by(s, lt).map_values(f).to_multiset() == s.map_values(f).to_multiset(),
    decreases s.len(),
{
    broadcast use vstd::seq_lib::group_to_multiset_ensures;
    if s.len() > 0 {
        let p = s.drop_last();
        let x = s.last();
        lemma_sort_by_keeps(p, lt, f);
        let q = sort_by(p, lt);
        let k = lemma_insert_by_position(q, x, lt);
        assert(q.insert(k, x).map_values(f) =~= q.map_values(f).insert(k, f(x)));
        assert(s.map_values(f) =~= p.map_values(f).push(f(x)));
    }
}

/// With a strict order, sorting leaves no later element before an earlier one.
pub proof fn lemma_sort_by_sorted<A>(s: Seq<A>, lt: spec_fn(A, A) -> bool)
    requires
        strict_order(lt),
    ensures
        sorted_by(sort_by(s, lt), lt),
    decreases s.len(),
{
    if s.len() > 0 {
        let x = s.last();
        lemma_sort_by_sorted(s.drop_last(), lt);
        let q = sort_by(s.drop_last(), lt);
        let k = lemma_insert_by_position(q, x, lt);
        let r = q.insert(k, x);
        assert forall|i: int, j: int| 0 <= i < j < r.len() implies !lt(#[trigger] r[j], #[trigger] r[i]) by {
            if j < k {
                assert(r[i] == q[i] && r[j] == q[j]);
            } else if j == k {
                assert(r[i] == q[i]);
            } else if i > k {
                assert(r[i] == q[i - 1] && r[j] == q[j - 1]);
            } else if i == k {
                assert(r[j] == q[j - 1]);
                if lt(q[j - 1], x) {
                    assert(lt(q[j - 1], q[k]));
                    if j - 1 > k {
                        assert(!lt(q[j - 1], q[k]));
                    }
                }
            } else {
                assert(r[i] == q[i] && r[j] == q[j - 1]);
            }
        }
    }
}

// ---------------------------------------------------------------------------
// Rows of a snapshot
// ---------------------------------------------------------------------------

pub struct ProjectRow {
    pub file: Seq<char>,
    pub title: Seq<char>,
    pub track: Seq<char>,
    pub status: Seq<char>,
    pub waiting_since: Option<int>,
    pub deadline: Option<Seq<char>>,
    pub age_days: Option<int>,
}

impl View for TimelineProject {
    type V = ProjectRow;

    open spec fn view(&self) -> ProjectRow {
        ProjectRow {
            file: self.file@,
            title: self.title@,
            track: self.track@,
            status: self.status@,
            waiting_since: match self.waiting_since {
                Some(d) => Some(d as int),
                None => None,
            },
            deadline: crate::project::opt_view(self.deadline),
            age_days: match self.age_days {
                Some(a) => Some(a as int),
                None => None,
            },
        }
    }
}

pub open spec fn rows(v: Seq<TimelineProject>) -> Seq<ProjectRow> {
    v.map_values(|p: TimelineProject| p@)
}

/// Sorted by status, then track, then title, then file.
pub open spec fn row_lt(a: ProjectRow, b: ProjectRow) -> bool {
    lex_lt(a.status, b.status) || (a.status == b.status && (lex_lt(a.track, b.track) || (a.track
        == b.track && (lex_lt(a.title, b.title) || (a.title == b.title && lex_lt(a.file, b.file))))))
}

pub open spec fn row_order() -> spec_fn(ProjectRow, ProjectRow) -> bool {
    |a: ProjectRow, b: ProjectRow| row_lt(a, b)
}

fn copy_text(s: &String) -> (r: String)
    ensures
        r@ == s@,
{
    string_of(&chars_of(s.as_str()))
}

fn copy_opt_text(s: &Option<String>) -> (r: Option<String>)
    ensures
        crate::project::opt_view(r) == crate::project::opt_view(*s),
{
    match s {
        Some(t) => Some(copy_text(t)),
        None => None,
    }
}

fn copy_row(p: &TimelineProject) -> (r: TimelineProject)
    ensures
        r@ == p@,
{
    TimelineProject {
        file: copy_text(&p.file),
        title: copy_text(&p.title),
        track: copy_text(&p.track),
        status: copy_text(&p.status),
        waiting_since: p.waiting_since,
        deadline: copy_opt_text(&p.deadline),
        age_days: p.age_days,
    }
}

fn row_less(a: &TimelineProject, b: &TimelineProject) -> (r: bool)
    ensures
        r == row_lt(a@, b@),
{
    let (sa, sb) = (chars_of(a.status.as_str()), chars_of(b.status.as_str()));
    if lex_less(&sa, &sb) {
        return true;
    }
    if !eq(&sa, &sb) {
        return false;
    }
    let (ta, tb) = (chars_of(a.track.as_str()), chars_of(b.track.as_str()));
    if lex_less(&ta, &tb) {
        return true;
    }
    if !eq(&ta, &tb) {
        return false;
    }
    let (na, nb) = (chars_of(a.title.as_str()), chars_of(b.title.as_str()));
    if lex_less(&na, &nb) {
        return true;
    }
    if !eq(&na, &nb) {
        return false;
    }
    lex_less(&chars_of(a.file.as_str()), &chars_of(b.file.as_str()))
}

/// Sort rows as `sort_by` on status, track, title and file does.
pub fn sort_rows(v: Vec<TimelineProject>) -> (r: Vec<TimelineProject>)
    ensures
        rows(r@) == sort_by(rows(v@), row_order()),
{
    let mut r: Vec<TimelineProject> = Vec::new();
    let mut i: usize = 0;
    while i < v.len()
        invariant
            i <= v.len(),
            rows(r@) == sort_by(rows(v@).take(i as int), row_order()),
        decreases v.len() - i,
    {
        let x = copy_row(&v[i]);
        let ghost xv = v@[i as int]@;
        let ghost s = rows(r@);
        let mut k: usize = 0;
        while k < r.len() && !row_less(&x, &r[k])
            invariant
                k <= r.len(),
                s == rows(r@),
                x@ == xv,
                forall|j: int| 0 <= j < k ==> !row_lt(xv, #[trigger] s[j]),
            decreases r.len() - k,
        {
            k = k + 1;
        }
        proof {
            lemma_insert_by_at(s, xv, row_order(), k as int);
        }
        r.insert(k, x);
        assert(rows(r@) =~= s.take(k as int).push(xv) + s.skip(k as int));
        assert(rows(v@).take(i + 1).drop_last() =~= rows(v@).take(i as int));
        assert(rows(v@).take(i + 1).last() == xv);
        i = i + 1;
    }
    assert(rows(v@).take(i as int) =~= rows(v@));
    r
}

/// The row of a project, before its age is known.
pub open spec fn row_of(p: Project) -> ProjectRow {
    ProjectRow {
        file: p.file@,
        title: p.title@,
        track: p.track@,
        status: p.status@,
        waiting_since: match p.waiting_since {
            Some(d) => Some(d as int),
            None => None,
        },
        deadline: crate::project::opt_view(p.deadline),
        age_days: None,
    }
}

/// The rows of the projects on the plate, in the given order.
pub open spec fn load_rows(ps: Seq<Project>) -> Seq<ProjectRow>
    decreases ps.len(),
{
    if ps.len() == 0 {
        seq![]
    } else if load_status(ps.last().status@) {
        load_rows(ps.drop_last()).push(row_of(ps.last()))
    } else {
        load_rows(ps.drop_last())
    }
}

pub fn project_row(p: &Project) -> (r: TimelineProject)
    ensures
        r@ == row_of(*p),
{
    TimelineProject {
        file: copy_text(&p.file),
        title: copy_text(&p.title),
        track: copy_text(&p.track),
        status: copy_text(&p.status),
        waiting_since: p.waiting_since,
        deadline: copy_opt_text(&p.deadline),
        age_days: None,
    }
}

/// The projects on the plate, sorted by status, track, title and file.
pub fn timeline_projects(projects: &Vec<Project>) -> (r: Vec<TimelineProject>)
    ensures
        rows(r@) == sort_by(load_rows(projects@), row_order()),
{
    let mut kept: Vec<TimelineProject> = Vec::new();
    let mut i: usize = 0;
    while i < projects.len()
        invariant
            i <= projects.len(),
            rows(kept@) == load_rows(projects@.take(i as int)),
        decreases projects.len() - i,
    {
        assert(projects@.take(i + 1).drop_last() =~= projects@.take(i as int));
        assert(projects@.take(i + 1).last() == projects@[i as int]);
        if is_load_status(projects[i].status.as_str()) {
            let row = project_row(&projects[i]);
            let ghost before = rows(kept@);
            kept.push(row);
            assert(rows(kept@) =~= before.push(row_of(projects@[i as int])));
        }
        i = i + 1;
    }
    assert(projects@.take(i as int) =~= projects@);
    sort_rows(kept)
}

// ---------------------------------------------------------------------------
// Outflow
// ---------------------------------------------------------------------------

pub struct OutflowRow {
    pub track: Seq<char>,
    pub status: Seq<char>,
    pub count: int,
}

impl View for TimelineOutflow {
    type V = OutflowRow;

    open spec fn view(&self) -> OutflowRow {
        OutflowRow { track: self.track@, status: self.status@, count: self.count as int }
    }
}

pub open spec fn outflow_rows(v: Seq<TimelineOutflow>) -> Seq<OutflowRow> {
    v.map_values(|o: TimelineOutflow| o@)
}

/// `n` more for the track and status: added to their row, or a new row at the end.
pub open spec fn tallied(s: Seq<OutflowRow>, track: Seq<char>, status: Seq<char>, n: int) -> Seq<
    OutflowRow,
>
    decreases s.len(),
{
    if s.len() == 0 {
        seq![OutflowRow { track, status, count: n }]
    } else if s[0].track == track && s[0].status == status {
        seq![OutflowRow { track, status, count: s[0].count + n }] + s.drop_first()
    } else {
        seq![s[0]] + tallied(s.drop_first(), track, status, n)
    }
}

/// Every row's count added up by track and status, in order of first appearance.
pub open spec fn tally_all(items: Seq<OutflowRow>) -> Seq<OutflowRow>
    decreases items.len(),
{
    if items.len() == 0 {
        seq![]
    } else {
        let x = items.last();
        tallied(tally_all(items.drop_last()), x.track, x.status, x.count)
    }
}

pub open spec fn total_count(items: Seq<OutflowRow>) -> int
    decreases items.len(),
{
    if items.len() == 0 {
        0
    } else {
        total_count(items.drop_last()) + items.last().count
    }
}

/// Sorted by status, then track.
pub open spec fn outflow_lt(a: OutflowRow, b: OutflowRow) -> bool {
    lex_lt(a.status, b.status) || (a.status == b.status && lex_lt(a.track, b.track))
}

pub open spec fn outflow_order() -> spec_fn(OutflowRow, OutflowRow) -> bool {
    |a: OutflowRow, b: OutflowRow| outflow_lt(a, b)
}

proof fn lemma_tallied_at(s: Seq<OutflowRow>, track: Seq<char>, status: Seq<char>, n: int, k: int)
    requires
        0 <= k <= s.len(),
        forall|j: int| 0 <= j < k ==> !(#[trigger] s[j].track == track && s[j].status == status),
        k < s.len() ==> s[k].track == track && s[k].status == status,
    ensures
        k < s.len() ==> tallied(s, track, status, n) == s.update(
            k,
            OutflowRow { track, status, count: s[k].count + n },
        ),
        k == s.len() ==> tallied(s, track, status, n) == s.push(OutflowRow { track, status, count: n }),
    decreases k,
{
    if k > 0 {
        let t = s.drop_first();
        assert forall|j: int| 0 <= j < k - 1 implies !(#[trigger] t[j].track == track && t[j].status
            == status) by {
            assert(t[j] == s[j + 1]);
        }
        lemma_tallied_at(t, track, status, n, k - 1);
        if k < s.len() {
            assert(s.update(k, OutflowRow { track, status, count: s[k].count + n }) =~= seq![s[0]]
                + t.update(k - 1, OutflowRow { track, status, count: t[k - 1].count + n }));
        } else {
            assert(s.push(OutflowRow { track, status, count: n }) =~= seq![s[0]] + t.push(
                OutflowRow { track, status, count: n },
            ));
        }
    } else {
        if s.len() > 0 {
            assert(s.update(0, OutflowRow { track, status, count: s[0].count + n }) =~= seq![
                OutflowRow { track, status, count: s[0].count + n },
            ] + s.drop_first());
        } else {
            assert(s.push(OutflowRow { track, status, count: n }) =~= seq![
                OutflowRow { track, status, count: n },
            ]);
        }
    }
}

/// Add `n` to the count of a track and status.
pub fn tally(v: &mut Vec<TimelineOutflow>, track: &str, status: &str, n: usize)
    requires
        forall|j: int| 0 <= j < old(v)@.len() ==> (#[trigger] old(v)@[j]).count + n <= usize::MAX,
    ensures
        outflow_rows(final(v)@) == tallied(outflow_rows(old(v)@), track@, status@, n as int),
{
    let ghost s = outflow_rows(v@);
    let t = chars_of(track);
    let st = chars_of(status);
    let mut k: usize = 0;
    while k < v.len() && !(eq(&chars_of(v[k].track.as_str()), &t) && eq(
        &chars_of(v[k].status.as_str()),
        &st,
    ))
        invariant
            k <= v.len(),
            s == outflow_rows(v@),
            t@ == track@,
            st@ == status@,
            forall|j: int| 0 <= j < k ==> !(#[trigger] s[j].track == track@ && s[j].status == status@),
        decreases v.len() - k,
    {
        k = k + 1;
    }
    proof {
        lemma_tallied_at(s, track@, status@, n as int, k as int);
    }
    if k < v.len() {
        let c = v[k].count + n;
        v.set(k, TimelineOutflow { track: string_of(&t), status: string_of(&st), count: c });
        assert(outflow_rows(v@) =~= s.update(k as int, OutflowRow { track: track@, status: status@, count: s[k as int].count + n }));
    } else {
        v.push(TimelineOutflow { track: string_of(&t), status: string_of(&st), count: n });
        assert(outflow_rows(v@) =~= s.push(OutflowRow { track: track@, status: status@, count: n as int }));
    }
}

fn copy_outflow(o: &TimelineOutflow) -> (r: TimelineOutflow)
    ensures
        r@ == o@,
{
    TimelineOutflow { track: copy_text(&o.track), status: copy_text(&o.status), count: o.count }
}

fn outflow_less(a: &TimelineOutflow, b: &TimelineOutflow) -> (r: bool)
    ensures
        r == outflow_lt(a@, b@),
{
    let (sa, sb) = (chars_of(a.status.as_str()), chars_of(b.status.as_str()));
    if lex_less(&sa, &sb) {
        return true;
    }
    if !eq(&sa, &sb) {
        return false;
    }
    lex_less(&chars_of(a.track.as_str()), &chars_of(b.track.as_str()))
}

/// The tallied outflow sorted by status, then track.
pub fn timeline_outflow(v: &Vec<TimelineOutflow>) -> (r: Vec<TimelineOutflow>)
    ensures
        outflow_rows(r@) == sort_by(outflow_rows(v@), outflow_order()),
{
    let mut r: Vec<TimelineOutflow> = Vec::new();
    let mut i: usize = 0;
    while i < v.len()
        invariant
            i <= v.len(),
            outflow_rows(r@) == sort_by(outflow_rows(v@).take(i as int), outflow_order()),
        decreases v.len() - i,
    {
        let x = copy_outflow(&v[i]);
        let ghost xv = v@[i as int]@;
        let ghost s = outflow_rows(r@);
        let mut k: usize = 0;
        while k < r.len() && !outflow_less(&x, &r[k])
            invariant
                k <= r.len(),
                s == outflow_rows(r@),
                x@ == xv,
                forall|j: int| 0 <= j < k ==> !outflow_lt(xv, #[trigger] s[j]),
            decreases r.len() - k,
        {
            k = k + 1;
        }
        proof {
            lemma_insert_by_at(s, xv, outflow_order(), k as int);
        }
        r.insert(k, x);
        assert(outflow_rows(r@) =~= s.take(k as int).push(xv) + s.skip(k as int));
        assert(outflow_rows(v@).take(i + 1).drop_last() =~= outflow_rows(v@).take(i as int));
        assert(outflow_rows(v@).take(i + 1).last() == xv);
        i = i + 1;
    }
    assert(outflow_rows(v@).take(i as int) =~= outflow_rows(v@));
    r
}

proof fn lemma_tallied_bound(s: Seq<OutflowRow>, track: Seq<char>, status: Seq<char>, n: int, b: int)
    requires
        n >= 0,
        b >= 0,
        forall|j: int| 0 <= j < s.len() ==> (#[trigger] s[j]).count <= b,
    ensures
        forall|j: int| 0 <= j < tallied(s, track, status, n).len() ==> (#[trigger] tallied(s, track, status, n)[j]).count <= b + n,
    decreases s.len(),
{
    let t = tallied(s, track, status, n);
    if s.len() == 0 {
    } else if s[0].track == track && s[0].status == status {
        assert forall|j: int| 0 <= j < t.len() implies (#[trigger] t[j]).count <= b + n by {
            if j > 0 {
                assert(t[j] == s[j]);
            }
        }
    } else {
        lemma_tallied_bound(s.drop_first(), track, status, n, b);
        assert forall|j: int| 0 <= j < t.len() implies (#[trigger] t[j]).count <= b + n by {
            if j > 0 {
                assert(t[j] == tallied(s.drop_first(), track, status, n)[j - 1]);
            }
        }
    }
}

/// Every count of a tally is at most the sum of the counts that went in.
proof fn lemma_tally_all_bound(items: Seq<OutflowRow>)
    requires
        forall|j: int| 0 <= j < items.len() ==> (#[trigger] items[j]).count >= 0,
    ensures
        total_count(items) >= 0,
        forall|j: int| 0 <= j < tally_all(items).len() ==> (#[trigger] tally_all(items)[j]).count <= total_count(items),
    decreases items.len(),
{
    if items.len() > 0 {
        let p = items.drop_last();
        assert forall|j: int| 0 <= j < p.len() implies (#[trigger] p[j]).count >= 0 by {
            assert(p[j] == items[j]);
        }
        lemma_tally_all_bound(p);
        let x = items.last();
        lemma_tallied_bound(tally_all(p), x.track, x.status, x.count, total_count(p));
    }
}

/// The outflow of two snapshots of one day, added up and sorted.
pub fn merge_outflow(left: &Vec<TimelineOutflow>, right: &Vec<TimelineOutflow>) -> (r: Vec<TimelineOutflow>)
    requires
        total_count(outflow_rows(left@) + outflow_rows(right@)) <= usize::MAX,
    ensures
        outflow_rows(r@) == sort_by(tally_all(outflow_rows(left@) + outflow_rows(right@)), outflow_order()),
{
    let ghost items = outflow_rows(left@) + outflow_rows(right@);
    let mut counts: Vec<TimelineOutflow> = Vec::new();
    let mut i: usize = 0;
    while i < left.len()
        invariant
            i <= left.len(),
            items == outflow_rows(left@) + outflow_rows(right@),
            total_count(items) <= usize::MAX,
            outflow_rows(counts@) == tally_all(items.take(i as int)),
        decreases left.len() - i,
    {
        assert(left@[i as int]@ == items[i as int]);
        tally_step(&mut counts, &left[i], Ghost(items), Ghost(i as int));
        i = i + 1;
    }
    let mut k: usize = 0;
    while k < right.len()
        invariant
            k <= right.len(),
            i == left.len(),
            items == outflow_rows(left@) + outflow_rows(right@),
            total_count(items) <= usize::MAX,
            outflow_rows(counts@) == tally_all(items.take(i + k)),
        decreases right.len() - k,
    {
        assert(right@[k as int]@ == items[i + k]);
        tally_step(&mut counts, &right[k], Ghost(items), Ghost(i + k));
        k = k + 1;
    }
    assert(items.take(i + k) =~= items);
    timeline_outflow(&counts)
}

/// Tally the item at position `i` of `items` onto the tally of those before it.
fn tally_step(counts: &mut Vec<TimelineOutflow>, item: &TimelineOutflow, items: Ghost<Seq<OutflowRow>>, i: Ghost<int>)
    requires
        0 <= i@ < items@.len(),
        item@ == items@[i@],
        total_count(items@) <= usize::MAX,
        forall|j: int| 0 <= j < items@.len() ==> (#[trigger] items@[j]).count >= 0,
        outflow_rows(old(counts)@) == tally_all(items@.take(i@)),
    ensures
        outflow_rows(final(counts)@) == tally_all(items@.take(i@ + 1)),
{
    let ghost p = items@.take(i@);
    proof {
        assert(items@.take(i@ + 1).drop_last() =~= p);
        assert(items@.take(i@ + 1).last() == items@[i@]);
        lemma_total_prefix(items@, i@ + 1);
        assert forall|j: int| 0 <= j < p.len() implies (#[trigger] p[j]).count >= 0 by {}
        lemma_tally_all_bound(p);
        assert(total_count(items@.take(i@ + 1)) == total_count(p) + item.count as int);
        assert forall|j: int| 0 <= j < counts@.len() implies (#[trigger] counts@[j]).count + item.count
            <= usize::MAX by {
            assert(outflow_rows(counts@)[j] == counts@[j]@);
        }
    }
    tally(counts, item.track.as_str(), item.status.as_str(), item.count);
}

proof fn lemma_total_prefix(items: Seq<OutflowRow>, k: int)
    requires
        0 <= k <= items.len(),
        forall|j: int| 0 <= j < items.len() ==> (#[trigger] items[j]).count >= 0,
    ensures
        total_count(items.take(k)) <= total_count(items),
    decreases items.len() - k,
{
    if k < items.len() {
        lemma_total_prefix(items, k + 1);
        assert(items.take(k + 1).drop_last() =~= items.take(k));
    } else {
        assert(items.take(k) =~= items);
    }
}

proof fn lemma_total_cons(a: OutflowRow, s: Seq<OutflowRow>)
    ensures
        total_count(seq![a] + s) == a.count + total_count(s),
    decreases s.len(),
{
    if s.len() > 0 {
        lemma_total_cons(a, s.drop_last());
        assert((seq![a] + s).drop_last() =~= seq![a] + s.drop_last());
    } else {
        assert((seq![a] + s).drop_last() =~= s);
    }
}

proof fn lemma_tallied_total(s: Seq<OutflowRow>, track: Seq<char>, status: Seq<char>, n: int)
    ensures
        total_count(tallied(s, track, status, n)) == total_count(s) + n,
    decreases s.len(),
{
    if s.len() == 0 {
        lemma_total_cons(OutflowRow { track, status, count: n }, s);
        assert(seq![OutflowRow { track, status, count: n }] + s =~= seq![OutflowRow { track, status, count: n }]);
    } else {
        assert(s =~= seq![s[0]] + s.drop_first());
        lemma_total_cons(s[0], s.drop_first());
        if s[0].track == track && s[0].status == status {
            lemma_total_cons(OutflowRow { track, status, count: s[0].count + n }, s.drop_first());
        } else {
            lemma_tallied_total(s.drop_first(), track, status, n);
            lemma_total_cons(s[0], tallied(s.drop_first(), track, status, n));
        }
    }
}

/// Tallying keeps the sum of the counts.
pub proof fn lemma_tally_all_total(items: Seq<OutflowRow>)
    ensures
        total_count(tally_all(items)) == total_count(items),
    decreases items.len(),
{
    if items.len() > 0 {
        lemma_tally_all_total(items.drop_last());
        let x = items.last();
        lemma_tallied_total(tally_all(items.drop_last()), x.track, x.status, x.count);
    }
}

proof fn lemma_insert_total(s: Seq<OutflowRow>, x: OutflowRow, lt: spec_fn(OutflowRow, OutflowRow) -> bool)
    ensures
        total_count(insert_by(s, x, lt)) == total_count(s) + x.count,
    decreases s.len(),
{
    if s.len() == 0 {
        lemma_total_cons(x, s);
        assert(seq![x] + s =~= seq![x]);
    } else {
        assert(s =~= seq![s[0]] + s.drop_first());
        lemma_total_cons(s[0], s.drop_first());
        if lt(x, s[0]) {
            lemma_total_cons(x, s);
        } else {
            lemma_insert_total(s.drop_first(), x, lt);
            lemma_total_cons(s[0], insert_by(s.drop_first(), x, lt));
        }
    }
}

/// Sorting keeps the sum of the counts.
pub proof fn lemma_sort_total(s: Seq<OutflowRow>, lt: spec_fn(OutflowRow, OutflowRow) -> bool)
    ensures
        total_count(sort_by(s, lt)) == total_count(s),
    decreases s.len(),
{
    if s.len() > 0 {
        lemma_sort_total(s.drop_last(), lt);
        lemma_insert_total(sort_by(s.drop_last(), lt), s.last(), lt);
    }
}

proof fn lemma_total_append(a: Seq<OutflowRow>, b: Seq<OutflowRow>)
    ensures
        total_count(a + b) == total_count(a) + total_count(b),
    decreases b.len(),
{
    if b.len() == 0 {
        assert(a + b =~= a);
    } else {
        lemma_total_append(a, b.drop_last());
        assert((a + b).drop_last() =~= a + b.drop_last());
    }
}

proof fn lemma_counts_within_total(s: Seq<OutflowRow>)
    requires
        forall|j: int| 0 <= j < s.len() ==> (#[trigger] s[j]).count >= 0,
    ensures
        forall|j: int| 0 <= j < s.len() ==> (#[trigger] s[j]).count <= total_count(s),
        total_count(s) >= 0,
    decreases s.len(),
{
    if s.len() > 0 {
        let p = s.drop_last();
        assert forall|j: int| 0 <= j < p.len() implies (#[trigger] p[j]).count >= 0 by {
            assert(p[j] == s[j]);
        }
        lemma_counts_within_total(p);
        assert forall|j: int| 0 <= j < s.len() implies (#[trigger] s[j]).count <= total_count(s) by {
            if j < s.len() - 1 {
                assert(s[j] == p[j]);
            }
        }
    }
}

// ---------------------------------------------------------------------------
// Snapshots
// ---------------------------------------------------------------------------

pub struct SnapshotRow {
    pub date: int,
    pub projects: Seq<ProjectRow>,
    pub outflow: Seq<OutflowRow>,
}

impl View for TimelineSnapshot {
    type V = SnapshotRow;

    open spec fn view(&self) -> SnapshotRow {
        SnapshotRow {
            date: self.date as int,
            projects: rows(self.projects@),
            outflow: outflow_rows(self.outflow@),
        }
    }
}

pub open spec fn snapshot_rows(v: Seq<TimelineSnapshot>) -> Seq<SnapshotRow> {
    v.map_values(|s: TimelineSnapshot| s@)
}

/// Add a day's snapshot: a second snapshot of the last day replaces it and
/// its outflow is added to the last one's.
pub open spec fn pushed_daily(s: Seq<SnapshotRow>, x: SnapshotRow) -> Seq<SnapshotRow> {
    if s.len() > 0 && s.last().date == x.date {
        s.drop_last().push(
            SnapshotRow {
                outflow: sort_by(tally_all(s.last().outflow + x.outflow), outflow_order()),
                ..x
            },
        )
    } else {
        s.push(x)
    }
}

pub fn push_or_replace_daily_snapshot(snapshots: &mut Vec<TimelineSnapshot>, snapshot: TimelineSnapshot)
    requires
        old(snapshots)@.len() > 0 && old(snapshots)@.last().date == snapshot.date ==> total_count(
            outflow_rows(old(snapshots)@.last().outflow@) + outflow_rows(snapshot.outflow@),
        ) <= usize::MAX,
    ensures
        snapshot_rows(final(snapshots)@) == pushed_daily(snapshot_rows(old(snapshots)@), snapshot@),
{
    let ghost s = snapshot_rows(snapshots@);
    let n = snapshots.len();
    if n > 0 && snapshots[n - 1].date == snapshot.date {
        let merged = merge_outflow(&snapshots[n - 1].outflow, &snapshot.outflow);
        let ghost x = snapshot@;
        let replacement = TimelineSnapshot { date: snapshot.date, projects: snapshot.projects, outflow: merged };
        snapshots.set(n - 1, replacement);
        assert(snapshot_rows(snapshots@) =~= s.drop_last().push(
            SnapshotRow { outflow: sort_by(tally_all(s.last().outflow + x.outflow), outflow_order()), ..x },
        ));
    } else {
        let ghost x = snapshot@;
        snapshots.push(snapshot);
        assert(snapshot_rows(snapshots@) =~= s.push(x));
    }
}

/// Two snapshots show the same state: the same projects by file, track,
/// status and age, and the same outflow.
pub open spec fn same_state(a: SnapshotRow, b: SnapshotRow) -> bool {
    &&& a.projects.len() == b.projects.len()
    &&& forall|i: int| 0 <= i < a.projects.len() ==> {
        let (p, q) = (#[trigger] a.projects[i], b.projects[i]);
        p.file == q.file && p.track == q.track && p.status == q.status && p.age_days == q.age_days
    }
    &&& a.outflow == b.outflow
}

pub fn same_project_state(a: &TimelineSnapshot, b: &TimelineSnapshot) -> (r: bool)
    ensures
        r == same_state(a@, b@),
{
    if a.projects.len() != b.projects.len() {
        return false;
    }
    let mut i: usize = 0;
    while i < a.projects.len()
        invariant
            i <= a.projects.len(),
            a.projects.len() == b.projects.len(),
            forall|j: int| 0 <= j < i ==> {
                let (p, q) = (#[trigger] a@.projects[j], b@.projects[j]);
                p.file == q.file && p.track == q.track && p.status == q.status && p.age_days
                    == q.age_days
            },
        decreases a.projects.len() - i,
    {
        let (p, q) = (&a.projects[i], &b.projects[i]);
        assert(a@.projects[i as int] == p@ && b@.projects[i as int] == q@);
        if !(eq(&chars_of(p.file.as_str()), &chars_of(q.file.as_str())) && eq(
            &chars_of(p.track.as_str()),
            &chars_of(q.track.as_str()),
        ) && eq(&chars_of(p.status.as_str()), &chars_of(q.status.as_str())) && p.age_days
            == q.age_days) {
            return false;
        }
        i = i + 1;
    }
    if a.outflow.len() != b.outflow.len() {
        assert(a@.outflow.len() != b@.outflow.len());
        return false;
    }
    let mut k: usize = 0;
    while k < a.outflow.len()
        invariant
            k <= a.outflow.len(),
            a.outflow.len() == b.outflow.len(),
            forall|j: int| 0 <= j < k ==> #[trigger] a@.outflow[j] == b@.outflow[j],
        decreases a.outflow.len() - k,
    {
        let (p, q) = (&a.outflow[k], &b.outflow[k]);
        assert(a@.outflow[k as int] == p@ && b@.outflow[k as int] == q@);
        if !(eq(&chars_of(p.track.as_str()), &chars_of(q.track.as_str())) && eq(
            &chars_of(p.status.as_str()),
            &chars_of(q.status.as_str()),
        ) && p.count == q.count) {
            return false;
        }
        k = k + 1;
    }
    assert(a@.outflow =~= b@.outflow);
    true
}

/// Consecutive snapshots of one day showing the same state collapse into
/// the first of them.
pub open spec fn dedup_days(s: Seq<SnapshotRow>) -> Seq<SnapshotRow>
    decreases s.len(),
{
    if s.len() == 0 {
        s
    } else {
        let r = dedup_days(s.drop_last());
        if r.len() > 0 && r.last().date == s.last().date && same_state(s.last(), r.last()) {
            r
        } else {
            r.push(s.last())
        }
    }
}

pub fn dedup_snapshots(v: Vec<TimelineSnapshot>) -> (r: Vec<TimelineSnapshot>)
    ensures
        snapshot_rows(r@) == dedup_days(snapshot_rows(v@)),
{
    let ghost vs = snapshot_rows(v@);
    let mut r: Vec<TimelineSnapshot> = Vec::new();
    let mut rest = v;
    let ghost n = vs.len();
    assert(vs.skip(0) =~= vs);
    while rest.len() > 0
        invariant
            n == vs.len(),
            rest.len() <= n,
            snapshot_rows(rest@) == vs.skip(n - rest.len()),
            snapshot_rows(r@) == dedup_days(vs.take(n - rest.len())),
        decreases rest.len(),
    {
        let ghost i = n - rest.len();
        let ghost before_rest = rest@;
        let x = rest.remove(0);
        assert(x@ == vs[i]) by {
            assert(snapshot_rows(before_rest)[0] == x@);
        }
        assert(snapshot_rows(rest@) =~= vs.skip(n - rest.len())) by {
            assert(rest@ =~= before_rest.drop_first());
            assert(snapshot_rows(rest@) =~= snapshot_rows(before_rest).drop_first());
            assert(vs.skip(i).drop_first() =~= vs.skip(i + 1));
        }
        assert(vs.take(i + 1).drop_last() =~= vs.take(i));
        assert(vs.take(i + 1).last() == vs[i]);
        let m = r.len();
        if m > 0 && r[m - 1].date == x.date && same_project_state(&x, &r[m - 1]) {
            assert(snapshot_rows(r@).last() == r@[m - 1]@);
        } else {
            let ghost before = snapshot_rows(r@);
            proof {
                if m > 0 {
                    assert(before.last() == r@[m - 1]@);
                }
            }
            r.push(x);
            assert(snapshot_rows(r@) =~= before.push(vs[i]));
        }
    }
    assert(vs.take(n as int) =~= vs);
    r
}

// ---------------------------------------------------------------------------
// Sampling a long history
// ---------------------------------------------------------------------------

/// The stride that keeps at most `MAX_HISTORY_SNAPSHOTS` of a long history:
/// the last index over one less than the maximum, rounded up.
pub open spec fn sample_step(len: int) -> int {
    let last = len - 1;
    let q = last / (MAX_HISTORY_SNAPSHOTS - 1) as int;
    if last % (MAX_HISTORY_SNAPSHOTS - 1) as int == 0 {
        q
    } else {
        q + 1
    }
}

/// The snapshots among the first `k` whose index is a multiple of `step`,
/// or is the last index.
pub open spec fn strided<A>(s: Seq<A>, step: int, k: int) -> Seq<A>
    decreases k,
{
    if k <= 0 {
        seq![]
    } else {
        let r = strided(s, step, k - 1);
        if (k - 1) % step == 0 || k - 1 == s.len() - 1 {
            r.push(s[k - 1])
        } else {
            r
        }
    }
}

/// A history of more than `MAX_HISTORY_SNAPSHOTS` snapshots, thinned to
/// evenly spaced ones and the last; where that still leaves one too many,
/// the one before the last goes.
pub open spec fn sampled<A>(s: Seq<A>) -> Seq<A> {
    if s.len() <= MAX_HISTORY_SNAPSHOTS {
        s
    } else {
        let t = strided(s, sample_step(s.len() as int), s.len() as int);
        if t.len() > MAX_HISTORY_SNAPSHOTS {
            t.remove(t.len() - 2)
        } else {
            t
        }
    }
}

proof fn lemma_strided_len<A>(s: Seq<A>, step: int, k: int)
    requires
        0 <= k,
    ensures
        strided(s, step, k).len() <= k,
    decreases k,
{
    if k > 0 {
        lemma_strided_len(s, step, k - 1);
    }
}

pub fn sample_snapshots(v: Vec<TimelineSnapshot>) -> (r: Vec<TimelineSnapshot>)
    ensures
        snapshot_rows(r@) == sampled(snapshot_rows(v@)),
{
    if v.len() <= MAX_HISTORY_SNAPSHOTS {
        return v;
    }
    let ghost vs = snapshot_rows(v@);
    let n = v.len();
    let last = n - 1;
    let step: usize = if last % (MAX_HISTORY_SNAPSHOTS - 1) == 0 {
        last / (MAX_HISTORY_SNAPSHOTS - 1)
    } else {
        last / (MAX_HISTORY_SNAPSHOTS - 1) + 1
    };
    assert(step == sample_step(n as int));
    assert(step >= 1);
    let mut rest = v;
    let mut r: Vec<TimelineSnapshot> = Vec::new();
    let mut i: usize = 0;
    assert(vs.skip(0) =~= vs);
    while i < n
        invariant
            i <= n,
            n == vs.len(),
            last == n - 1,
            step >= 1,
            rest.len() == n - i,
            snapshot_rows(rest@) == vs.skip(i as int),
            snapshot_rows(r@) == strided(vs, step as int, i as int),
        decreases n - i,
    {
        let ghost before_rest = rest@;
        let x = rest.remove(0);
        assert(x@ == vs[i as int]) by {
            assert(snapshot_rows(before_rest)[0] == x@);
        }
        assert(snapshot_rows(rest@) =~= vs.skip(i + 1)) by {
            assert(rest@ =~= before_rest.drop_first());
            assert(snapshot_rows(rest@) =~= snapshot_rows(before_rest).drop_first());
            assert(vs.skip(i as int).drop_first() =~= vs.skip(i + 1));
        }
        if i % step == 0 || i == last {
            let ghost before = snapshot_rows(r@);
            r.push(x);
            assert(snapshot_rows(r@) =~= before.push(vs[i as int]));
        }
        i = i + 1;
    }
    proof {
        lemma_strided_len(vs, step as int, n as int);
    }
    if r.len() > MAX_HISTORY_SNAPSHOTS {
        let ghost t = snapshot_rows(r@);
        let k = r.len() - 2;
        r.remove(k);
        assert(snapshot_rows(r@) =~= t.remove(k as int));
    }
    r
}

// ---------------------------------------------------------------------------
// Ages
// ---------------------------------------------------------------------------

pub open spec fn date_lt(a: SnapshotRow, b: SnapshotRow) -> bool {
    a.date < b.date
}

pub open spec fn date_order() -> spec_fn(SnapshotRow, SnapshotRow) -> bool {
    |a: SnapshotRow, b: SnapshotRow| date_lt(a, b)
}

/// Snapshots in date order; those of one day keep their order.
pub fn sort_by_date(v: Vec<TimelineSnapshot>) -> (r: Vec<TimelineSnapshot>)
    ensures
        snapshot_rows(r@) == sort_by(snapshot_rows(v@), date_order()),
{
    let ghost vs = snapshot_rows(v@);
    let n = v.len();
    let mut rest = v;
    let mut r: Vec<TimelineSnapshot> = Vec::new();
    let mut i: usize = 0;
    assert(vs.skip(0) =~= vs);
    while i < n
        invariant
            i <= n,
            n == vs.len(),
            rest.len() == n - i,
            snapshot_rows(rest@) == vs.skip(i as int),
            snapshot_rows(r@) == sort_by(vs.take(i as int), date_order()),
        decreases n - i,
    {
        let ghost before_rest = rest@;
        let x = rest.remove(0);
        let ghost xv = vs[i as int];
        assert(x@ == xv) by {
            assert(snapshot_rows(before_rest)[0] == x@);
        }
        assert(snapshot_rows(rest@) =~= vs.skip(i + 1)) by {
            assert(rest@ =~= before_rest.drop_first());
            assert(snapshot_rows(rest@) =~= snapshot_rows(before_rest).drop_first());
            assert(vs.skip(i as int).drop_first() =~= vs.skip(i + 1));
        }
        let ghost s = snapshot_rows(r@);
        let mut k: usize = 0;
        while k < r.len() && !(x.date < r[k].date)
            invariant
                k <= r.len(),
                s == snapshot_rows(r@),
                x@ == xv,
                forall|j: int| 0 <= j < k ==> !date_lt(xv, #[trigger] s[j]),
            decreases r.len() - k,
        {
            k = k + 1;
        }
        proof {
            lemma_insert_by_at(s, xv, date_order(), k as int);
        }
        r.insert(k, x);
        assert(snapshot_rows(r@) =~= s.take(k as int).push(xv) + s.skip(k as int));
        assert(vs.take(i + 1).drop_last() =~= vs.take(i as int));
        assert(vs.take(i + 1).last() == xv);
        i = i + 1;
    }
    assert(vs.take(i as int) =~= vs);
    r
}

/// Some project of the list has this file.
pub open spec fn has_file(ps: Seq<ProjectRow>, f: Seq<char>) -> bool
    decreases ps.len(),
{
    ps.len() > 0 && (has_file(ps.drop_last(), f) || ps.last().file == f)
}

/// The day a file first shows among the projects of the snapshots.
pub open spec fn first_seen(ss: Seq<SnapshotRow>, f: Seq<char>) -> Option<int>
    decreases ss.len(),
{
    if ss.len() == 0 {
        None
    } else {
        match first_seen(ss.drop_last(), f) {
            Some(d) => Some(d),
            None => if has_file(ss.last().projects, f) {
                Some(ss.last().date)
            } else {
                None
            },
        }
    }
}

pub open spec fn max0(x: int) -> int {
    if x < 0 {
        0
    } else {
        x
    }
}

/// A snapshot whose projects carry their age: the days since the project's
/// file first showed, up to and including this snapshot.
pub open spec fn aged_snapshot(ss: Seq<SnapshotRow>, k: int) -> SnapshotRow {
    let x = ss[k];
    SnapshotRow {
        projects: Seq::new(
            x.projects.len(),
            |j: int|
                ProjectRow {
                    age_days: Some(max0(x.date - first_seen(ss.take(k + 1), x.projects[j].file)->0)),
                    ..x.projects[j]
                },
        ),
        ..x
    }
}

pub open spec fn aged(ss: Seq<SnapshotRow>) -> Seq<SnapshotRow> {
    Seq::new(ss.len(), |k: int| aged_snapshot(ss, k))
}

/// The day recorded for a file.
pub open spec fn seen_day(seen: Seq<(Seq<char>, int)>, f: Seq<char>) -> Option<int>
    decreases seen.len(),
{
    if seen.len() == 0 {
        None
    } else if seen.last().0 == f {
        Some(seen.last().1)
    } else {
        seen_day(seen.drop_last(), f)
    }
}

pub open spec fn seen_view(v: Seq<(String, i32)>) -> Seq<(Seq<char>, int)> {
    v.map_values(|e: (String, i32)| (e.0@, e.1 as int))
}

fn find_seen(seen: &Vec<(String, i32)>, f: &Vec<char>) -> (r: Option<i32>)
    ensures
        match r {
            Some(d) => seen_day(seen_view(seen@), f@) == Some(d as int),
            None => seen_day(seen_view(seen@), f@) is None,
        },
{
    let ghost sv = seen_view(seen@);
    let mut k = seen.len();
    assert(sv.take(k as int) =~= sv);
    while k > 0
        invariant
            k <= seen.len(),
            sv == seen_view(seen@),
            seen_day(sv, f@) == seen_day(sv.take(k as int), f@),
        decreases k,
    {
        assert(sv.take(k as int).drop_last() =~= sv.take(k - 1));
        assert(sv.take(k as int).last() == sv[k - 1]);
        if eq(&chars_of(seen[k - 1].0.as_str()), f) {
            return Some(seen[k - 1].1);
        }
        k = k - 1;
    }
    None
}

/// What is recorded after the snapshots before `k` and the first `j`
/// projects of snapshot `k`.
pub open spec fn seen_after(ss: Seq<SnapshotRow>, k: int, j: int, f: Seq<char>) -> Option<int> {
    match first_seen(ss.take(k), f) {
        Some(d) => Some(d),
        None => if has_file(ss[k].projects.take(j), f) {
            Some(ss[k].date)
        } else {
            None
        },
    }
}

/// Set each project's age in days from the first snapshot, in date order,
/// that holds its file; the snapshots are sorted by date first.
pub fn apply_project_ages(snapshots: &mut Vec<TimelineSnapshot>)
    ensures
        snapshot_rows(final(snapshots)@) == aged(sort_by(snapshot_rows(old(snapshots)@), date_order())),
{
    let mut taken: Vec<TimelineSnapshot> = Vec::new();
    std::mem::swap(&mut taken, snapshots);
    let sorted = sort_by_date(taken);
    let ghost ss = snapshot_rows(sorted@);
    let n = sorted.len();
    let mut rest = sorted;
    let mut r: Vec<TimelineSnapshot> = Vec::new();
    let mut seen: Vec<(String, i32)> = Vec::new();
    let mut k: usize = 0;
    assert(ss.skip(0) =~= ss);
    while k < n
        invariant
            k <= n,
            n == ss.len(),
            rest.len() == n - k,
            snapshot_rows(rest@) == ss.skip(k as int),
            snapshot_rows(r@) == aged(ss).take(k as int),
            forall|f: Seq<char>| #[trigger] seen_day(seen_view(seen@), f) == first_seen(ss.take(k as int), f),
        decreases n - k,
    {
        let ghost before_rest = rest@;
        let x = rest.remove(0);
        assert(x@ == ss[k as int]) by {
            assert(snapshot_rows(before_rest)[0] == x@);
        }
        assert(snapshot_rows(rest@) =~= ss.skip(k + 1)) by {
            assert(rest@ =~= before_rest.drop_first());
            assert(snapshot_rows(rest@) =~= snapshot_rows(before_rest).drop_first());
            assert(ss.skip(k as int).drop_first() =~= ss.skip(k + 1));
        }
        let ghost xs = x@;
        let date = x.date;
        let outflow = x.outflow;
        let mut ps = x.projects;
        let m = ps.len();
        let mut out: Vec<TimelineProject> = Vec::new();
        let mut j: usize = 0;
        assert(xs.projects.take(0) =~= Seq::<ProjectRow>::empty());
        assert(xs.projects.skip(0) =~= xs.projects);
        while j < m
            invariant
                j <= m,
                m == xs.projects.len(),
                k < n,
                n == ss.len(),
                xs == ss[k as int],
                date == xs.date,
                ps.len() == m - j,
                rows(ps@) == xs.projects.skip(j as int),
                rows(out@) == aged_snapshot(ss, k as int).projects.take(j as int),
                forall|f: Seq<char>| #[trigger] seen_day(seen_view(seen@), f) == seen_after(ss, k as int, j as int, f),
            decreases m - j,
        {
            let ghost before_ps = ps@;
            let p = ps.remove(0);
            assert(p@ == xs.projects[j as int]) by {
                assert(rows(before_ps)[0] == p@);
            }
            assert(rows(ps@) =~= xs.projects.skip(j + 1)) by {
                assert(ps@ =~= before_ps.drop_first());
                assert(rows(ps@) =~= rows(before_ps).drop_first());
                assert(xs.projects.skip(j as int).drop_first() =~= xs.projects.skip(j + 1));
            }
            let f = chars_of(p.file.as_str());
            let ghost seen0 = seen_view(seen@);
            let first = match find_seen(&seen, &f) {
                Some(d) => d,
                None => {
                    let ghost sv = seen_view(seen@);
                    seen.push((string_of(&f), date));
                    assert(seen_view(seen@) =~= sv.push((f@, date as int)));
                    date
                },
            };
            proof {
                assert(xs.projects.take(j + 1).drop_last() =~= xs.projects.take(j as int));
                assert(xs.projects.take(j + 1).last() == xs.projects[j as int]);
                assert(f@ == xs.projects[j as int].file);
                assert(seen_view(seen@) == seen0 || seen_view(seen@) == seen0.push((f@, date as int)));
                assert forall|g: Seq<char>| #[trigger] seen_day(seen_view(seen@), g) == seen_after(ss, k as int, j + 1, g) by {
                    assert(seen_day(seen0, g) == seen_after(ss, k as int, j as int, g));
                    assert(has_file(xs.projects.take(j + 1), g) == (has_file(xs.projects.take(j as int), g)
                        || xs.projects[j as int].file == g));
                    if seen_view(seen@) != seen0 {
                        assert(seen_view(seen@).drop_last() =~= seen0);
                        assert(seen_day(seen0, f@) is None);
                    }
                }
                assert(ss.take(k + 1).drop_last() =~= ss.take(k as int));
                assert(ss.take(k + 1).last() == ss[k as int]);
                assert(seen_after(ss, k as int, j + 1, f@) == Some(first as int));
                lemma_seen_within(ss, k as int, j + 1, f@);
            }
            let age: i64 = if (date as i64) - (first as i64) < 0 {
                0
            } else {
                (date as i64) - (first as i64)
            };
            let ghost before_out = rows(out@);
            out.push(TimelineProject {
                file: p.file,
                title: p.title,
                track: p.track,
                status: p.status,
                waiting_since: p.waiting_since,
                deadline: p.deadline,
                age_days: Some(age),
            });
            assert(rows(out@) =~= aged_snapshot(ss, k as int).projects.take(j + 1)) by {
                assert(rows(out@) =~= before_out.push(aged_snapshot(ss, k as int).projects[j as int]));
            }
            j = j + 1;
        }
        assert(xs.projects.take(m as int) =~= xs.projects);
        assert(aged_snapshot(ss, k as int).projects.take(m as int) =~= aged_snapshot(ss, k as int).projects);
        let ghost before_r = snapshot_rows(r@);
        r.push(TimelineSnapshot { date, projects: out, outflow });
        assert(snapshot_rows(r@) =~= aged(ss).take(k + 1)) by {
            assert(snapshot_rows(r@) =~= before_r.push(aged(ss)[k as int]));
        }
        proof {
            assert forall|g: Seq<char>| #[trigger] seen_day(seen_view(seen@), g) == first_seen(ss.take(k + 1), g) by {
                assert(ss.take(k + 1).drop_last() =~= ss.take(k as int));
                assert(ss.take(k + 1).last() == ss[k as int]);
                assert(xs.projects.take(m as int) =~= xs.projects);
            }
        }
        k = k + 1;
    }
    assert(aged(ss).take(n as int) =~= aged(ss));
    *snapshots = r;
}

proof fn lemma_seen_within(ss: Seq<SnapshotRow>, k: int, j: int, f: Seq<char>)
    requires
        0 <= k < ss.len(),
        0 < j <= ss[k].projects.len(),
        ss[k].projects[j - 1].file == f,
    ensures
        seen_after(ss, k, j, f) == first_seen(ss.take(k + 1), f),
{
    assert(ss.take(k + 1).drop_last() =~= ss.take(k));
    assert(ss.take(k + 1).last() == ss[k]);
    lemma_has_file_prefix(ss[k].projects, j, f);
}

proof fn lemma_has_file_prefix(ps: Seq<ProjectRow>, j: int, f: Seq<char>)
    requires
        0 < j <= ps.len(),
        ps[j - 1].file == f,
    ensures
        has_file(ps.take(j), f),
        has_file(ps, f),
    decreases ps.len() - j,
{
    assert(ps.take(j).last() == ps[j - 1]);
    lemma_has_file_grow(ps, j, f);
}

proof fn lemma_has_file_grow(ps: Seq<ProjectRow>, j: int, f: Seq<char>)
    requires
        0 <= j <= ps.len(),
        has_file(ps.take(j), f),
    ensures
        has_file(ps, f),
    decreases ps.len() - j,
{
    if j < ps.len() {
        assert(ps.take(j + 1).drop_last() =~= ps.take(j));
        lemma_has_file_grow(ps, j + 1, f);
    } else {
        assert(ps.take(j) =~= ps);
    }
}

// ---------------------------------------------------------------------------
// Texts at revisions
// ---------------------------------------------------------------------------

pub type RequestView = (Seq<char>, Seq<char>);

pub open spec fn requests_view(v: Seq<(String, String)>) -> Seq<RequestView> {
    v.map_values(|e: (String, String)| (e.0@, e.1@))
}

/// The (commit, file) pairs whose text a commit's changes bring, in order.
pub open spec fn entry_requests(hash: Seq<char>, changes: Seq<ChangeView>) -> Seq<RequestView>
    decreases changes.len(),
{
    if changes.len() == 0 {
        seq![]
    } else {
        let r = entry_requests(hash, changes.drop_last());
        match changes.last().1 {
            Some(f) => r.push((hash, f)),
            None => r,
        }
    }
}

pub open spec fn history_requests(h: Seq<EntryView>) -> Seq<RequestView>
    decreases h.len(),
{
    if h.len() == 0 {
        seq![]
    } else {
        history_requests(h.drop_last()) + entry_requests(h.last().0, h.last().2)
    }
}

/// Each pair once, where it first occurs.
pub open spec fn first_occurrences(s: Seq<RequestView>) -> Seq<RequestView>
    decreases s.len(),
{
    if s.len() == 0 {
        seq![]
    } else {
        let r = first_occurrences(s.drop_last());
        if r.contains(s.last()) {
            r
        } else {
            r.push(s.last())
        }
    }
}

fn has_request(v: &Vec<(String, String)>, hash: &str, file: &str) -> (r: bool)
    ensures
        r == requests_view(v@).contains((hash@, file@)),
{
    let ghost rv = requests_view(v@);
    let h = chars_of(hash);
    let f = chars_of(file);
    let mut i: usize = 0;
    while i < v.len()
        invariant
            i <= v.len(),
            rv == requests_view(v@),
            h@ == hash@,
            f@ == file@,
            forall|j: int| 0 <= j < i ==> rv[j] != (hash@, file@),
        decreases v.len() - i,
    {
        if eq(&chars_of(v[i].0.as_str()), &h) && eq(&chars_of(v[i].1.as_str()), &f) {
            assert(rv[i as int] == (hash@, file@));
            return true;
        }
        i = i + 1;
    }
    false
}

/// The texts the replay needs: each (commit, new file) pair once, in the
/// order the history first brings it.
pub fn blob_requests(history: &Vec<(GitCommit, Vec<GitChange>)>) -> (r: Vec<(String, String)>)
    ensures
        requests_view(r@) == first_occurrences(history_requests(history_view(history@))),
{
    let ghost hv = history_view(history@);
    let mut r: Vec<(String, String)> = Vec::new();
    let mut i: usize = 0;
    while i < history.len()
        invariant
            i <= history.len(),
            hv == history_view(history@),
            requests_view(r@) == first_occurrences(history_requests(hv.take(i as int))),
        decreases history.len() - i,
    {
        let (commit, changes) = (&history[i].0, &history[i].1);
        let ghost ev = hv[i as int];
        assert(ev.0 == commit.hash@ && ev.2 == changes_view(changes@));
        let ghost base = history_requests(hv.take(i as int));
        let mut j: usize = 0;
        assert(entry_requests(ev.0, ev.2.take(0)) =~= Seq::<RequestView>::empty());
        assert(base + Seq::<RequestView>::empty() =~= base);
        while j < changes.len()
            invariant
                j <= changes.len(),
                ev.2 == changes_view(changes@),
                ev.0 == commit.hash@,
                requests_view(r@) == first_occurrences(base + entry_requests(ev.0, ev.2.take(j as int))),
            decreases changes.len() - j,
        {
            let ghost prev = base + entry_requests(ev.0, ev.2.take(j as int));
            assert(ev.2.take(j + 1).drop_last() =~= ev.2.take(j as int));
            assert(ev.2.take(j + 1).last() == change_view(changes@[j as int]));
            match &changes[j].new_file {
                Some(f) => {
                    let ghost next = prev.push((ev.0, f@));
                    assert(base + entry_requests(ev.0, ev.2.take(j + 1)) =~= next);
                    assert(next.drop_last() =~= prev);
                    if !has_request(&r, commit.hash.as_str(), f.as_str()) {
                        let ghost before = requests_view(r@);
                        r.push((copy_text(&commit.hash), copy_text(f)));
                        assert(requests_view(r@) =~= before.push((ev.0, f@)));
                    }
                },
                None => {
                    assert(base + entry_requests(ev.0, ev.2.take(j + 1)) =~= prev);
                },
            }
            j = j + 1;
        }
        assert(ev.2.take(j as int) =~= ev.2);
        assert(hv.take(i + 1).drop_last() =~= hv.take(i as int));
        assert(hv.take(i + 1).last() == ev);
        i = i + 1;
    }
    assert(hv.take(i as int) =~= hv);
    r
}

/// The row of the project a text at a revision holds, from its frontmatter.
pub open spec fn revision_row(fields: Map<Seq<char>, Seq<char>>, track: Seq<char>, file: Seq<char>) -> ProjectRow {
    ProjectRow {
        file,
        title: fields["title"@],
        track: if fields.contains_key("track"@) {
            fields["track"@]
        } else {
            track
        },
        status: fields["status"@],
        waiting_since: match crate::project::field(fields, "waiting_since"@) {
            Some(v) => match crate::dates::parsed_date(v) {
                Some(d) => Some((d as i32) as int),
                None => None,
            },
            None => None,
        },
        deadline: crate::project::field(fields, "deadline"@),
        age_days: None,
    }
}

/// What the text of a request, if there is one, holds: the row of a project
/// of the file's track, or nothing where the text is no project.
pub open spec fn text_row(
    tracks: Seq<Seq<char>>,
    file: Seq<char>,
    blob: Option<Seq<char>>,
) -> Option<ProjectRow> {
    match blob {
        Some(t) => match track_of(tracks, file) {
            Some(tr) => match crate::frontmatter::document_fields(t) {
                Some(fs) => Some(revision_row(fs, tr, file)),
                None => None,
            },
            None => None,
        },
        None => None,
    }
}

pub open spec fn opt_rows(v: Seq<Option<TimelineProject>>) -> Seq<Option<ProjectRow>> {
    v.map_values(|o: Option<TimelineProject>| match o {
        Some(p) => Some(p@),
        None => None,
    })
}

/// The projects the requested texts hold, one per request while there are
/// texts; none at all when the texts could not be had.
pub fn revision_projects(
    tracks: &Vec<String>,
    requests: &Vec<(String, String)>,
    blobs: Option<Vec<Option<String>>>,
    now: &crate::dates::Instant,
) -> (r: Vec<Option<TimelineProject>>)
    ensures
        match blobs {
            Some(b) => {
                &&& r@.len() == if b@.len() < requests@.len() {
                    b@.len()
                } else {
                    requests@.len()
                }
                &&& forall|i: int| 0 <= i < r@.len() ==> #[trigger] opt_rows(r@)[i] == text_row(
                    strings(tracks@),
                    requests@[i].1@,
                    crate::project::opt_view(b@[i]),
                )
            },
            None => r@.len() == 0,
        },
{
    let mut r: Vec<Option<TimelineProject>> = Vec::new();
    let b = match blobs {
        Some(b) => b,
        None => {
            return r;
        },
    };
    let ghost bv = b@;
    let mut i: usize = 0;
    while i < b.len() && i < requests.len()
        invariant
            i <= b.len(),
            i <= requests.len(),
            bv == b@,
            r@.len() == i,
            forall|j: int| 0 <= j < i ==> #[trigger] opt_rows(r@)[j] == text_row(
                strings(tracks@),
                requests@[j].1@,
                crate::project::opt_view(bv[j]),
            ),
        decreases b.len() - i,
    {
        let file = &requests[i].1;
        let row = match &b[i] {
            Some(text) => match track_for_file(tracks, file.as_str()) {
                Some(track) => match Project::from_text(text.as_str(), track.as_str(), file.as_str(), now) {
                    Some(p) => {
                        let row = project_row(&p);
                        Some(row)
                    },
                    None => None,
                },
                None => None,
            },
            None => None,
        };
        let ghost rv = opt_rows(seq![row])[0];
        assert(rv == text_row(strings(tracks@), file@, crate::project::opt_view(bv[i as int])));
        let ghost before = opt_rows(r@);
        r.push(row);
        assert(opt_rows(r@) =~= before.push(rv));
        i = i + 1;
    }
    r
}

// ---------------------------------------------------------------------------
// Replay
// ---------------------------------------------------------------------------

pub type FileRows = Seq<(Seq<char>, ProjectRow)>;

/// The row held for a file.
pub open spec fn file_row(s: FileRows, f: Seq<char>) -> Option<ProjectRow>
    decreases s.len(),
{
    if s.len() == 0 {
        None
    } else if s[0].0 == f {
        Some(s[0].1)
    } else {
        file_row(s.drop_first(), f)
    }
}

/// Hold `v` for `f`: in place of its row, or as a new last row.
pub open spec fn put_file(s: FileRows, f: Seq<char>, v: ProjectRow) -> FileRows
    decreases s.len(),
{
    if s.len() == 0 {
        seq![(f, v)]
    } else if s[0].0 == f {
        seq![(f, v)] + s.drop_first()
    } else {
        seq![s[0]] + put_file(s.drop_first(), f, v)
    }
}

/// Forget the row of `f`.
pub open spec fn del_file(s: FileRows, f: Seq<char>) -> FileRows
    decreases s.len(),
{
    if s.len() == 0 {
        s
    } else if s[0].0 == f {
        s.drop_first()
    } else {
        seq![s[0]] + del_file(s.drop_first(), f)
    }
}

proof fn lemma_file_at(s: FileRows, f: Seq<char>, v: ProjectRow, k: int)
    requires
        0 <= k <= s.len(),
        forall|j: int| 0 <= j < k ==> (#[trigger] s[j]).0 != f,
        k < s.len() ==> s[k].0 == f,
    ensures
        k < s.len() ==> file_row(s, f) == Some(s[k].1),
        k == s.len() ==> file_row(s, f) is None,
        k < s.len() ==> put_file(s, f, v) == s.update(k, (f, v)),
        k == s.len() ==> put_file(s, f, v) == s.push((f, v)),
        k < s.len() ==> del_file(s, f) == s.remove(k),
        k == s.len() ==> del_file(s, f) == s,
    decreases k,
{
    if k > 0 {
        let t = s.drop_first();
        assert forall|j: int| 0 <= j < k - 1 implies (#[trigger] t[j]).0 != f by {
            assert(t[j] == s[j + 1]);
        }
        lemma_file_at(t, f, v, k - 1);
        if k < s.len() {
            assert(s.update(k, (f, v)) =~= seq![s[0]] + t.update(k - 1, (f, v)));
            assert(s.remove(k) =~= seq![s[0]] + t.remove(k - 1));
        } else {
            assert(s.push((f, v)) =~= seq![s[0]] + t.push((f, v)));
            assert(s =~= seq![s[0]] + t);
        }
    } else {
        if s.len() > 0 {
            assert(s.update(0, (f, v)) =~= seq![(f, v)] + s.drop_first());
            assert(s.remove(0) =~= s.drop_first());
        } else {
            assert(s.push((f, v)) =~= seq![(f, v)]);
        }
    }
}

pub open spec fn file_rows(v: Seq<(String, TimelineProject)>) -> FileRows {
    v.map_values(|e: (String, TimelineProject)| (e.0@, e.1@))
}

fn find_file(v: &Vec<(String, TimelineProject)>, f: &Vec<char>) -> (k: usize)
    ensures
        k <= v@.len(),
        forall|j: int| 0 <= j < k ==> (#[trigger] file_rows(v@)[j]).0 != f@,
        k < v@.len() ==> file_rows(v@)[k as int].0 == f@,
{
    let mut k: usize = 0;
    while k < v.len() && !eq(&chars_of(v[k].0.as_str()), f)
        invariant
            k <= v@.len(),
            forall|j: int| 0 <= j < k ==> (#[trigger] file_rows(v@)[j]).0 != f@,
        decreases v.len() - k,
    {
        assert(file_rows(v@)[k as int].0 == v@[k as int].0@);
        k = k + 1;
    }
    proof {
        if k < v.len() {
            assert(file_rows(v@)[k as int].0 == v@[k as int].0@);
        }
    }
    k
}

/// Where a request is listed, or -1.
pub open spec fn request_index(reqs: Seq<RequestView>, key: RequestView) -> int
    decreases reqs.len(),
{
    if reqs.len() == 0 {
        -1
    } else if reqs.last() == key {
        if request_index(reqs.drop_last(), key) >= 0 {
            request_index(reqs.drop_last(), key)
        } else {
            reqs.len() - 1
        }
    } else {
        request_index(reqs.drop_last(), key)
    }
}

proof fn lemma_request_index(reqs: Seq<RequestView>, key: RequestView, k: int)
    requires
        0 <= k <= reqs.len(),
        forall|j: int| 0 <= j < k ==> #[trigger] reqs[j] != key,
        k < reqs.len() ==> reqs[k] == key,
    ensures
        request_index(reqs, key) == if k < reqs.len() {
            k
        } else {
            -1
        },
    decreases reqs.len(),
{
    if reqs.len() > 0 {
        let p = reqs.drop_last();
        if k < reqs.len() - 1 {
            lemma_request_index(p, key, k);
        } else if k == reqs.len() - 1 {
            assert forall|j: int| 0 <= j < p.len() implies #[trigger] p[j] != key by {
                assert(p[j] == reqs[j]);
            }
            lemma_request_index(p, key, p.len() as int);
        } else {
            assert forall|j: int| 0 <= j < p.len() implies #[trigger] p[j] != key by {
                assert(p[j] == reqs[j]);
            }
            lemma_request_index(p, key, p.len() as int);
        }
    }
}

/// The replay's working state inside a commit: the rows held by file, the
/// projects of the requested texts not yet taken, whether the commit touched
/// a project, and its outflow so far.
pub type StepState = (FileRows, Seq<Option<ProjectRow>>, bool, Seq<OutflowRow>);

/// One change of a commit: the old file's project leaves; the new file's
/// text brings its project (counting outflow where its status left the plate
/// for an outflow status), or takes the project away where it holds none.
pub open spec fn change_step(st: StepState, hash: Seq<char>, c: ChangeView, reqs: Seq<RequestView>) -> StepState {
    let (files0, revs, touched0, tally) = st;
    let (files, touched) = match c.0 {
        Some(o) => (del_file(files0, o), file_row(files0, o) is Some || touched0),
        None => (files0, touched0),
    };
    match c.1 {
        None => (files, revs, touched, tally),
        Some(n) => {
            let i = request_index(reqs, (hash, n));
            let held = 0 <= i < revs.len();
            let v = if held {
                revs[i]
            } else {
                None
            };
            let revs2 = if held {
                revs.update(i, None)
            } else {
                revs
            };
            match v {
                Some(p) => {
                    let tally2 = if row_outflow(file_row(files, n), p) {
                        tallied(tally, p.track, p.status, 1)
                    } else {
                        tally
                    };
                    (put_file(files, n, p), revs2, true, tally2)
                },
                None => (del_file(files, n), revs2, true, tally),
            }
        },
    }
}

pub open spec fn changes_step(
    st: StepState,
    hash: Seq<char>,
    cs: Seq<ChangeView>,
    reqs: Seq<RequestView>,
) -> StepState
    decreases cs.len(),
{
    if cs.len() == 0 {
        st
    } else {
        change_step(changes_step(st, hash, cs.drop_last(), reqs), hash, cs.last(), reqs)
    }
}

/// The rows held, in holding order, of projects on the plate.
pub open spec fn held_load_rows(s: FileRows) -> Seq<ProjectRow>
    decreases s.len(),
{
    if s.len() == 0 {
        seq![]
    } else if load_status(s.last().1.status) {
        held_load_rows(s.drop_last()).push(s.last().1)
    } else {
        held_load_rows(s.drop_last())
    }
}

pub struct ReplayState {
    pub files: FileRows,
    pub revs: Seq<Option<ProjectRow>>,
    pub snapshots: Seq<SnapshotRow>,
}

/// One commit: its changes in order; a commit that touched a project adds
/// the day's snapshot of the projects held then.
pub open spec fn commit_step(rs: ReplayState, e: EntryView, reqs: Seq<RequestView>) -> ReplayState {
    let (files, revs, touched, tally) = changes_step((rs.files, rs.revs, false, seq![]), e.0, e.2, reqs);
    ReplayState {
        files,
        revs,
        snapshots: if touched {
            pushed_daily(
                rs.snapshots,
                SnapshotRow {
                    date: e.1,
                    projects: sort_by(held_load_rows(files), row_order()),
                    outflow: sort_by(tally, outflow_order()),
                },
            )
        } else {
            rs.snapshots
        },
    }
}

pub open spec fn replay_state(h: Seq<EntryView>, reqs: Seq<RequestView>, revs: Seq<Option<ProjectRow>>) -> ReplayState
    decreases h.len(),
{
    if h.len() == 0 {
        ReplayState { files: seq![], revs, snapshots: seq![] }
    } else {
        commit_step(replay_state(h.drop_last(), reqs, revs), h.last(), reqs)
    }
}

/// The number of changes a history lists.
pub open spec fn change_count(h: Seq<EntryView>) -> int
    decreases h.len(),
{
    if h.len() == 0 {
        0
    } else {
        change_count(h.drop_last()) + h.last().2.len()
    }
}

fn find_request(v: &Vec<(String, String)>, hash: &Vec<char>, file: &Vec<char>) -> (i: usize)
    ensures
        i <= v@.len(),
        request_index(requests_view(v@), (hash@, file@)) == if i < v@.len() {
            i as int
        } else {
            -1
        },
{
    let ghost rv = requests_view(v@);
    let mut i: usize = 0;
    while i < v.len() && !(eq(&chars_of(v[i].0.as_str()), hash) && eq(&chars_of(v[i].1.as_str()), file))
        invariant
            i <= v@.len(),
            rv == requests_view(v@),
            forall|j: int| 0 <= j < i ==> #[trigger] rv[j] != (hash@, file@),
        decreases v.len() - i,
    {
        assert(rv[i as int] == (v@[i as int].0@, v@[i as int].1@));
        i = i + 1;
    }
    proof {
        if i < v.len() {
            assert(rv[i as int] == (v@[i as int].0@, v@[i as int].1@));
        }
        lemma_request_index(rv, (hash@, file@), i as int);
    }
    i
}

fn apply_change(
    files: &mut Vec<(String, TimelineProject)>,
    revs: &mut Vec<Option<TimelineProject>>,
    touched: &mut bool,
    tally_so_far: &mut Vec<TimelineOutflow>,
    hash: &String,
    change: &GitChange,
    requests: &Vec<(String, String)>,
)
    requires
        total_count(outflow_rows(old(tally_so_far)@)) < usize::MAX,
    ensures
        (file_rows(final(files)@), opt_rows(final(revs)@), *final(touched), outflow_rows(final(tally_so_far)@))
            == change_step(
            (file_rows(old(files)@), opt_rows(old(revs)@), *old(touched), outflow_rows(old(tally_so_far)@)),
            hash@,
            change_view(*change),
            requests_view(requests@),
        ),
        total_count(outflow_rows(final(tally_so_far)@)) <= total_count(outflow_rows(old(tally_so_far)@)) + 1,
{
    let ghost f0 = file_rows(files@);
    let ghost t0 = *touched;
    match &change.old_file {
        Some(o) => {
            let oc = chars_of(o.as_str());
            let k = find_file(files, &oc);
            proof {
                lemma_file_at(f0, o@, arbitrary(), k as int);
            }
            if k < files.len() {
                files.remove(k);
                *touched = true;
                assert(file_rows(files@) =~= f0.remove(k as int));
            }
        },
        None => {},
    }
    let ghost f1 = file_rows(files@);
    let ghost tch1 = *touched;
    assert(f1 == match change_view(*change).0 {
        Some(o) => del_file(f0, o),
        None => f0,
    });
    assert(tch1 == match change_view(*change).0 {
        Some(o) => file_row(f0, o) is Some || t0,
        None => t0,
    });
    match &change.new_file {
        Some(n) => {
            *touched = true;
            let nc = chars_of(n.as_str());
            let hc = chars_of(hash.as_str());
            let i = find_request(requests, &hc, &nc);
            let ghost r0 = opt_rows(revs@);
            let v = if i < requests.len() && i < revs.len() {
                let x = revs.remove(i);
                revs.insert(i, None);
                assert(opt_rows(revs@) =~= r0.update(i as int, None));
                x
            } else {
                None
            };
            assert(opt_rows(seq![v])[0] == if i < requests.len() && i < r0.len() { r0[i as int] } else { None::<ProjectRow> });
            let k = find_file(files, &nc);
            match v {
                Some(p) => {
                    proof {
                        lemma_file_at(f1, n@, p@, k as int);
                    }
                    let counted = if k < files.len() {
                        assert(f1[k as int].1 == files@[k as int].1@);
                        counts_as_outflow(Some(&files[k].1), &p)
                    } else {
                        counts_as_outflow(None, &p)
                    };
                    if counted {
                        proof {
                            lemma_counts_within_total(outflow_rows(tally_so_far@));
                            assert forall|j: int| 0 <= j < tally_so_far@.len() implies (#[trigger] tally_so_far@[j]).count + 1 <= usize::MAX by {
                                assert(outflow_rows(tally_so_far@)[j] == tally_so_far@[j]@);
                            }
                            lemma_tallied_total(outflow_rows(tally_so_far@), p.track@, p.status@, 1);
                        }
                        tally(tally_so_far, p.track.as_str(), p.status.as_str(), 1);
                    }
                    let ghost pv = p@;
                    if k < files.len() {
                        files.set(k, (copy_text(n), p));
                        assert(file_rows(files@) =~= f1.update(k as int, (n@, pv)));
                    } else {
                        files.push((copy_text(n), p));
                        assert(file_rows(files@) =~= f1.push((n@, pv)));
                    }
                },
                None => {
                    proof {
                        lemma_file_at(f1, n@, arbitrary(), k as int);
                    }
                    if k < files.len() {
                        files.remove(k);
                        assert(file_rows(files@) =~= f1.remove(k as int));
                    }
                },
            }
        },
        None => {},
    }
}

fn held_rows(files: &Vec<(String, TimelineProject)>) -> (r: Vec<TimelineProject>)
    ensures
        rows(r@) == held_load_rows(file_rows(files@)),
{
    let ghost fr = file_rows(files@);
    let mut r: Vec<TimelineProject> = Vec::new();
    let mut i: usize = 0;
    while i < files.len()
        invariant
            i <= files.len(),
            fr == file_rows(files@),
            rows(r@) == held_load_rows(fr.take(i as int)),
        decreases files.len() - i,
    {
        assert(fr.take(i + 1).drop_last() =~= fr.take(i as int));
        assert(fr.take(i + 1).last() == fr[i as int]);
        assert(fr[i as int].1 == files@[i as int].1@);
        if is_load_status(files[i].1.status.as_str()) {
            let ghost before = rows(r@);
            r.push(copy_row(&files[i].1));
            assert(rows(r@) =~= before.push(fr[i as int].1));
        }
        i = i + 1;
    }
    assert(fr.take(i as int) =~= fr);
    r
}

proof fn lemma_change_count_prefix(h: Seq<EntryView>, k: int)
    requires
        0 <= k <= h.len(),
    ensures
        change_count(h.take(k)) <= change_count(h),
        change_count(h.take(k)) >= 0,
    decreases h.len() - k,
{
    lemma_change_count_nonneg(h.take(k));
    if k < h.len() {
        lemma_change_count_prefix(h, k + 1);
        assert(h.take(k + 1).drop_last() =~= h.take(k));
    } else {
        assert(h.take(k) =~= h);
        lemma_change_count_nonneg(h);
    }
}

proof fn lemma_change_count_nonneg(h: Seq<EntryView>)
    ensures
        change_count(h) >= 0,
    decreases h.len(),
{
    if h.len() > 0 {
        lemma_change_count_nonneg(h.drop_last());
    }
}

pub open spec fn replay_view(
    files: Seq<(String, TimelineProject)>,
    revs: Seq<Option<TimelineProject>>,
    snapshots: Seq<TimelineSnapshot>,
) -> ReplayState {
    ReplayState { files: file_rows(files), revs: opt_rows(revs), snapshots: snapshot_rows(snapshots) }
}

/// Replay a history from nothing: each commit's changes in turn, with the
/// projects the requested texts hold (`revisions`, listed as `requests`
/// lists the texts); one snapshot per day a project was touched; thinned
/// where the days are many.
pub fn replay_history(
    history: &Vec<(GitCommit, Vec<GitChange>)>,
    requests: &Vec<(String, String)>,
    revisions: Vec<Option<TimelineProject>>,
) -> (r: Vec<TimelineSnapshot>)
    requires
        change_count(history_view(history@)) <= usize::MAX,
    ensures
        snapshot_rows(r@) == sampled(
            replay_state(history_view(history@), requests_view(requests@), opt_rows(revisions@)).snapshots,
        ),
        forall|k: int| 0 <= k < r@.len() ==> total_count(#[trigger] snapshot_rows(r@)[k].outflow)
            <= change_count(history_view(history@)),
{
    let ghost hv = history_view(history@);
    let ghost reqs = requests_view(requests@);
    let ghost revs0 = opt_rows(revisions@);
    let mut files: Vec<(String, TimelineProject)> = Vec::new();
    let mut revs = revisions;
    let mut snapshots: Vec<TimelineSnapshot> = Vec::new();
    let mut i: usize = 0;
    assert(file_rows(files@) =~= Seq::<(Seq<char>, ProjectRow)>::empty());
    assert(snapshot_rows(snapshots@) =~= Seq::<SnapshotRow>::empty());
    while i < history.len()
        invariant
            i <= history.len(),
            hv == history_view(history@),
            reqs == requests_view(requests@),
            change_count(hv) <= usize::MAX,
            replay_view(files@, revs@, snapshots@) == replay_state(hv.take(i as int), reqs, revs0),
            forall|k: int| 0 <= k < snapshots@.len() ==> total_count(#[trigger] snapshot_rows(snapshots@)[k].outflow)
                <= change_count(hv.take(i as int)),
        decreases history.len() - i,
    {
        let (commit, changes) = (&history[i].0, &history[i].1);
        let ghost ev = hv[i as int];
        assert(ev.0 == commit.hash@ && ev.1 == commit.date as int && ev.2 == changes_view(changes@));
        proof {
            assert(hv.take(i + 1).drop_last() =~= hv.take(i as int));
            assert(hv.take(i + 1).last() == ev);
            lemma_change_count_prefix(hv, i + 1);
            lemma_change_count_prefix(hv, i as int);
        }
        let ghost rs = replay_state(hv.take(i as int), reqs, revs0);
        let mut touched = false;
        let mut tally_so_far: Vec<TimelineOutflow> = Vec::new();
        let mut j: usize = 0;
        assert(changes_view(changes@).take(0) =~= Seq::<ChangeView>::empty());
        assert(outflow_rows(tally_so_far@) =~= Seq::<OutflowRow>::empty());
        while j < changes.len()
            invariant
                j <= changes.len(),
                ev.0 == commit.hash@,
                ev.2 == changes_view(changes@),
                reqs == requests_view(requests@),
                change_count(hv.take(i as int)) + changes@.len() <= usize::MAX,
                (file_rows(files@), opt_rows(revs@), touched, outflow_rows(tally_so_far@)) == changes_step(
                    (rs.files, rs.revs, false, seq![]),
                    ev.0,
                    ev.2.take(j as int),
                    reqs,
                ),
                total_count(outflow_rows(tally_so_far@)) <= j,
                snapshot_rows(snapshots@) == rs.snapshots,
                forall|k: int| 0 <= k < snapshots@.len() ==> total_count(#[trigger] snapshot_rows(snapshots@)[k].outflow)
                    <= change_count(hv.take(i as int)),
            decreases changes.len() - j,
        {
            assert(ev.2.take(j + 1).drop_last() =~= ev.2.take(j as int));
            assert(ev.2.take(j + 1).last() == change_view(changes@[j as int]));
            apply_change(&mut files, &mut revs, &mut touched, &mut tally_so_far, &commit.hash, &changes[j], requests);
            j = j + 1;
        }
        assert(ev.2.take(j as int) =~= ev.2);
        if touched {
            let held = held_rows(&files);
            let projects = sort_rows(held);
            let outflow = timeline_outflow(&tally_so_far);
            proof {
                lemma_sort_total(outflow_rows(tally_so_far@), outflow_order());
                let n = snapshots@.len();
                if n > 0 {
                    assert(snapshot_rows(snapshots@)[n - 1] == snapshots@[n - 1]@);
                    lemma_total_append(outflow_rows(snapshots@[n - 1].outflow@), outflow_rows(outflow@));
                    assert(total_count(snapshot_rows(snapshots@)[n - 1].outflow) <= change_count(hv.take(i as int)));
                    assert(total_count(outflow_rows(outflow@)) <= changes@.len());
                    assert(change_count(hv.take(i + 1)) == change_count(hv.take(i as int)) + changes@.len());
                    assert(change_count(hv.take(i + 1)) <= usize::MAX);
                }
            }
            let snapshot = TimelineSnapshot { date: commit.date, projects, outflow };
            let ghost sv = snapshot@;
            let ghost before = snapshot_rows(snapshots@);
            push_or_replace_daily_snapshot(&mut snapshots, snapshot);
            proof {
                let n = before.len();
                let cc0 = change_count(hv.take(i as int));
                let cc1 = change_count(hv.take(i + 1));
                assert(cc1 == cc0 + changes@.len());
                assert(total_count(sv.outflow) <= changes@.len());
                let after = snapshot_rows(snapshots@);
                assert(after == pushed_daily(before, sv));
                if n > 0 && before.last().date == sv.date {
                    let a = before.last().outflow + sv.outflow;
                    lemma_tally_all_total(a);
                    lemma_sort_total(tally_all(a), outflow_order());
                    lemma_total_append(before.last().outflow, sv.outflow);
                    assert(total_count(before[n - 1].outflow) <= cc0);
                    assert(total_count(after[n - 1].outflow) <= cc1);
                    assert forall|k: int| 0 <= k < after.len() implies total_count(#[trigger] after[k].outflow)
                        <= cc1 by {
                        if k < n - 1 {
                            assert(after[k] == before[k]);
                            assert(total_count(before[k].outflow) <= cc0);
                        }
                    }
                } else {
                    assert forall|k: int| 0 <= k < after.len() implies total_count(#[trigger] after[k].outflow)
                        <= cc1 by {
                        if k < n {
                            assert(after[k] == before[k]);
                            assert(total_count(before[k].outflow) <= cc0);
                        } else {
                            assert(after[k] == sv);
                        }
                    }
                }
            }
        } else {
            proof {
                assert forall|k: int| 0 <= k < snapshots@.len() implies total_count(#[trigger] snapshot_rows(snapshots@)[k].outflow)
                    <= change_count(hv.take(i + 1)) by {}
            }
        }
        i = i + 1;
    }
    assert(hv.take(i as int) =~= hv);
    proof {
        lemma_sampled_bound(snapshot_rows(snapshots@), change_count(hv));
    }
    sample_snapshots(snapshots)
}

proof fn lemma_strided_bound(s: Seq<SnapshotRow>, step: int, k: int, b: int)
    requires
        0 <= k <= s.len(),
        forall|j: int| 0 <= j < s.len() ==> total_count(#[trigger] s[j].outflow) <= b,
    ensures
        forall|j: int| 0 <= j < strided(s, step, k).len() ==> total_count(#[trigger] strided(s, step, k)[j].outflow) <= b,
    decreases k,
{
    if k > 0 {
        lemma_strided_bound(s, step, k - 1, b);
        let r = strided(s, step, k - 1);
        let t = strided(s, step, k);
        assert forall|j: int| 0 <= j < t.len() implies total_count(#[trigger] t[j].outflow) <= b by {
            if j < r.len() {
                assert(t[j] == r[j]);
            } else {
                assert(t[j] == s[k - 1]);
            }
        }
    }
}

/// Thinning keeps only snapshots of the history.
proof fn lemma_sampled_bound(s: Seq<SnapshotRow>, b: int)
    requires
        forall|j: int| 0 <= j < s.len() ==> total_count(#[trigger] s[j].outflow) <= b,
    ensures
        forall|j: int| 0 <= j < sampled(s).len() ==> total_count(#[trigger] sampled(s)[j].outflow) <= b,
{
    if s.len() > MAX_HISTORY_SNAPSHOTS {
        let t = strided(s, sample_step(s.len() as int), s.len() as int);
        lemma_strided_bound(s, sample_step(s.len() as int), s.len() as int, b);
        if t.len() > MAX_HISTORY_SNAPSHOTS {
            let u = t.remove(t.len() - 2);
            assert forall|j: int| 0 <= j < u.len() implies total_count(#[trigger] u[j].outflow) <= b by {
                if j < t.len() - 2 {
                    assert(u[j] == t[j]);
                } else {
                    assert(u[j] == t[j + 1]);
                }
            }
        }
    }
}

/// The snapshot of today: the projects on the plate, no outflow.
pub fn current_snapshot(projects: &Vec<Project>, today: i32) -> (r: TimelineSnapshot)
    ensures
        r@ == (SnapshotRow {
            date: today as int,
            projects: sort_by(load_rows(projects@), row_order()),
            outflow: seq![],
        }),
{
    let r = TimelineSnapshot { date: today, projects: timeline_projects(projects), outflow: Vec::new() };
    assert(outflow_rows(r.outflow@) =~= Seq::<OutflowRow>::empty());
    r
}

/// The snapshots of a replayed history with today's added: aged, in date
/// order, with repeated days of one state collapsed.
pub open spec fn history_timeline(replayed: Seq<SnapshotRow>, today: SnapshotRow) -> Seq<SnapshotRow> {
    dedup_days(sort_by(aged(sort_by(pushed_daily(replayed, today), date_order())), date_order()))
}

pub open spec fn response_rows(r: TimelineResponse) -> Seq<SnapshotRow> {
    snapshot_rows(r.snapshots@)
}

/// The timeline of the repository: from its history where there is one
/// (`history` is what the log gave, `requests` and `revisions` the texts the
/// replay asked for and the projects they hold), else only today's snapshot.
pub fn assemble_timeline(
    current: &Vec<Project>,
    today: i32,
    stale_days: i64,
    history: Option<Vec<(GitCommit, Vec<GitChange>)>>,
    requests: &Vec<(String, String)>,
    revisions: Vec<Option<TimelineProject>>,
) -> (r: TimelineResponse)
    requires
        history matches Some(h) ==> change_count(history_view(h@)) <= usize::MAX,
    ensures
        r.stale_days == stale_days,
        ({
            let now = SnapshotRow {
                date: today as int,
                projects: sort_by(load_rows(current@), row_order()),
                outflow: seq![],
            };
            match history {
                Some(h) => if h@.len() > 0 {
                    &&& r.source == TimelineSource::GitHistory
                    &&& response_rows(r) == history_timeline(
                        sampled(replay_state(history_view(h@), requests_view(requests@), opt_rows(revisions@)).snapshots),
                        now,
                    )
                } else {
                    r.source == TimelineSource::CurrentOnly && response_rows(r) == seq![now]
                },
                None => r.source == TimelineSource::CurrentOnly && response_rows(r) == seq![now],
            }
        }),
{
    let now = current_snapshot(current, today);
    let h = match history {
        Some(h) => h,
        None => {
            let mut snapshots: Vec<TimelineSnapshot> = Vec::new();
            let ghost nv = now@;
            snapshots.push(now);
            assert(snapshot_rows(snapshots@) =~= seq![nv]);
            return TimelineResponse { source: TimelineSource::CurrentOnly, stale_days, snapshots };
        },
    };
    if h.len() == 0 {
        let mut snapshots: Vec<TimelineSnapshot> = Vec::new();
        let ghost nv = now@;
        snapshots.push(now);
        assert(snapshot_rows(snapshots@) =~= seq![nv]);
        return TimelineResponse { source: TimelineSource::CurrentOnly, stale_days, snapshots };
    }
    let mut snapshots = replay_history(&h, requests, revisions);
    proof {
        let n = snapshots@.len();
        if n > 0 {
            assert(snapshot_rows(snapshots@)[n - 1] == snapshots@[n - 1]@);
            assert(total_count(snapshot_rows(snapshots@)[n - 1].outflow) <= change_count(history_view(h@)));
            lemma_total_append(outflow_rows(snapshots@[n - 1].outflow@), outflow_rows(now.outflow@));
            assert(outflow_rows(now.outflow@) =~= Seq::<OutflowRow>::empty());
            assert(outflow_rows(snapshots@[n - 1].outflow@) + outflow_rows(now.outflow@) =~= outflow_rows(snapshots@[n - 1].outflow@));
        }
    }
    push_or_replace_daily_snapshot(&mut snapshots, now);
    apply_project_ages(&mut snapshots);
    let sorted = sort_by_date(snapshots);
    let snapshots = dedup_snapshots(sorted);
    TimelineResponse { source: TimelineSource::GitHistory, stale_days, snapshots }
}

proof fn lemma_strided_count<A>(s: Seq<A>, step: int, k: int)
    requires
        step >= 1,
        0 <= k < s.len(),
    ensures
        strided(s, step, k).len() == (k + step - 1) / step,
    decreases k,
{
    if k > 0 {
        lemma_strided_count(s, step, k - 1);
        let j = k - 1;
        let q = j / step;
        let r = j % step;
        assert(j == q * step + r && 0 <= r < step) by (nonlinear_arith)
            requires
                step >= 1,
                j >= 0,
                q == j / step,
                r == j % step,
        ;
        assert((j + step - 1) / step == if r > 0 { q + 1 } else { q }) by (nonlinear_arith)
            requires
                j == q * step + r,
                0 <= r < step,
                step >= 1,
        ;
        assert((k + step - 1) / step == q + 1) by (nonlinear_arith)
            requires
                k == j + 1,
                j == q * step + r,
                0 <= r < step,
                step >= 1,
        ;
        assert(j != s.len() - 1);
        assert(strided(s, step, k).len() == strided(s, step, j).len() + (if j % step == 0 {
            1int
        } else {
            0int
        }));
    } else {
        assert((k + step - 1) / step == 0) by (nonlinear_arith)
            requires
                k == 0,
                step >= 1,
        ;
    }
}

/// A replayed history keeps at most `MAX_HISTORY_SNAPSHOTS` snapshots.
pub proof fn lemma_sampled_at_most_max<A>(s: Seq<A>)
    ensures
        sampled(s).len() <= MAX_HISTORY_SNAPSHOTS,
{
    if s.len() > MAX_HISTORY_SNAPSHOTS {
        let n = s.len() as int;
        let last = n - 1;
        let step = sample_step(n);
        let m = (MAX_HISTORY_SNAPSHOTS - 1) as int;
        assert(step >= 1 && last <= m * step) by (nonlinear_arith)
            requires
                last >= m,
                m == 89,
                step == (if last % m == 0 {
                    last / m
                } else {
                    last / m + 1
                }),
        ;
        lemma_strided_count(s, step, last);
        assert((last + step - 1) / step <= m) by (nonlinear_arith)
            requires
                step >= 1,
                last <= m * step,
                m == 89,
        ;
        assert(strided(s, step, n).len() <= strided(s, step, last).len() + 1);
    }
}

} // verus!
