//! The decisions of the embedded coding agent: which proposed edits of an
//! isolated workspace snapshot may be offered to the user, what they look
//! like as a diff, and whether they may be applied to the live repository.
//!
//! Running the agent, copying the repository and touching files is the
//! caller's part; this module decides from the texts it is handed.

use vstd::prelude::*;

use crate::project_file::{cat2, cat3, io_error_text, message_of, ProjectFileError};
use crate::text::{chars_of, concat, eq, join_with, lex_less, lex_lt, lemma_lex_irreflexive, lemma_lex_total,
    lemma_lex_transitive, string_of,
};

verus! {

#[derive(Debug)]
pub enum AgentError {
    RuntimeUnavailable(String),
    Runtime(String),
    InvalidResponse(String),
    UnknownSession,
    NoChange(String),
    UnsupportedChange(String),
    Io { operation: &'static str, source: std::io::Error },
    Project(ProjectFileError),
}

/// `t` is the message of `e`: its text, or for operating-system errors the
/// operation or file it concerns followed by what the system reported.
pub open spec fn agent_message(e: AgentError, t: Seq<char>) -> bool {
    match e {
        AgentError::RuntimeUnavailable(m) => t == m@,
        AgentError::Runtime(m) => t == m@,
        AgentError::InvalidResponse(m) => t == "Codex returned an invalid response: "@ + m@,
        AgentError::UnknownSession => t == "No HQ agent session"@,
        AgentError::NoChange(f) => t == "The agent has no proposed change for "@ + f@,
        AgentError::UnsupportedChange(m) => t == m@,
        AgentError::Io { operation, source } => t.len() >= operation@.len() + 2 && t.subrange(
            0,
            operation@.len() + 2int,
        ) == operation@ + ": "@,
        AgentError::Project(pe) => !(pe is Read || pe is Write) ==> t == message_of(&pe),
    }
}

impl AgentError {
    /// The human-readable message of the error.
    pub fn message(&self) -> (r: String)
        ensures
            agent_message(*self, r@),
    {
        match self {
            AgentError::RuntimeUnavailable(m) => string_of(&chars_of(m.as_str())),
            AgentError::Runtime(m) => string_of(&chars_of(m.as_str())),
            AgentError::InvalidResponse(m) => cat2(
                "Codex returned an invalid response: ",
                m.as_str(),
            ),
            AgentError::UnknownSession => string_of(&chars_of("No HQ agent session")),
            AgentError::NoChange(f) => cat2("The agent has no proposed change for ", f.as_str()),
            AgentError::UnsupportedChange(m) => string_of(&chars_of(m.as_str())),
            AgentError::Io { operation, source } => {
                let t = io_error_text(source);
                let r = cat3(operation, ": ", t.as_str());
                proof {
                    reveal_strlit(": ");
                    assert(r@.subrange(0, operation@.len() + 2int) =~= operation@ + ": "@);
                }
                r
            },
            AgentError::Project(e) => e.message(),
        }
    }

    /// The error a failed project-file operation becomes.
    pub fn from_project(e: ProjectFileError) -> (r: Self)
        ensures
            r == AgentError::Project(e),
    {
        AgentError::Project(e)
    }
}

#[derive(Debug, Clone)]
pub struct AgentRuntimeStatus {
    pub available: bool,
    pub provider: String,
    pub version: Option<String>,
    pub error: Option<String>,
}

impl AgentRuntimeStatus {
    /// The status reported for the outcome of asking the runtime for its
    /// version: available with that version, or unavailable with the message.
    pub fn from_version(version: Result<String, AgentError>) -> (r: Self)
        ensures
            r.provider@ == "codex"@,
            r.available == version is Ok,
            version matches Ok(v) ==> r.version == Some(v) && r.error is None,
            version is Err ==> r.version is None,
            version matches Err(e) ==> (r.error matches Some(t) && agent_message(e, t@)),
    {
        match version {
            Ok(v) => AgentRuntimeStatus {
                available: true,
                provider: string_of(&chars_of("codex")),
                version: Some(v),
                error: None,
            },
            Err(e) => AgentRuntimeStatus {
                available: false,
                provider: string_of(&chars_of("codex")),
                version: None,
                error: Some(e.message()),
            },
        }
    }
}

#[derive(Debug, Clone)]
pub struct AgentSessionInfo {
    pub thread_id: String,
    pub provider: String,
    pub model: String,
}

#[derive(Debug, Clone)]
pub struct AgentTurnInfo {
    pub thread_id: String,
    pub turn_id: String,
}

#[derive(Debug, Clone, Copy, PartialEq, Eq, Structural)]
pub enum AgentFileChangeKind {
    Modified,
    Created,
}

#[derive(Debug, Clone)]
pub struct AgentFileChange {
    pub file: String,
    pub kind: AgentFileChangeKind,
    pub diff: String,
}

/// A proposed change of one file: its name, its kind and its diff.
pub struct FileChangeView {
    pub file: Seq<char>,
    pub kind: AgentFileChangeKind,
    pub diff: Seq<char>,
}

impl View for AgentFileChange {
    type V = FileChangeView;

    open spec fn view(&self) -> FileChangeView {
        FileChangeView { file: self.file@, kind: self.kind, diff: self.diff@ }
    }
}

#[derive(Debug, Clone)]
pub struct AgentChange {
    pub changed: bool,
    pub diff: String,
    pub files: Vec<AgentFileChange>,
}

#[derive(Debug, Clone)]
pub struct AgentApplyResult {
    pub ok: bool,
    pub files: Vec<String>,
    pub created: Vec<String>,
}

// ---------------------------------------------------------------------------
// Project texts by file name
// ---------------------------------------------------------------------------

/// The texts of project files, by file name, kept in the order of the names.
#[derive(Debug, Clone)]
pub struct ProjectTexts {
    entries: Vec<(String, String)>,
}

pub type TextEntries = Seq<(Seq<char>, Seq<char>)>;

/// The text stored under `file`, if any (the first entry with that name).
pub open spec fn lookup(s: TextEntries, file: Seq<char>) -> Option<Seq<char>>
    decreases s.len(),
{
    if s.len() == 0 {
        None
    } else if s[0].0 == file {
        Some(s[0].1)
    } else {
        lookup(s.drop_first(), file)
    }
}


/// Names strictly increasing.
pub open spec fn names_sorted(s: TextEntries) -> bool {
    forall|i: int, j: int| 0 <= i < j < s.len() ==> lex_lt(#[trigger] s[i].0, #[trigger] s[j].0)
}

/// The entries after storing `text` under `file`: replaced in place where the
/// name is there, else inserted before the first name that sorts after it.
pub open spec fn stored(s: TextEntries, file: Seq<char>, text: Seq<char>) -> TextEntries
    decreases s.len(),
{
    if s.len() == 0 {
        seq![(file, text)]
    } else if s[0].0 == file {
        seq![(file, text)] + s.drop_first()
    } else if lex_lt(file, s[0].0) {
        seq![(file, text)] + s
    } else {
        seq![s[0]] + stored(s.drop_first(), file, text)
    }
}

proof fn lemma_lookup_skip(s: TextEntries, i: int, file: Seq<char>)
    requires
        0 <= i < s.len(),
    ensures
        lookup(s.skip(i), file) == if s[i].0 == file {
            Some(s[i].1)
        } else {
            lookup(s.skip(i + 1), file)
        },
{
    assert(s.skip(i).drop_first() =~= s.skip(i + 1));
}

proof fn lemma_lookup_sorted(s: TextEntries, i: int)
    requires
        names_sorted(s),
        0 <= i < s.len(),
    ensures
        lookup(s, s[i].0) == Some(s[i].1),
    decreases i,
{
    if i > 0 {
        assert(lex_lt(s[0].0, s[i].0));
        lemma_lex_irreflexive(s[0].0);
        lemma_lookup_sorted(s.drop_first(), i - 1);
    }
}

proof fn lemma_lookup_absent(s: TextEntries, file: Seq<char>)
    requires
        forall|j: int| 0 <= j < s.len() ==> s[j].0 != file,
    ensures
        lookup(s, file) is None,
    decreases s.len(),
{
    if s.len() > 0 {
        lemma_lookup_absent(s.drop_first(), file);
    }
}

proof fn lemma_stored_split(s: TextEntries, k: int, file: Seq<char>, text: Seq<char>)
    requires
        names_sorted(s),
        0 <= k <= s.len(),
        forall|j: int| 0 <= j < k ==> lex_lt(#[trigger] s[j].0, file),
        k < s.len() ==> !lex_lt(s[k].0, file),
    ensures
        k < s.len() && s[k].0 == file ==> stored(s, file, text) == s.take(k).push((file, text))
            + s.skip(k + 1),
        !(k < s.len() && s[k].0 == file) ==> stored(s, file, text) == s.take(k).push(
            (file, text),
        ) + s.skip(k),
    decreases k,
{
    if k == 0 {
        assert(s.take(0).push((file, text)) =~= seq![(file, text)]);
        assert(s.skip(0) =~= s);
        if s.len() > 0 && s[0].0 != file {
            lemma_lex_total(s[0].0, file);
        }
        if s.len() > 0 {
            assert(s.skip(1) =~= s.drop_first());
        }
    } else {
        let t = s.drop_first();
        lemma_lex_irreflexive(file);
        assert(s[0].0 != file);
        lemma_lex_total(s[0].0, file);
        assert forall|j: int| 0 <= j < k - 1 implies lex_lt(#[trigger] t[j].0, file) by {
            assert(t[j] == s[j + 1]);
        }
        lemma_stored_split(t, k - 1, file, text);
        if k < s.len() {
            assert(s.take(k).push((file, text)) + s.skip(k + 1) =~= seq![s[0]] + (t.take(
                k - 1,
            ).push((file, text)) + t.skip(k)));
        }
        assert(s.take(k).push((file, text)) + s.skip(k) =~= seq![s[0]] + (t.take(k - 1).push(
            (file, text),
        ) + t.skip(k - 1)));
    }
}

impl View for ProjectTexts {
    type V = TextEntries;

    closed spec fn view(&self) -> TextEntries {
        self.entries@.map_values(|e: (String, String)| (e.0@, e.1@))
    }
}

impl ProjectTexts {
    pub open spec fn wf(&self) -> bool {
        names_sorted(self@)
    }

    pub fn new() -> (r: Self)
        ensures
            r.wf(),
            r@ == Seq::<(Seq<char>, Seq<char>)>::empty(),
    {
        let r = ProjectTexts { entries: Vec::new() };
        assert(r@ =~= Seq::<(Seq<char>, Seq<char>)>::empty());
        r
    }

    pub fn len(&self) -> (n: usize)
        ensures
            n == self@.len(),
    {
        self.entries.len()
    }

    /// The name and text at a position in name order.
    pub fn entry(&self, i: usize) -> (r: (&String, &String))
        requires
            i < self@.len(),
        ensures
            r.0@ == self@[i as int].0,
            r.1@ == self@[i as int].1,
    {
        let e = &self.entries[i];
        (&e.0, &e.1)
    }

    /// The text stored under `file`.
    pub fn get(&self, file: &str) -> (r: Option<&String>)
        ensures
            r is Some <==> lookup(self@, file@) is Some,
            r matches Some(t) ==> lookup(self@, file@) == Some(t@),
    {
        let f = chars_of(file);
        let mut i: usize = 0;
        assert(self@.skip(0) =~= self@);
        while i < self.entries.len()
            invariant
                i <= self@.len(),
                self@.len() == self.entries@.len(),
                f@ == file@,
                lookup(self@, file@) == lookup(self@.skip(i as int), file@),
            decreases self.entries.len() - i,
        {
            proof {
                lemma_lookup_skip(self@, i as int, file@);
            }
            let k = chars_of(self.entries[i].0.as_str());
            if eq(&k, &f) {
                return Some(&self.entries[i].1);
            }
            i = i + 1;
        }
        assert(self@.skip(i as int) =~= Seq::<(Seq<char>, Seq<char>)>::empty());
        None
    }

    /// Whether some text is stored under `file`.
    pub fn contains(&self, file: &str) -> (r: bool)
        ensures
            r == lookup(self@, file@) is Some,
    {
        self.get(file).is_some()
    }

    /// Store `text` under `file`, replacing what was stored there.
    pub fn insert(&mut self, file: String, text: String)
        requires
            old(self).wf(),
        ensures
            final(self).wf(),
            final(self)@ == stored(old(self)@, file@, text@),
            lookup(final(self)@, file@) == Some(text@),
    {
        let ghost s = self@;
        let f = chars_of(file.as_str());
        let mut k: usize = 0;
        while k < self.entries.len() && lex_less(&chars_of(self.entries[k].0.as_str()), &f)
            invariant
                k <= self.entries@.len(),
                s == self@,
                s.len() == self.entries@.len(),
                f@ == file@,
                forall|j: int| 0 <= j < k ==> lex_lt(#[trigger] s[j].0, file@),
            decreases self.entries.len() - k,
        {
            k = k + 1;
        }
        proof {
            lemma_stored_split(s, k as int, file@, text@);
        }
        let ghost fv = file@;
        let ghost tv = text@;
        if k < self.entries.len() && eq(&chars_of(self.entries[k].0.as_str()), &f) {
            self.entries.set(k, (file, text));
            assert(self@ =~= s.take(k as int).push((fv, tv)) + s.skip(k + 1));
        } else {
            self.entries.insert(k, (file, text));
            assert(self@ =~= s.take(k as int).push((fv, tv)) + s.skip(k as int));
        }
        let ghost t = self@;
        proof {
            if k < s.len() && s[k as int].0 != fv {
                lemma_lex_total(s[k as int].0, fv);
            }
            assert forall|i: int, j: int| 0 <= i < j < t.len() implies lex_lt(
                #[trigger] t[i].0,
                #[trigger] t[j].0,
            ) by {
                let replaced = k < s.len() && s[k as int].0 == fv;
                let off: int = if replaced { 0 } else { 1 };
                if j < k {
                } else if j == k {
                } else if i < k {
                } else if i == k {
                    if replaced {
                    } else if j - 1 > k {
                        lemma_lex_transitive(fv, s[k as int].0, s[j - 1].0);
                    }
                } else {
                }
            }
            assert(t[k as int] == (fv, tv));
            lemma_lookup_sorted(t, k as int);
        }
    }
}

// ---------------------------------------------------------------------------
// The proposed change of a workspace
// ---------------------------------------------------------------------------

/// The unified diff of two texts, by line, under the two headers, as the
/// `similar` crate writes it; a function of its arguments alone.
pub uninterp spec fn unified_diff_text(
    before: Seq<char>,
    after: Seq<char>,
    old_header: Seq<char>,
    new_header: Seq<char>,
) -> Seq<char>;

/// Calls `similar::TextDiff::from_lines(..).unified_diff().header(..)` and
/// renders it: the result is named `unified_diff_text` of the four arguments.
#[verifier::external_body]
fn unified_diff(before: &str, after: &str, old_header: &str, new_header: &str) -> (r: String)
    ensures
        r@ == unified_diff_text(before@, after@, old_header@, new_header@),
{
    similar::TextDiff::from_lines(before, after).unified_diff().header(old_header, new_header).to_string()
}

/// Whether the workspace may have touched `file`: it is a project of the
/// snapshot or a project the workspace now holds.
pub open spec fn allowed(base: TextEntries, candidates: TextEntries, file: Seq<char>) -> bool {
    lookup(base, file) is Some || lookup(candidates, file) is Some
}

/// The changed paths that are not projects, in their order.
pub open spec fn unsupported_paths(
    paths: Seq<Seq<char>>,
    base: TextEntries,
    candidates: TextEntries,
) -> Seq<Seq<char>>
    decreases paths.len(),
{
    if paths.len() == 0 {
        seq![]
    } else {
        let r = unsupported_paths(paths.drop_last(), base, candidates);
        if allowed(base, candidates, paths.last()) {
            r
        } else {
            r.push(paths.last())
        }
    }
}

/// The first project of the snapshot that the workspace no longer holds.
pub open spec fn first_missing(base: TextEntries, candidates: TextEntries) -> Option<Seq<char>>
    decreases base.len(),
{
    if base.len() == 0 {
        None
    } else if lookup(candidates, base[0].0) is None {
        Some(base[0].0)
    } else {
        first_missing(base.drop_first(), candidates)
    }
}

/// The diff of one file: from its snapshot text, or from nothing for a new file.
pub open spec fn file_diff(file: Seq<char>, before: Option<Seq<char>>, after: Seq<char>) -> Seq<
    char,
> {
    match before {
        Some(b) => unified_diff_text(b, after, "a/"@ + file, "b/"@ + file),
        None => unified_diff_text(Seq::empty(), after, "/dev/null"@, "b/"@ + file),
    }
}

/// The files whose workspace text differs from the snapshot, in name order.
pub open spec fn file_changes(base: TextEntries, candidates: TextEntries) -> Seq<FileChangeView>
    decreases candidates.len(),
{
    if candidates.len() == 0 {
        seq![]
    } else {
        let r = file_changes(base, candidates.drop_last());
        let (f, c) = candidates.last();
        match lookup(base, f) {
            Some(b) => if b == c {
                r
            } else {
                r.push(FileChangeView { file: f, kind: AgentFileChangeKind::Modified, diff: file_diff(f, Some(b), c) })
            },
            None => r.push(FileChangeView { file: f, kind: AgentFileChangeKind::Created, diff: file_diff(f, None, c) }),
        }
    }
}

/// Append one diff to the combined diff, ending it with a newline.
pub open spec fn joined_diff(acc: Seq<char>, diff: Seq<char>) -> Seq<char> {
    let a = acc + diff;
    if a.len() > 0 && a.last() == '\n' {
        a
    } else {
        a.push('\n')
    }
}

/// All the diffs, one after another.
pub open spec fn combined_diff(files: Seq<FileChangeView>) -> Seq<char>
    decreases files.len(),
{
    if files.len() == 0 {
        seq![]
    } else {
        joined_diff(combined_diff(files.drop_last()), files.last().diff)
    }
}

/// The texts of a list of strings.
pub open spec fn string_views(v: Seq<String>) -> Seq<Seq<char>> {
    v.map_values(|p: String| p@)
}

/// The message for changes outside the projects.
pub open spec fn unsupported_message(paths: Seq<Seq<char>>) -> Seq<char> {
    "The agent changed unsupported files: "@ + crate::text::join(paths, ", "@)
        + ". Reject the workspace and try again."@
}

/// The message for a project that the workspace lost.
pub open spec fn deleted_message(file: Seq<char>) -> Seq<char> {
    "The agent deleted or invalidated "@ + file + "; project deletion is not supported"@
}

/// The change the workspace proposes, against the snapshot it started from.
///
/// `candidates` are the projects the workspace holds now and `changed_paths`
/// the paths that differ from its last commit. A changed path that is no
/// project of either side, or a project of the snapshot that is gone, makes
/// the change unsupported; else every project whose text differs is listed,
/// modified or created, with its diff, in name order.
pub fn pending_change(
    base: &ProjectTexts,
    candidates: &ProjectTexts,
    changed_paths: &Vec<String>,
) -> (r: Result<AgentChange, AgentError>)
    requires
        base.wf(),
        candidates.wf(),
    ensures
        ({
            let paths = string_views(changed_paths@);
            let bad = unsupported_paths(paths, base@, candidates@);
            let files = file_changes(base@, candidates@);
            if bad.len() > 0 {
                r matches Err(AgentError::UnsupportedChange(m)) && m@ == unsupported_message(bad)
            } else if first_missing(base@, candidates@) is Some {
                r matches Err(AgentError::UnsupportedChange(m)) && m@ == deleted_message(
                    first_missing(base@, candidates@)->0,
                )
            } else {
                r matches Ok(c) && c.changed == (files.len() > 0) && c.files@.map_values(
                    |f: AgentFileChange| f@,
                ) == files && c.diff@ == combined_diff(files)
            }
        }),
{
    let ghost paths = string_views(changed_paths@);
    let mut bad: Vec<Vec<char>> = Vec::new();
    let mut i: usize = 0;
    while i < changed_paths.len()
        invariant
            i <= changed_paths.len(),
            paths == string_views(changed_paths@),
            bad@.map_values(|l: Vec<char>| l@) == unsupported_paths(
                paths.take(i as int),
                base@,
                candidates@,
            ),
        decreases changed_paths.len() - i,
    {
        assert(paths.take(i + 1).drop_last() =~= paths.take(i as int));
        let p = &changed_paths[i];
        if !base.contains(p.as_str()) && !candidates.contains(p.as_str()) {
            bad.push(chars_of(p.as_str()));
        }
        i = i + 1;
        assert(bad@.map_values(|l: Vec<char>| l@) =~= unsupported_paths(
            paths.take(i as int),
            base@,
            candidates@,
        ));
    }
    assert(paths.take(i as int) =~= paths);
    if bad.len() > 0 {
        let listed = string_of(&join_with(&bad, &chars_of(", ")));
        let m = cat3("The agent changed unsupported files: ", listed.as_str(), ". Reject the workspace and try again.");
        return Err(AgentError::UnsupportedChange(m));
    }
    let mut j: usize = 0;
    assert(base@.skip(0) =~= base@);
    while j < base.len()
        invariant
            j <= base@.len(),
            unsupported_paths(string_views(changed_paths@), base@, candidates@).len() == 0,
            first_missing(base@, candidates@) == first_missing(base@.skip(j as int), candidates@),
        decreases base@.len() - j,
    {
        assert(base@.skip(j as int).drop_first() =~= base@.skip(j + 1));
        let (f, _t) = base.entry(j);
        if !candidates.contains(f.as_str()) {
            let m = cat3("The agent deleted or invalidated ", f.as_str(), "; project deletion is not supported");
            return Err(AgentError::UnsupportedChange(m));
        }
        j = j + 1;
    }
    assert(base@.skip(j as int) =~= Seq::<(Seq<char>, Seq<char>)>::empty());
    let mut files: Vec<AgentFileChange> = Vec::new();
    let mut combined: Vec<char> = Vec::new();
    let mut k: usize = 0;
    while k < candidates.len()
        invariant
            k <= candidates@.len(),
            files@.map_values(|f: AgentFileChange| f@) == file_changes(
                base@,
                candidates@.take(k as int),
            ),
            combined@ == combined_diff(file_changes(base@, candidates@.take(k as int))),
        decreases candidates@.len() - k,
    {
        let ghost prev = file_changes(base@, candidates@.take(k as int));
        assert(candidates@.take(k + 1).drop_last() =~= candidates@.take(k as int));
        assert(candidates@.take(k + 1).last() == candidates@[k as int]);
        let (f, c) = candidates.entry(k);
        let before = base.get(f.as_str());
        let change = match before {
            Some(b) => {
                if eq(&chars_of(b.as_str()), &chars_of(c.as_str())) {
                    None
                } else {
                    let old_header = cat2("a/", f.as_str());
                    let new_header = cat2("b/", f.as_str());
                    let d = unified_diff(b.as_str(), c.as_str(), old_header.as_str(), new_header.as_str());
                    Some(AgentFileChange {
                        file: string_of(&chars_of(f.as_str())),
                        kind: AgentFileChangeKind::Modified,
                        diff: d,
                    })
                }
            },
            None => {
                let new_header = cat2("b/", f.as_str());
                let nothing = string_of(&Vec::new());
                let d = unified_diff(nothing.as_str(), c.as_str(), "/dev/null", new_header.as_str());
                assert(nothing@ =~= Seq::<char>::empty());
                Some(AgentFileChange {
                    file: string_of(&chars_of(f.as_str())),
                    kind: AgentFileChangeKind::Created,
                    diff: d,
                })
            },
        };
        match change {
            Some(ch) => {
                let dc = chars_of(ch.diff.as_str());
                combined = concat(&combined, &dc);
                let n = combined.len();
                if !(n > 0 && combined[n - 1] == '\n') {
                    combined.push('\n');
                }
                let ghost v = ch@;
                files.push(ch);
                proof {
                    let now = file_changes(base@, candidates@.take(k + 1));
                    let fc = candidates@.take(k + 1).last();
                    assert(fc.0 == f@ && fc.1 == c@);
                    assert(v.file == f@);
                    match lookup(base@, f@) {
                        Some(b) => {
                            assert(b != c@);
                            assert(v.kind == AgentFileChangeKind::Modified);
                            assert(v.diff == file_diff(f@, Some(b), c@));
                        },
                        None => {
                            assert(v.kind == AgentFileChangeKind::Created);
                            assert(v.diff == file_diff(f@, None, c@));
                        },
                    }
                    assert(now == prev.push(v));
                    assert(now.drop_last() =~= prev);
                    assert(files@.map_values(|f: AgentFileChange| f@) =~= prev.push(v));
                }
            },
            None => {
                assert(file_changes(base@, candidates@.take(k + 1)) == prev);
            },
        }
        k = k + 1;
    }
    assert(candidates@.take(k as int) =~= candidates@);
    let changed = files.len() > 0;
    Ok(AgentChange { changed, diff: string_of(&combined), files })
}

// ---------------------------------------------------------------------------
// Applying an approved change
// ---------------------------------------------------------------------------

/// An approved change applies only when it changes something.
pub fn require_changed(change: &AgentChange) -> (r: Result<(), AgentError>)
    ensures
        r is Ok <==> change.changed,
        r matches Err(AgentError::NoChange(what)) ==> what@ == "HQ"@,
        r is Err ==> r matches Err(AgentError::NoChange(_)),
{
    if change.changed {
        Ok(())
    } else {
        Err(AgentError::NoChange(string_of(&chars_of("HQ"))))
    }
}

/// The snapshot text of a modified file, which its live text must still be.
pub fn baseline_of<'a>(base: &'a ProjectTexts, file: &str) -> (r: Result<&'a String, AgentError>)
    ensures
        lookup(base@, file@) matches Some(t) ==> (r matches Ok(s) && s@ == t),
        lookup(base@, file@) is None ==> (r matches Err(AgentError::InvalidResponse(m)) && m@
            == "Missing agent baseline for "@ + file@),
{
    match base.get(file) {
        Some(t) => Ok(t),
        None => Err(AgentError::InvalidResponse(cat2("Missing agent baseline for ", file))),
    }
}

/// A modified file applies only where its live text is still the snapshot.
pub fn check_live_unchanged(file: &str, baseline: &str, live: &str) -> (r: Result<(), AgentError>)
    ensures
        r is Ok <==> live@ == baseline@,
        r is Err ==> (r matches Err(AgentError::Project(ProjectFileError::RevisionConflict { file: f }))
            && f@ == file@),
{
    if eq(&chars_of(live), &chars_of(baseline)) {
        Ok(())
    } else {
        Err(AgentError::Project(ProjectFileError::RevisionConflict { file: string_of(&chars_of(file)) }))
    }
}

/// A created file applies only where nothing is at its path yet.
pub fn check_creatable(file: &str, exists: bool) -> (r: Result<(), AgentError>)
    ensures
        r is Ok <==> !exists,
        r is Err ==> (r matches Err(AgentError::Project(ProjectFileError::AlreadyExists { kind, name }))
            && kind@ == "project"@ && name@ == file@),
{
    if exists {
        Err(AgentError::Project(ProjectFileError::AlreadyExists { kind: "project", name: string_of(&chars_of(file)) }))
    } else {
        Ok(())
    }
}

/// What HQ holds where a changed file goes, as read just before applying.
#[derive(Debug)]
pub enum LiveFile {
    /// The path of a file to modify does not resolve inside HQ.
    Unresolved,
    /// The file to modify could not be read.
    Unreadable,
    /// The live text of a file to modify.
    Text(String),
    /// Whether something is at the path of a file to create.
    Exists(bool),
}

/// Why an approved change stops before anything is written.
#[derive(Debug)]
pub enum ApplyStop {
    /// Reaching the file at this index failed; the error is the reader's.
    Io(usize),
    /// A check refused the change.
    Refused(AgentError),
}

/// How the check of one changed file comes out.
pub enum FileCheck {
    Ready,
    Io,
    NoBaseline,
    Conflict,
    Taken,
}

/// The check of one changed file against its snapshot and what HQ holds: a
/// modified file needs a resolved path, a snapshot and a live text equal to
/// it; a created file needs its path to be free.
pub open spec fn file_check(f: FileChangeView, base: TextEntries, live: LiveFile) -> FileCheck {
    match f.kind {
        AgentFileChangeKind::Modified => if live is Unresolved {
            FileCheck::Io
        } else {
            match lookup(base, f.file) {
                None => FileCheck::NoBaseline,
                Some(b) => match live {
                    LiveFile::Text(t) => if t@ == b {
                        FileCheck::Ready
                    } else {
                        FileCheck::Conflict
                    },
                    _ => FileCheck::Io,
                },
            }
        },
        AgentFileChangeKind::Created => match live {
            LiveFile::Exists(true) => FileCheck::Taken,
            LiveFile::Exists(false) => FileCheck::Ready,
            _ => FileCheck::Io,
        },
    }
}

/// `stop` is what the check of the file at index `i` stops with.
pub open spec fn stops_at(stop: ApplyStop, i: int, f: FileChangeView, base: TextEntries, live: LiveFile) -> bool {
    match file_check(f, base, live) {
        FileCheck::Ready => false,
        FileCheck::Io => stop matches ApplyStop::Io(j) && j == i,
        FileCheck::NoBaseline => stop matches ApplyStop::Refused(AgentError::InvalidResponse(m)) && m@
            == "Missing agent baseline for "@ + f.file,
        FileCheck::Conflict => stop matches ApplyStop::Refused(
            AgentError::Project(ProjectFileError::RevisionConflict { file }),
        ) && file@ == f.file,
        FileCheck::Taken => stop matches ApplyStop::Refused(
            AgentError::Project(ProjectFileError::AlreadyExists { kind, name }),
        ) && kind@ == "project"@ && name@ == f.file,
    }
}

/// Check every file of an approved change before anything is written:
/// the change must change something, and each file in turn must pass its
/// check; the first that does not stops the whole change.
pub fn check_apply(change: &AgentChange, base: &ProjectTexts, live: &Vec<LiveFile>) -> (r: Result<(), ApplyStop>)
    requires
        live@.len() == change.files@.len(),
    ensures
        match r {
            Ok(()) => change.changed && forall|i: int|
                0 <= i < live@.len() ==> #[trigger] file_check(change.files@[i]@, base@, live@[i]) is Ready,
            Err(stop) => {
                ||| !change.changed && (stop matches ApplyStop::Refused(AgentError::NoChange(w)) && w@ == "HQ"@)
                ||| change.changed && exists|i: int|
                    0 <= i < live@.len() && (forall|j: int|
                        0 <= j < i ==> #[trigger] file_check(change.files@[j]@, base@, live@[j]) is Ready)
                        && #[trigger] stops_at(stop, i, change.files@[i]@, base@, live@[i])
            },
        },
{
    if let Err(e) = require_changed(change) {
        return Err(ApplyStop::Refused(e));
    }
    let mut i: usize = 0;
    while i < change.files.len()
        invariant
            i <= change.files@.len(),
            live@.len() == change.files@.len(),
            change.changed,
            forall|j: int| 0 <= j < i ==> #[trigger] file_check(change.files@[j]@, base@, live@[j]) is Ready,
        decreases change.files@.len() - i,
    {
        let f = &change.files[i];
        let ghost fv = f@;
        match f.kind {
            AgentFileChangeKind::Modified => {
                if let LiveFile::Unresolved = &live[i] {
                    assert(stops_at(ApplyStop::Io(i), i as int, fv, base@, live@[i as int]));
                    return Err(ApplyStop::Io(i));
                }
                let b = match baseline_of(base, f.file.as_str()) {
                    Ok(b) => b,
                    Err(e) => {
                        let stop = ApplyStop::Refused(e);
                        assert(stops_at(stop, i as int, fv, base@, live@[i as int]));
                        return Err(stop);
                    },
                };
                match &live[i] {
                    LiveFile::Text(t) => {
                        if let Err(e) = check_live_unchanged(f.file.as_str(), b.as_str(), t.as_str()) {
                            let stop = ApplyStop::Refused(e);
                            assert(stops_at(stop, i as int, fv, base@, live@[i as int]));
                            return Err(stop);
                        }
                    },
                    _ => {
                        assert(stops_at(ApplyStop::Io(i), i as int, fv, base@, live@[i as int]));
                        return Err(ApplyStop::Io(i));
                    },
                }
            },
            AgentFileChangeKind::Created => {
                match &live[i] {
                    LiveFile::Exists(x) => {
                        if let Err(e) = check_creatable(f.file.as_str(), *x) {
                            let stop = ApplyStop::Refused(e);
                            assert(stops_at(stop, i as int, fv, base@, live@[i as int]));
                            return Err(stop);
                        }
                    },
                    _ => {
                        assert(stops_at(ApplyStop::Io(i), i as int, fv, base@, live@[i as int]));
                        return Err(ApplyStop::Io(i));
                    },
                }
            },
        }
        assert(file_check(change.files@[i as int]@, base@, live@[i as int]) is Ready);
        i = i + 1;
    }
    Ok(())
}

/// The workspace copy must hold the same project files as HQ did when the
/// copy started; otherwise HQ changed meanwhile and the session is refused.
pub fn check_workspace_copy(base: &ProjectTexts, copied: &ProjectTexts) -> (r: Result<(), AgentError>)
    ensures
        r is Ok <==> base@ == copied@,
        r is Err ==> (r matches Err(AgentError::Runtime(m)) && m@
            == "HQ changed while the agent workspace was being prepared; try again"@),
{
    let mut same = base.len() == copied.len();
    let mut i: usize = 0;
    while same && i < base.len()
        invariant
            same ==> base@.len() == copied@.len(),
            i <= base@.len(),
            same ==> forall|j: int| 0 <= j < i ==> base@[j] == copied@[j],
            !same ==> base@ != copied@,
        decreases base@.len() - i,
    {
        let (bf, bt) = base.entry(i);
        let (cf, ct) = copied.entry(i);
        if !(eq(&chars_of(bf.as_str()), &chars_of(cf.as_str())) && eq(
            &chars_of(bt.as_str()),
            &chars_of(ct.as_str()),
        )) {
            same = false;
            assert(base@[i as int] != copied@[i as int]);
        }
        i = i + 1;
    }
    if same {
        assert(base@ =~= copied@);
        Ok(())
    } else {
        Err(AgentError::Runtime(string_of(&chars_of("HQ changed while the agent workspace was being prepared; try again"))))
    }
}

/// A new session from the runtime's reply: its thread id is required; the
/// provider defaults to `openai` and the model to `default`.
pub fn session_info_from(thread_id: Option<&str>, provider: Option<&str>, model: Option<&str>) -> (r: Result<
    AgentSessionInfo,
    AgentError,
>)
    ensures
        thread_id is None ==> (r matches Err(AgentError::InvalidResponse(m)) && m@
            == "thread/start omitted thread.id"@),
        thread_id matches Some(t) ==> (r matches Ok(info) && info.thread_id@ == t@
            && info.provider@ == match provider {
            Some(p) => p@,
            None => "openai"@,
        } && info.model@ == match model {
            Some(m) => m@,
            None => "default"@,
        }),
{
    let t = match thread_id {
        Some(t) => t,
        None => {
            return Err(AgentError::InvalidResponse(string_of(&chars_of("thread/start omitted thread.id"))));
        },
    };
    let p = match provider {
        Some(p) => p,
        None => "openai",
    };
    let m = match model {
        Some(m) => m,
        None => "default",
    };
    Ok(
        AgentSessionInfo {
            thread_id: string_of(&chars_of(t)),
            provider: string_of(&chars_of(p)),
            model: string_of(&chars_of(m)),
        },
    )
}

/// A started turn from the runtime's reply: its turn id is required.
pub fn turn_info_from(thread_id: &str, turn_id: Option<&str>) -> (r: Result<AgentTurnInfo, AgentError>)
    ensures
        turn_id is None ==> (r matches Err(AgentError::InvalidResponse(m)) && m@
            == "turn/start omitted turn.id"@),
        turn_id matches Some(t) ==> (r matches Ok(info) && info.thread_id@ == thread_id@
            && info.turn_id@ == t@),
{
    match turn_id {
        Some(t) => Ok(AgentTurnInfo { thread_id: string_of(&chars_of(thread_id)), turn_id: string_of(&chars_of(t)) }),
        None => Err(AgentError::InvalidResponse(string_of(&chars_of("turn/start omitted turn.id")))),
    }
}

/// The proposed text of a changed file.
pub fn proposed_text<'a>(candidates: &'a ProjectTexts, file: &str) -> (r: Result<&'a String, AgentError>)
    ensures
        lookup(candidates@, file@) matches Some(t) ==> (r matches Ok(s) && s@ == t),
        lookup(candidates@, file@) is None ==> (r matches Err(AgentError::InvalidResponse(m)) && m@
            == "Missing proposed contents for "@ + file@),
{
    match candidates.get(file) {
        Some(t) => Ok(t),
        None => Err(AgentError::InvalidResponse(cat2("Missing proposed contents for ", file))),
    }
}

impl AgentApplyResult {
    /// Nothing applied yet.
    pub fn new() -> (r: Self)
        ensures
            r.ok,
            r.files@.len() == 0,
            r.created@.len() == 0,
    {
        AgentApplyResult { ok: true, files: Vec::new(), created: Vec::new() }
    }

    /// Record that `change` was written with `text`: the snapshot now holds
    /// that text, the file is listed, and a created file is listed as created.
    pub fn record(&mut self, base: &mut ProjectTexts, change: &AgentFileChange, text: String)
        requires
            old(base).wf(),
        ensures
            final(base).wf(),
            final(base)@ == stored(old(base)@, change.file@, text@),
            final(self).ok == old(self).ok,
            final(self).files@.map_values(|f: String| f@) == old(self).files@.map_values(
                |f: String| f@,
            ).push(change.file@),
            change.kind is Created ==> final(self).created@.map_values(|f: String| f@) == old(
                self,
            ).created@.map_values(|f: String| f@).push(change.file@),
            change.kind is Modified ==> final(self).created@ == old(self).created@,
    {
        let ghost files0 = self.files@.map_values(|f: String| f@);
        let ghost created0 = self.created@.map_values(|f: String| f@);
        if change.kind == AgentFileChangeKind::Created {
            self.created.push(string_of(&chars_of(change.file.as_str())));
            assert(self.created@.map_values(|f: String| f@) =~= created0.push(change.file@));
        }
        base.insert(string_of(&chars_of(change.file.as_str())), text);
        self.files.push(string_of(&chars_of(change.file.as_str())));
        assert(self.files@.map_values(|f: String| f@) =~= files0.push(change.file@));
    }
}

// ---------------------------------------------------------------------------
// Workspace bookkeeping
// ---------------------------------------------------------------------------

/// The paths that differ in the workspace, from the lines of the two listings
/// (changed known files, then new files): sorted, each once.
pub fn changed_paths(known: &Vec<String>, fresh: &Vec<String>) -> (r: Vec<String>)
    ensures
        crate::text::strictly_sorted(r@.map_values(|p: String| p@)),
        r@.map_values(|p: String| p@).to_set() == known@.map_values(|p: String| p@).to_set()
            + fresh@.map_values(|p: String| p@).to_set(),
{
    let mut acc: Vec<Vec<char>> = Vec::new();
    let ghost ts = known@.map_values(|p: String| p@);
    let ghost us = fresh@.map_values(|p: String| p@);
    let mut i: usize = 0;
    while i < known.len()
        invariant
            i <= known.len(),
            ts == known@.map_values(|p: String| p@),
            crate::text::strictly_sorted(acc@.map_values(|e: Vec<char>| e@)),
            acc@.map_values(|e: Vec<char>| e@).to_set() == ts.take(i as int).to_set(),
        decreases known.len() - i,
    {
        crate::text::insert_sorted(&mut acc, chars_of(known[i].as_str()));
        proof {
            assert(ts.take(i + 1) =~= ts.take(i as int).push(ts[i as int]));
            ts.take(i as int).lemma_push_to_set_commute(ts[i as int]);
        }
        i = i + 1;
    }
    assert(ts.take(i as int) =~= ts);
    let mut j: usize = 0;
    while j < fresh.len()
        invariant
            j <= fresh.len(),
            us == fresh@.map_values(|p: String| p@),
            crate::text::strictly_sorted(acc@.map_values(|e: Vec<char>| e@)),
            acc@.map_values(|e: Vec<char>| e@).to_set() == ts.to_set() + us.take(j as int).to_set(),
        decreases fresh.len() - j,
    {
        crate::text::insert_sorted(&mut acc, chars_of(fresh[j].as_str()));
        proof {
            assert(us.take(j + 1) =~= us.take(j as int).push(us[j as int]));
            us.take(j as int).lemma_push_to_set_commute(us[j as int]);
            assert(ts.to_set() + us.take(j + 1).to_set() =~= (ts.to_set() + us.take(j as int).to_set()).insert(us[j as int]));
        }
        j = j + 1;
    }
    assert(us.take(j as int) =~= us);
    let mut r: Vec<String> = Vec::new();
    let mut k: usize = 0;
    while k < acc.len()
        invariant
            k <= acc.len(),
            r@.map_values(|p: String| p@) == acc@.map_values(|e: Vec<char>| e@).take(k as int),
        decreases acc.len() - k,
    {
        let ghost before = r@.map_values(|p: String| p@);
        r.push(string_of(&acc[k]));
        assert(r@.map_values(|p: String| p@) =~= before.push(acc@[k as int]@));
        k = k + 1;
        assert(r@.map_values(|p: String| p@) =~= acc@.map_values(|e: Vec<char>| e@).take(k as int));
    }
    assert(acc@.map_values(|e: Vec<char>| e@).take(k as int) =~= acc@.map_values(|e: Vec<char>| e@));
    r
}

/// Whether the workspace has changes to offer or discard.
pub fn workspace_is_dirty(paths: &Vec<String>) -> (r: bool)
    ensures
        r == (paths@.len() > 0),
{
    paths.len() > 0
}

/// A turn needs a message with more than whitespace.
pub fn check_turn_message(message: &str) -> (r: Result<(), AgentError>)
    ensures
        r is Ok <==> crate::text::trim(message@).len() > 0,
        r matches Err(AgentError::Runtime(m)) ==> m@ == "Agent message cannot be empty"@,
        r is Err ==> r is Err && (r matches Err(AgentError::Runtime(_))),
{
    let t = crate::text::trimmed(&chars_of(message));
    if t.len() == 0 {
        Err(AgentError::Runtime(string_of(&chars_of("Agent message cannot be empty"))))
    } else {
        Ok(())
    }
}

/// The text sent for a turn: the message, preceded by a note on the file
/// the user is viewing where there is one that is not blank.
pub fn turn_text(message: &str, context_file: Option<&str>) -> (r: String)
    ensures
        (match context_file {
            Some(f) => if crate::text::trim(f@).len() > 0 {
                r@ == "The user is currently viewing `"@ + f@
                    + "` beside this conversation. Treat it as likely context, but the request may concern any part of HQ. Read the file from the workspace before answering.\n\n"@
                    + message@
            } else {
                r@ == message@
            },
            None => r@ == message@,
        }),
{
    match context_file {
        Some(f) => {
            if crate::text::trimmed(&chars_of(f)).len() > 0 {
                crate::project_file::cat4(
                    "The user is currently viewing `",
                    f,
                    "` beside this conversation. Treat it as likely context, but the request may concern any part of HQ. Read the file from the workspace before answering.\n\n",
                    message,
                )
            } else {
                string_of(&chars_of(message))
            }
        },
        None => string_of(&chars_of(message)),
    }
}

/// Whether a file of a track directory is a project of the workspace: a
/// Markdown name not skipped whose text has a title and a status. The
/// project is `track/name` with its text; a text that then does not pass
/// as a project file fails the collection.
pub fn project_candidate(
    track: &str,
    name: &str,
    text: &str,
    skip_files: &Vec<String>,
    now: &crate::dates::Instant,
) -> (r: Result<Option<(String, String)>, AgentError>)
    ensures
        !crate::text::ends_with(name@, ".md"@) || string_views(skip_files@).contains(name@) ==> r matches Ok(None),
        crate::text::ends_with(name@, ".md"@) && !string_views(skip_files@).contains(name@)
            && crate::frontmatter::document_fields(text@) is None ==> r matches Ok(None),
        crate::text::ends_with(name@, ".md"@) && !string_views(skip_files@).contains(name@)
            && crate::frontmatter::document_fields(text@) is Some ==> (r matches Ok(Some((f, t)))
            && f@ == track@ + "/"@ + name@ && t@ == text@),
{
    let n = chars_of(name);
    if !crate::text::has_suffix(&n, &chars_of(".md")) {
        return Ok(None);
    }
    let ghost sk = string_views(skip_files@);
    let mut i: usize = 0;
    while i < skip_files.len()
        invariant
            i <= skip_files.len(),
            sk == string_views(skip_files@),
            n@ == name@,
            forall|j: int| 0 <= j < i ==> sk[j] != name@,
        decreases skip_files.len() - i,
    {
        if eq(&chars_of(skip_files[i].as_str()), &n) {
            assert(sk[i as int] == name@);
            return Ok(None);
        }
        i = i + 1;
    }
    assert(!sk.contains(name@));
    let file = cat3(track, "/", name);
    match crate::project::Project::from_text(text, track, file.as_str(), now) {
        None => Ok(None),
        Some(_) => {
            match crate::project_file::validate_project_text(file.as_str(), text) {
                Ok(()) => Ok(Some((file, string_of(&chars_of(text))))),
                Err(e) => Err(AgentError::Project(e)),
            }
        },
    }
}

} // verus!
