//! Undo history of the changes made to project files during a session.
//!
//! The history is a bounded stack of entries; each entry lists the files one
//! action changed with their text before (none for a created file) and after.
//! Reading and writing the files is the caller's part: the history says what
//! to check and what to restore, and is only popped once that is done.

use vstd::prelude::*;

use crate::project_file::{cat2, cat4, message_of, ProjectFileError};
use crate::text::{chars_of, eq, string_of};

verus! {

/// How many entries the history keeps; the oldest is dropped beyond it.
pub const UNDO_LIMIT: usize = 50;

#[derive(Debug)]
pub enum UndoError {
    NothingToUndo,
    Conflict { file: String },
    StateUnavailable,
    Remove { file: String, source: std::io::Error },
    Project(ProjectFileError),
}

impl UndoError {
    /// The human-readable message of the error.
    pub fn message(&self) -> (r: String)
        ensures
            self is NothingToUndo ==> r@ == "Nothing to undo"@,
            self matches UndoError::Conflict { file } ==> r@ == file@
                + " changed after this action; reload before trying to undo it"@,
            self is StateUnavailable ==> r@ == "Undo history is unavailable"@,
            self matches UndoError::Remove { file, source } ==> r@.len() >= file@.len() + 29
                && r@.subrange(0, file@.len() + 29int) == "Could not undo creation of "@ + file@
                + ": "@,
            self matches UndoError::Project(e) ==> !(e is Read || e is Write) ==> r@ == message_of(
                &e,
            ),
    {
        match self {
            UndoError::NothingToUndo => string_of(&chars_of("Nothing to undo")),
            UndoError::Conflict { file } => cat2(
                file.as_str(),
                " changed after this action; reload before trying to undo it",
            ),
            UndoError::StateUnavailable => string_of(&chars_of("Undo history is unavailable")),
            UndoError::Remove { file, source } => {
                let t = crate::project_file::io_error_text(source);
                let r = cat4("Could not undo creation of ", file.as_str(), ": ", t.as_str());
                proof {
                    reveal_strlit("Could not undo creation of ");
                    reveal_strlit(": ");
                    assert(r@.subrange(0, file@.len() + 29int) =~= "Could not undo creation of "@
                        + file@ + ": "@);
                }
                r
            },
            UndoError::Project(e) => e.message(),
        }
    }

    /// The error a failed project-file operation becomes.
    pub fn from_project(e: ProjectFileError) -> (r: Self)
        ensures
            r == UndoError::Project(e),
    {
        UndoError::Project(e)
    }
}

/// Whether there is something to undo, and its label.
#[derive(Debug, Clone)]
pub struct UndoStatus {
    pub available: bool,
    pub label: Option<String>,
}

/// What an undo restored.
#[derive(Debug, Clone)]
pub struct UndoResult {
    pub ok: bool,
    pub label: String,
    pub files: Vec<String>,
}

/// One file of an entry: its text before the action (none when the action
/// created it) and after.
#[derive(Debug)]
pub struct FileRevision {
    pub file: String,
    pub before: Option<String>,
    pub after: String,
}

pub struct RevisionView {
    pub file: Seq<char>,
    pub before: Option<Seq<char>>,
    pub after: Seq<char>,
}

impl View for FileRevision {
    type V = RevisionView;

    open spec fn view(&self) -> RevisionView {
        RevisionView {
            file: self.file@,
            before: match self.before {
                Some(b) => Some(b@),
                None => None,
            },
            after: self.after@,
        }
    }
}

pub open spec fn revisions_view(v: Seq<FileRevision>) -> Seq<RevisionView> {
    v.map_values(|r: FileRevision| r@)
}

/// The files an action is about to change, with their text before it.
#[derive(Debug)]
pub struct UndoDraft {
    files: Vec<FileRevision>,
}

impl UndoDraft {
    pub closed spec fn spec_files(&self) -> Seq<RevisionView> {
        revisions_view(self.files@)
    }

    /// The files of the draft, in the order in which `record_files` takes their new texts.
    pub fn file_names(&self) -> (r: Vec<String>)
        ensures
            r@.len() == self.spec_files().len(),
            forall|i: int| 0 <= i < r@.len() ==> (#[trigger] r@[i])@ == self.spec_files()[i].file,
    {
        let mut r: Vec<String> = Vec::new();
        let mut i: usize = 0;
        while i < self.files.len()
            invariant
                i <= self.files.len(),
                r@.len() == i,
                forall|j: int| 0 <= j < i ==> (#[trigger] r@[j])@ == self.files@[j].file@,
            decreases self.files.len() - i,
        {
            r.push(string_of(&chars_of(self.files[i].file.as_str())));
            i = i + 1;
        }
        r
    }
}

#[derive(Debug)]
struct UndoEntry {
    label: String,
    files: Vec<FileRevision>,
}

pub struct EntryView {
    pub label: Seq<char>,
    pub files: Seq<RevisionView>,
}

impl View for UndoEntry {
    type V = EntryView;

    closed spec fn view(&self) -> EntryView {
        EntryView { label: self.label@, files: revisions_view(self.files@) }
    }
}

/// What undoing an entry does to one file: check that it still holds
/// `expected`, then write `restore` back, or remove the file when there is
/// nothing to restore (the action created it).
#[derive(Debug)]
pub struct UndoStep {
    pub file: String,
    pub expected: String,
    pub restore: Option<String>,
}

/// The undo history of a session, oldest entry first.
#[derive(Debug)]
pub struct UndoManager {
    entries: Vec<UndoEntry>,
}

impl View for UndoManager {
    type V = Seq<EntryView>;

    closed spec fn view(&self) -> Seq<EntryView> {
        self.entries@.map_values(|e: UndoEntry| e@)
    }
}

/// The history after an entry is pushed: the oldest entry goes when the
/// history is full.
pub open spec fn pushed(h: Seq<EntryView>, e: EntryView) -> Seq<EntryView> {
    if h.len() >= UNDO_LIMIT {
        h.drop_first().push(e)
    } else {
        h.push(e)
    }
}

/// The revisions that record: the captured files whose text changed, then
/// the created files.
pub open spec fn recorded_revisions(
    captured: Seq<RevisionView>,
    after: Seq<Seq<char>>,
    created: Seq<(Seq<char>, Seq<char>)>,
) -> Seq<RevisionView>
    decreases captured.len() + created.len(),
{
    if created.len() > 0 {
        recorded_revisions(captured, after, created.drop_last()).push(
            RevisionView { file: created.last().0, before: None, after: created.last().1 },
        )
    } else if captured.len() > 0 {
        let prev = recorded_revisions(captured.drop_last(), after, created);
        let r = captured.last();
        let a = after[captured.len() - 1];
        if r.before == Some(a) {
            prev
        } else {
            prev.push(RevisionView { file: r.file, before: r.before, after: a })
        }
    } else {
        Seq::empty()
    }
}

/// The steps that undo an entry, in its order.
pub open spec fn undo_steps(files: Seq<RevisionView>) -> Seq<(Seq<char>, Seq<char>, Option<Seq<char>>)> {
    files.map_values(|r: RevisionView| (r.file, r.after, r.before))
}

pub open spec fn steps_view(v: Seq<UndoStep>) -> Seq<(Seq<char>, Seq<char>, Option<Seq<char>>)> {
    v.map_values(
        |s: UndoStep|
            (
                s.file@,
                s.expected@,
                match s.restore {
                    Some(t) => Some(t@),
                    None => None,
                },
            ),
    )
}

/// The first file of an entry whose current text is not the text the action
/// left, if any.
pub open spec fn first_conflict(files: Seq<RevisionView>, current: Seq<Seq<char>>, k: int) -> Option<
    int,
>
    decreases files.len() - k,
{
    if k < 0 || k >= files.len() {
        None
    } else if current[k] != files[k].after {
        Some(k)
    } else {
        first_conflict(files, current, k + 1)
    }
}

fn copy_string(s: &String) -> (r: String)
    ensures
        r@ == s@,
{
    string_of(&chars_of(s.as_str()))
}

fn copy_revision(r: &FileRevision) -> (c: FileRevision)
    ensures
        c@ == r@,
{
    FileRevision {
        file: copy_string(&r.file),
        before: match &r.before {
            Some(b) => Some(copy_string(b)),
            None => None,
        },
        after: copy_string(&r.after),
    }
}

impl UndoManager {
    /// The history holds at most `UNDO_LIMIT` entries.
    pub closed spec fn wf(&self) -> bool {
        self.entries.len() <= UNDO_LIMIT
    }

    /// An empty history.
    pub fn new() -> (r: Self)
        ensures
            r.wf(),
            r@ == Seq::<EntryView>::empty(),
    {
        let r = UndoManager { entries: Vec::new() };
        assert(r@ =~= Seq::<EntryView>::empty());
        r
    }

    /// The history holds at most `UNDO_LIMIT` entries.
    pub proof fn lemma_bounded(&self)
        requires
            self.wf(),
        ensures
            self@.len() <= UNDO_LIMIT,
    {
    }

    /// Start recording an action: the files it will change, with their
    /// current text.
    pub fn capture_files(&self, files: Vec<(String, String)>) -> (r: UndoDraft)
        ensures
            r.spec_files() == files@.map_values(
                |f: (String, String)| RevisionView { file: f.0@, before: Some(f.1@), after: Seq::empty() },
            ),
    {
        let ghost fv = files@.map_values(
            |f: (String, String)| RevisionView { file: f.0@, before: Some(f.1@), after: Seq::empty() },
        );
        let mut out: Vec<FileRevision> = Vec::new();
        let mut i: usize = 0;
        while i < files.len()
            invariant
                i <= files.len(),
                fv == files@.map_values(
                    |f: (String, String)|
                        RevisionView { file: f.0@, before: Some(f.1@), after: Seq::empty() },
                ),
                revisions_view(out@) == fv.subrange(0, i as int),
            decreases files.len() - i,
        {
            let ghost before = revisions_view(out@);
            let rev = FileRevision {
                file: copy_string(&files[i].0),
                before: Some(copy_string(&files[i].1)),
                after: string_of(&Vec::new()),
            };
            assert(rev@.after =~= Seq::<char>::empty());
            out.push(rev);
            assert(revisions_view(out@) =~= before.push(rev@));
            assert(fv.subrange(0, i + 1) =~= fv.subrange(0, i as int).push(fv[i as int]));
            i = i + 1;
        }
        assert(fv.subrange(0, files.len() as int) =~= fv);
        UndoDraft { files: out }
    }

    fn push(&mut self, entry: UndoEntry)
        requires
            old(self).wf(),
        ensures
            final(self).wf(),
            final(self)@ == pushed(old(self)@, entry@),
    {
        let ghost h = self@;
        if self.entries.len() >= UNDO_LIMIT {
            self.entries.remove(0);
            assert(self@ =~= h.drop_first());
        }
        self.entries.push(entry);
        assert(self@ =~= pushed(h, entry@));
    }

    /// Finish recording an action: `after` holds the new text of each
    /// captured file, in the order of `UndoDraft::file_names`; `created` lists
    /// the files the action created with their text. Files whose text did not
    /// change are left out; when nothing is left the history is unchanged and
    /// the result is `false`.
    pub fn record_files_and_created(
        &mut self,
        label: &str,
        draft: UndoDraft,
        after: Vec<String>,
        created: Vec<(String, String)>,
    ) -> (recorded: bool)
        requires
            old(self).wf(),
            after@.len() == draft.spec_files().len(),
        ensures
            final(self).wf(),
            ({
                let revs = recorded_revisions(
                    draft.spec_files(),
                    after@.map_values(|a: String| a@),
                    created@.map_values(|c: (String, String)| (c.0@, c.1@)),
                );
                &&& recorded == (revs.len() > 0)
                &&& recorded ==> final(self)@ == pushed(
                    old(self)@,
                    EntryView { label: label@, files: revs },
                )
                &&& !recorded ==> final(self)@ == old(self)@
            }),
    {
        let ghost captured = draft.spec_files();
        let ghost av = after@.map_values(|a: String| a@);
        let ghost cv = created@.map_values(|c: (String, String)| (c.0@, c.1@));
        let mut files: Vec<FileRevision> = Vec::new();
        let mut i: usize = 0;
        while i < draft.files.len()
            invariant
                i <= draft.files.len(),
                captured == revisions_view(draft.files@),
                av == after@.map_values(|a: String| a@),
                after@.len() == draft.files@.len(),
                revisions_view(files@) == recorded_revisions(
                    captured.subrange(0, i as int),
                    av,
                    Seq::empty(),
                ),
            decreases draft.files.len() - i,
        {
            let ghost before = revisions_view(files@);
            assert(captured.subrange(0, i + 1).drop_last() =~= captured.subrange(0, i as int));
            let rev = &draft.files[i];
            let a = &after[i];
            let unchanged = match &rev.before {
                Some(b) => eq(&chars_of(b.as_str()), &chars_of(a.as_str())),
                None => false,
            };
            if !unchanged {
                let nr = FileRevision {
                    file: copy_string(&rev.file),
                    before: match &rev.before {
                        Some(b) => Some(copy_string(b)),
                        None => None,
                    },
                    after: copy_string(a),
                };
                files.push(nr);
                assert(revisions_view(files@) =~= before.push(nr@));
            }
            i = i + 1;
        }
        assert(captured.subrange(0, draft.files.len() as int) =~= captured);
        assert(cv.subrange(0, 0) =~= Seq::<(Seq<char>, Seq<char>)>::empty());
        let mut j: usize = 0;
        while j < created.len()
            invariant
                j <= created.len(),
                cv == created@.map_values(|c: (String, String)| (c.0@, c.1@)),
                revisions_view(files@) == recorded_revisions(captured, av, cv.subrange(0, j as int)),
            decreases created.len() - j,
        {
            let ghost before = revisions_view(files@);
            assert(cv.subrange(0, j + 1).drop_last() =~= cv.subrange(0, j as int));
            let nr = FileRevision {
                file: copy_string(&created[j].0),
                before: None,
                after: copy_string(&created[j].1),
            };
            files.push(nr);
            assert(revisions_view(files@) =~= before.push(nr@));
            j = j + 1;
        }
        assert(cv.subrange(0, created.len() as int) =~= cv);
        if files.len() == 0 {
            return false;
        }
        let entry = UndoEntry { label: string_of(&chars_of(label)), files };
        self.push(entry);
        true
    }

    /// `record_files_and_created` with no created file.
    pub fn record_files(&mut self, label: &str, draft: UndoDraft, after: Vec<String>) -> (recorded: bool)
        requires
            old(self).wf(),
            after@.len() == draft.spec_files().len(),
        ensures
            final(self).wf(),
            ({
                let revs = recorded_revisions(
                    draft.spec_files(),
                    after@.map_values(|a: String| a@),
                    Seq::empty(),
                );
                &&& recorded == (revs.len() > 0)
                &&& recorded ==> final(self)@ == pushed(
                    old(self)@,
                    EntryView { label: label@, files: revs },
                )
                &&& !recorded ==> final(self)@ == old(self)@
            }),
    {
        let created: Vec<(String, String)> = Vec::new();
        assert(created@.map_values(|c: (String, String)| (c.0@, c.1@)) =~= Seq::<
            (Seq<char>, Seq<char>),
        >::empty());
        self.record_files_and_created(label, draft, after, created)
    }

    /// Record the creation of one file with its text.
    pub fn record_created(&mut self, file: &str, label: &str, after: &str)
        requires
            old(self).wf(),
        ensures
            final(self).wf(),
            final(self)@ == pushed(
                old(self)@,
                EntryView {
                    label: label@,
                    files: seq![RevisionView { file: file@, before: None, after: after@ }],
                },
            ),
    {
        let rev = FileRevision {
            file: string_of(&chars_of(file)),
            before: None,
            after: string_of(&chars_of(after)),
        };
        let files = vec![rev];
        let entry = UndoEntry { label: string_of(&chars_of(label)), files };
        assert(entry@.files =~= seq![RevisionView { file: file@, before: None, after: after@ }]);
        self.push(entry);
    }

    /// Whether there is something to undo, and the label of the latest entry.
    pub fn status(&self) -> (r: UndoStatus)
        ensures
            r.available == (self@.len() > 0),
            match r.label {
                Some(l) => self@.len() > 0 && l@ == self@.last().label,
                None => self@.len() == 0,
            },
    {
        if self.entries.len() == 0 {
            UndoStatus { available: false, label: None }
        } else {
            let e = &self.entries[self.entries.len() - 1];
            UndoStatus { available: true, label: Some(copy_string(&e.label)) }
        }
    }

    /// The files of the latest entry, in order, whose current text the
    /// caller passes to `check_undo`.
    pub fn undo_files(&self) -> (r: Result<Vec<String>, UndoError>)
        ensures
            self@.len() == 0 ==> (r matches Err(UndoError::NothingToUndo)),
            self@.len() > 0 ==> (r matches Ok(v) && v@.map_values(|s: String| s@)
                == self@.last().files.map_values(|f: RevisionView| f.file)),
    {
        if self.entries.len() == 0 {
            return Err(UndoError::NothingToUndo);
        }
        let e = &self.entries[self.entries.len() - 1];
        let ghost fs = revisions_view(e.files@);
        let mut v: Vec<String> = Vec::new();
        let mut i: usize = 0;
        while i < e.files.len()
            invariant
                i <= e.files.len(),
                fs == revisions_view(e.files@),
                v@.map_values(|s: String| s@) == fs.map_values(|f: RevisionView| f.file).subrange(
                    0,
                    i as int,
                ),
            decreases e.files.len() - i,
        {
            let ghost before = v@.map_values(|s: String| s@);
            let f = copy_string(&e.files[i].file);
            v.push(f);
            assert(v@.map_values(|s: String| s@) =~= before.push(f@));
            assert(fs.map_values(|f: RevisionView| f.file).subrange(0, i + 1) =~= fs.map_values(
                |f: RevisionView| f.file,
            ).subrange(0, i as int).push(f@));
            i = i + 1;
        }
        assert(fs.map_values(|f: RevisionView| f.file).subrange(0, e.files.len() as int)
            =~= fs.map_values(|f: RevisionView| f.file));
        Ok(v)
    }

    /// Check an undo of the latest entry against the current text of its
    /// files (in the order of `undo_files`): a file that changed since the
    /// action is a conflict, and nothing may be restored; else the steps to
    /// perform. The history is unchanged until `finish_undo`.
    pub fn check_undo(&self, current: &Vec<String>) -> (r: Result<Vec<UndoStep>, UndoError>)
        requires
            self@.len() > 0 ==> current@.len() == self@.last().files.len(),
        ensures
            self@.len() == 0 ==> (r matches Err(UndoError::NothingToUndo)),
            self@.len() > 0 ==> match first_conflict(
                self@.last().files,
                current@.map_values(|s: String| s@),
                0,
            ) {
                Some(k) => (r matches Err(UndoError::Conflict { file }) && file@
                    == self@.last().files[k].file),
                None => (r matches Ok(steps) && steps_view(steps@) == undo_steps(
                    self@.last().files,
                )),
            },
    {
        if self.entries.len() == 0 {
            return Err(UndoError::NothingToUndo);
        }
        let e = &self.entries[self.entries.len() - 1];
        let ghost fs = revisions_view(e.files@);
        let ghost cv = current@.map_values(|s: String| s@);
        assert(fs == self@.last().files);
        let mut i: usize = 0;
        while i < e.files.len()
            invariant
                i <= e.files.len(),
                fs == revisions_view(e.files@),
                cv == current@.map_values(|s: String| s@),
                current@.len() == fs.len(),
                self@.len() > 0,
                fs == self@.last().files,
                first_conflict(fs, cv, 0) == first_conflict(fs, cv, i as int),
            decreases e.files.len() - i,
        {
            if !eq(&chars_of(current[i].as_str()), &chars_of(e.files[i].after.as_str())) {
                return Err(UndoError::Conflict { file: copy_string(&e.files[i].file) });
            }
            i = i + 1;
        }
        let mut steps: Vec<UndoStep> = Vec::new();
        let mut j: usize = 0;
        while j < e.files.len()
            invariant
                j <= e.files.len(),
                fs == revisions_view(e.files@),
                steps_view(steps@) == undo_steps(fs).subrange(0, j as int),
            decreases e.files.len() - j,
        {
            let ghost before = steps_view(steps@);
            let r = copy_revision(&e.files[j]);
            let st = UndoStep { file: r.file, expected: r.after, restore: r.before };
            steps.push(st);
            assert(steps_view(steps@) =~= before.push(undo_steps(fs)[j as int]));
            assert(undo_steps(fs).subrange(0, j + 1) =~= undo_steps(fs).subrange(0, j as int).push(
                undo_steps(fs)[j as int],
            ));
            j = j + 1;
        }
        assert(undo_steps(fs).subrange(0, e.files.len() as int) =~= undo_steps(fs));
        Ok(steps)
    }

    /// Drop the latest entry once its steps were performed; the result names
    /// it and its files.
    pub fn finish_undo(&mut self) -> (r: Result<UndoResult, UndoError>)
        requires
            old(self).wf(),
        ensures
            final(self).wf(),
            old(self)@.len() == 0 ==> (r matches Err(UndoError::NothingToUndo) && final(self)@
                == old(self)@),
            old(self)@.len() > 0 ==> (r matches Ok(u) && u.ok && u.label@ == old(self)@.last().label
                && u.files@.map_values(|s: String| s@) == old(self)@.last().files.map_values(
                |f: RevisionView| f.file,
            ) && final(self)@ == old(self)@.drop_last()),
    {
        let ghost h = self@;
        match self.entries.pop() {
            None => Err(UndoError::NothingToUndo),
            Some(e) => {
                assert(self@ =~= h.drop_last());
                let ghost fs = revisions_view(e.files@);
                let mut files: Vec<String> = Vec::new();
                let mut i: usize = 0;
                while i < e.files.len()
                    invariant
                        i <= e.files.len(),
                        fs == revisions_view(e.files@),
                        files@.map_values(|s: String| s@) == fs.map_values(
                            |f: RevisionView| f.file,
                        ).subrange(0, i as int),
                    decreases e.files.len() - i,
                {
                    let ghost before = files@.map_values(|s: String| s@);
                    let f = copy_string(&e.files[i].file);
                    files.push(f);
                    assert(files@.map_values(|s: String| s@) =~= before.push(f@));
                    assert(fs.map_values(|f: RevisionView| f.file).subrange(0, i + 1)
                        =~= fs.map_values(|f: RevisionView| f.file).subrange(0, i as int).push(f@));
                    i = i + 1;
                }
                assert(fs.map_values(|f: RevisionView| f.file).subrange(0, e.files.len() as int)
                    =~= fs.map_values(|f: RevisionView| f.file));
                Ok(UndoResult { ok: true, label: e.label, files })
            },
        }
    }
}

// ---------------------------------------------------------------------------
// What the history promises
// ---------------------------------------------------------------------------

/// Recording an action and then undoing it gives the history back, as long
/// as the history was not full (a full one drops its oldest entry).
pub proof fn lemma_undo_after_record(h: Seq<EntryView>, e: EntryView)
    requires
        h.len() < UNDO_LIMIT,
    ensures
        pushed(h, e).drop_last() == h,
        pushed(h, e).last() == e,
{
    assert(pushed(h, e).drop_last() =~= h);
}

/// Pushing never lets the history grow beyond its limit.
pub proof fn lemma_pushed_bounded(h: Seq<EntryView>, e: EntryView)
    requires
        h.len() <= UNDO_LIMIT,
    ensures
        pushed(h, e).len() <= UNDO_LIMIT,
        pushed(h, e).last() == e,
{
}

/// An action that changed nothing and created nothing is not recorded.
pub proof fn lemma_no_op_not_recorded(
    captured: Seq<RevisionView>,
    after: Seq<Seq<char>>,
)
    requires
        after.len() >= captured.len(),
        forall|i: int| 0 <= i < captured.len() ==> (#[trigger] captured[i]).before == Some(after[i]),
    ensures
        recorded_revisions(captured, after, Seq::empty()).len() == 0,
    decreases captured.len(),
{
    if captured.len() > 0 {
        lemma_no_op_not_recorded(captured.drop_last(), after);
    }
}

proof fn lemma_first_conflict_from(files: Seq<RevisionView>, current: Seq<Seq<char>>, k: int)
    requires
        0 <= k <= files.len(),
        current.len() == files.len(),
    ensures
        first_conflict(files, current, k) is None <==> forall|j: int|
            k <= j < files.len() ==> current[j] == (#[trigger] files[j]).after,
        first_conflict(files, current, k) matches Some(c) ==> k <= c < files.len() && current[c]
            != files[c].after,
    decreases files.len() - k,
{
    if k < files.len() {
        lemma_first_conflict_from(files, current, k + 1);
    }
}

/// An undo is refused exactly when one of the files it would restore no
/// longer holds the text the recorded action left in it.
pub proof fn lemma_undo_refused_iff_changed(files: Seq<RevisionView>, current: Seq<Seq<char>>)
    requires
        current.len() == files.len(),
    ensures
        first_conflict(files, current, 0) is Some <==> exists|j: int|
            0 <= j < files.len() && current[j] != (#[trigger] files[j]).after,
{
    lemma_first_conflict_from(files, current, 0);
}

/// Undoing a recorded change restores each changed file's earlier text and
/// removes each created file: the steps are exactly the recorded revisions
/// taken back.
pub proof fn lemma_undo_restores(
    captured: Seq<RevisionView>,
    after: Seq<Seq<char>>,
    created: Seq<(Seq<char>, Seq<char>)>,
    i: int,
)
    requires
        0 <= i < recorded_revisions(captured, after, created).len(),
    ensures
        ({
            let revs = recorded_revisions(captured, after, created);
            let step = undo_steps(revs)[i];
            &&& step.0 == revs[i].file
            &&& step.1 == revs[i].after
            &&& step.2 == revs[i].before
            &&& step.2 != Some(step.1)
        }),
    decreases captured.len() + created.len(),
{
    if created.len() > 0 {
        let prev = recorded_revisions(captured, after, created.drop_last());
        if i < prev.len() {
            lemma_undo_restores(captured, after, created.drop_last(), i);
        }
    } else if captured.len() > 0 {
        let prev = recorded_revisions(captured.drop_last(), after, created);
        if i < prev.len() {
            lemma_undo_restores(captured.drop_last(), after, created, i);
        }
    }
}

} // verus!
