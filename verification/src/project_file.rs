//! Reading and rewriting project documents: frontmatter lines, body text,
//! checkboxes, and the names of new project files.

use vstd::prelude::*;

use crate::action::{body_items, is_bullet, parse_actions, ItemSpec, project_actions, Action, ActionMode, ActionSource, ActionView};
use crate::frontmatter::{closing_from, dashes, is_closing_line, strip_bom, trim_end_cr, document_fields, parse_frontmatter, split_chars, split_document,
    SplitFailure,
};
use crate::text::{find_from, lemma_find_from_range, lines, starts_with, append, char_is_whitespace, leading_white_space, chars_of, concat, eq, has_prefix, is_white_space,
    join, join_with, slice, split_char, split_on, string_of, trim_start, trimmed_start,
};

verus! {

#[verifier::external_type_specification]
#[verifier::external_body]
pub struct ExIoError(std::io::Error);

/// Calls `<std::io::Error as Display>::fmt`; what the message says depends on
/// the operating system and is left unstated.
#[verifier::external_body]
pub(crate) fn io_error_text(error: &std::io::Error) -> (r: String) {
    error.to_string()
}

/// The `Debug` form of a string (quoted, with escapes), as `format!("{:?}")` writes it.
pub uninterp spec fn debug_quoted(s: Seq<char>) -> Seq<char>;

/// Calls `<str as Debug>::fmt`: the result is named `debug_quoted`, a function
/// of the characters alone.
#[verifier::external_body]
pub(crate) fn debug_text(s: &str) -> (r: String)
    ensures
        r@ == debug_quoted(s@),
{
    format!("{s:?}")
}

#[derive(Debug)]
pub enum ProjectFileError {
    InvalidPath(String),
    InvalidStatus { file: String },
    InvalidDate { file: String, field: &'static str },
    InvalidName { kind: &'static str, name: String },
    Read { file: String, source: std::io::Error },
    Write { file: String, source: std::io::Error },
    Frontmatter { file: String, reason: &'static str },
    MissingField { file: String, field: &'static str },
    AlreadyExists { kind: &'static str, name: String },
    CheckboxConflict,
    RevisionConflict { file: String },
    WaitingOnRequired { file: String, people: Vec<String> },
}

/// The message of an error that does not carry an I/O error.
pub open spec fn message_of(e: &ProjectFileError) -> Seq<char> {
    match e {
        ProjectFileError::InvalidPath(file) => "Invalid file path: "@ + file@,
        ProjectFileError::InvalidStatus { file } => "Invalid status in "@ + file@
            + ": status cannot be blank"@,
        ProjectFileError::InvalidDate { file, field } => "Invalid "@ + field@ + " in "@ + file@
            + ": expected YYYY-MM-DD or RFC 3339"@,
        ProjectFileError::InvalidName { kind, name } => "Invalid "@ + kind@ + ": "@ + debug_quoted(
            name@,
        ),
        ProjectFileError::Frontmatter { file, reason } => reason@ + " in "@ + file@,
        ProjectFileError::MissingField { file, field } => "No "@ + field@ + " field in "@ + file@,
        ProjectFileError::AlreadyExists { kind, name } => kind@ + " already exists: "@ + name@,
        ProjectFileError::CheckboxConflict => "Checkbox state has changed; reload and retry"@,
        ProjectFileError::RevisionConflict { file } => file@
            + " changed after the agent session started; reload and retry"@,
        ProjectFileError::WaitingOnRequired { file, people } => "waiting_on is required to move "@
            + file@ + " to waiting"@,
        _ => Seq::empty(),
    }
}

impl ProjectFileError {
    pub fn missing_field(file: &str, field: &'static str) -> (r: Self)
        ensures
            r matches ProjectFileError::MissingField { file: f, field: g } && f@ == file@ && g
                == field,
    {
        ProjectFileError::MissingField { file: string_of(&chars_of(file)), field }
    }

    /// The human-readable message of the error; for a read or write error it
    /// is the file, a colon and the text of the I/O error.
    pub fn message(&self) -> (r: String)
        ensures
            !(self is Read || self is Write) ==> r@ == message_of(self),
            self matches ProjectFileError::Read { file, source } ==> r@.len() >= file@.len() + 2
                && r@.subrange(0, file@.len() + 2int) == file@ + ": "@,
            self matches ProjectFileError::Write { file, source } ==> r@.len() >= file@.len() + 2
                && r@.subrange(0, file@.len() + 2int) == file@ + ": "@,
    {
        let r = match self {
            ProjectFileError::InvalidPath(file) => cat2("Invalid file path: ", file.as_str()),
            ProjectFileError::InvalidStatus { file } => cat3(
                "Invalid status in ",
                file.as_str(),
                ": status cannot be blank",
            ),
            ProjectFileError::InvalidDate { file, field } => cat5(
                "Invalid ",
                field,
                " in ",
                file.as_str(),
                ": expected YYYY-MM-DD or RFC 3339",
            ),
            ProjectFileError::InvalidName { kind, name } => {
                let q = debug_text(name.as_str());
                cat4("Invalid ", kind, ": ", q.as_str())
            },
            ProjectFileError::Read { file, source } | ProjectFileError::Write { file, source } => {
                let t = io_error_text(source);
                let r = cat3(file.as_str(), ": ", t.as_str());
                proof {
                    reveal_strlit(": ");
                    assert(r@.subrange(0, file@.len() + 2int) =~= file@ + ": "@);
                }
                r
            },
            ProjectFileError::Frontmatter { file, reason } => cat3(reason, " in ", file.as_str()),
            ProjectFileError::MissingField { file, field } => cat4(
                "No ",
                field,
                " field in ",
                file.as_str(),
            ),
            ProjectFileError::AlreadyExists { kind, name } => cat3(
                kind,
                " already exists: ",
                name.as_str(),
            ),
            ProjectFileError::CheckboxConflict => string_of(
                &chars_of("Checkbox state has changed; reload and retry"),
            ),
            ProjectFileError::RevisionConflict { file } => cat2(
                file.as_str(),
                " changed after the agent session started; reload and retry",
            ),
            ProjectFileError::WaitingOnRequired { file, people } => cat3(
                "waiting_on is required to move ",
                file.as_str(),
                " to waiting",
            ),
        };
        r
    }
}

pub fn cat2(a: &str, b: &str) -> (r: String)
    ensures
        r@ == a@ + b@,
{
    string_of(&concat(&chars_of(a), &chars_of(b)))
}

pub fn cat3(a: &str, b: &str, c: &str) -> (r: String)
    ensures
        r@ == a@ + b@ + c@,
{
    let ab = concat(&chars_of(a), &chars_of(b));
    string_of(&concat(&ab, &chars_of(c)))
}

pub fn cat4(a: &str, b: &str, c: &str, d: &str) -> (r: String)
    ensures
        r@ == a@ + b@ + c@ + d@,
{
    let ab = concat(&chars_of(a), &chars_of(b));
    let abc = concat(&ab, &chars_of(c));
    string_of(&concat(&abc, &chars_of(d)))
}

pub fn cat5(a: &str, b: &str, c: &str, d: &str, e: &str) -> (r: String)
    ensures
        r@ == a@ + b@ + c@ + d@ + e@,
{
    let ab = concat(&chars_of(a), &chars_of(b));
    let abc = concat(&ab, &chars_of(c));
    let abcd = concat(&abc, &chars_of(d));
    string_of(&concat(&abcd, &chars_of(e)))
}


// ---------------------------------------------------------------------------
// Frontmatter lines
// ---------------------------------------------------------------------------

/// A frontmatter line sets `field`: after its indentation it names the field,
/// and a colon follows, possibly after whitespace.
pub open spec fn matches_field(line: Seq<char>, field: Seq<char>) -> bool {
    let t = trim_start(line);
    field.len() <= t.len() && t.subrange(0, field.len() as int) == field && {
        let rest = trim_start(t.subrange(field.len() as int, t.len() as int));
        rest.len() > 0 && rest[0] == ':'
    }
}

/// `field: value`.
pub open spec fn field_line(field: Seq<char>, value: Seq<char>) -> Seq<char> {
    field + seq![':', ' '] + value
}

/// Every line that sets `field` replaced by `replacement`.
pub open spec fn replaced_lines(ls: Seq<Seq<char>>, field: Seq<char>, replacement: Seq<char>) -> Seq<Seq<char>> {
    ls.map_values(|l: Seq<char>| if matches_field(l, field) { replacement } else { l })
}

pub open spec fn any_match(ls: Seq<Seq<char>>, field: Seq<char>) -> bool {
    exists|i: int| 0 <= i < ls.len() && #[trigger] matches_field(ls[i], field)
}

/// The index of the first line that sets `field`, or the number of lines.
pub open spec fn first_match(ls: Seq<Seq<char>>, field: Seq<char>, k: int) -> int
    decreases ls.len() - k,
{
    if k < 0 || k >= ls.len() {
        ls.len() as int
    } else if matches_field(ls[k], field) {
        k
    } else {
        first_match(ls, field, k + 1)
    }
}

/// The lines that set `field` removed.
pub open spec fn without_field(ls: Seq<Seq<char>>, field: Seq<char>) -> Seq<Seq<char>>
    decreases ls.len(),
{
    if ls.len() == 0 {
        ls
    } else if matches_field(ls.last(), field) {
        without_field(ls.drop_last(), field)
    } else {
        without_field(ls.drop_last(), field).push(ls.last())
    }
}

/// `field` set to `line`: every line of the field replaced when there is one;
/// otherwise the line goes right after the first `anchor` line, or at the end.
pub open spec fn upserted(ls: Seq<Seq<char>>, field: Seq<char>, line: Seq<char>, anchor: Seq<char>) -> Seq<Seq<char>> {
    if any_match(ls, field) {
        replaced_lines(ls, field, line)
    } else {
        let a = first_match(ls, anchor, 0);
        if a < ls.len() {
            ls.insert(a + 1, line)
        } else {
            ls.push(line)
        }
    }
}

/// A value needs quotes when bare YAML would read it differently.
pub open spec fn needs_quote(v: Seq<char>) -> bool {
    v.len() == 0 || v.contains(':') || v.contains('"') || (v.len() > 0 && (v[0] == '#' || v[0] == '-'
        || v[0] == '[' || v[0] == '{' || v[0] == '>' || v[0] == '\'' || v[0] == '!' || v[0] == '&'
        || v[0] == '*' || v[0] == '?' || v[0] == '|' || v[0] == ' ')) || (v.len() > 0 && v.last()
        == ' ')
}

/// Backslashes doubled, then double quotes escaped.
pub open spec fn escape_quoted(v: Seq<char>) -> Seq<char>
    decreases v.len(),
{
    if v.len() == 0 {
        v
    } else {
        escape_quoted(v.drop_last()) + if v.last() == '\\' {
            seq!['\\', '\\']
        } else if v.last() == '"' {
            seq!['\\', '"']
        } else {
            seq![v.last()]
        }
    }
}

/// A frontmatter value as written: bare when unambiguous, else quoted and escaped.
pub open spec fn formatted_value(v: Seq<char>) -> Seq<char> {
    if needs_quote(v) {
        seq!['"'] + escape_quoted(v) + seq!['"']
    } else {
        v
    }
}

fn contains_char(v: &Vec<char>, c: char) -> (r: bool)
    ensures
        r == v@.contains(c),
{
    let mut i: usize = 0;
    while i < v.len()
        invariant
            i <= v.len(),
            forall|j: int| 0 <= j < i ==> v@[j] != c,
        decreases v.len() - i,
    {
        if v[i] == c {
            assert(v@[i as int] == c);
            return true;
        }
        i = i + 1;
    }
    false
}

/// Quote a frontmatter value when bare YAML would be ambiguous.
pub fn format_frontmatter_value(value: &str) -> (r: String)
    ensures
        r@ == formatted_value(value@),
{
    string_of(&format_value_chars(&chars_of(value)))
}

pub fn format_value_chars(v: &Vec<char>) -> (r: Vec<char>)
    ensures
        r@ == formatted_value(v@),
{
    let n = v.len();
    let first_special = n > 0 && (v[0] == '#' || v[0] == '-' || v[0] == '[' || v[0] == '{'
        || v[0] == '>' || v[0] == '\'' || v[0] == '!' || v[0] == '&' || v[0] == '*' || v[0] == '?'
        || v[0] == '|' || v[0] == ' ');
    let needs = n == 0 || contains_char(v, ':') || contains_char(v, '"') || first_special || (n
        > 0 && v[n - 1] == ' ');
    if !needs {
        return v.clone();
    }
    let mut r: Vec<char> = Vec::new();
    r.push('"');
    let mut i: usize = 0;
    while i < n
        invariant
            n == v.len(),
            i <= n,
            r@ == seq!['"'] + escape_quoted(v@.subrange(0, i as int)),
        decreases n - i,
    {
        let ghost before = r@;
        let c = v[i];
        if c == '\\' {
            r.push('\\');
            r.push('\\');
        } else if c == '"' {
            r.push('\\');
            r.push('"');
        } else {
            r.push(c);
        }
        proof {
            let p = v@.subrange(0, i + 1);
            assert(p.drop_last() =~= v@.subrange(0, i as int));
            assert(p.last() == c);
            assert(r@ =~= seq!['"'] + escape_quoted(p));
        }
        i = i + 1;
    }
    r.push('"');
    assert(v@.subrange(0, n as int) =~= v@);
    r
}

pub fn matches_field_exec(line: &Vec<char>, field: &Vec<char>) -> (r: bool)
    ensures
        r == matches_field(line@, field@),
{
    let t = trimmed_start(line);
    if !has_prefix(&t, field) {
        return false;
    }
    let rest_raw = slice(&t, field.len(), t.len());
    let rest = trimmed_start(&rest_raw);
    rest.len() > 0 && rest[0] == ':'
}

fn field_line_exec(field: &Vec<char>, value: &Vec<char>) -> (r: Vec<char>)
    ensures
        r@ == field_line(field@, value@),
{
    let mut r = field.clone();
    r.push(':');
    r.push(' ');
    append(&mut r, value);
    assert(r@ =~= field_line(field@, value@));
    r
}

pub open spec fn lines_view(v: Seq<String>) -> Seq<Seq<char>> {
    v.map_values(|l: String| l@)
}

/// The lines of a frontmatter block, edited field by field.
pub struct FrontmatterLines {
    lines: Vec<String>,
}

impl View for FrontmatterLines {
    type V = Seq<Seq<char>>;

    closed spec fn view(&self) -> Seq<Seq<char>> {
        lines_view(self.lines@)
    }
}

impl FrontmatterLines {
    pub fn new(lines: Vec<String>) -> (r: Self)
        ensures
            r@ == lines@.map_values(|l: String| l@),
    {
        FrontmatterLines { lines }
    }

    pub fn into_inner(self) -> (r: Vec<String>)
        ensures
            r@.map_values(|l: String| l@) == self@,
    {
        self.lines
    }

    /// Every line that sets `field` becomes `field: value`; reports whether there was one.
    pub fn replace(&mut self, field: &str, value: &str) -> (found: bool)
        ensures
            found == any_match(old(self)@, field@),
            final(self)@ == replaced_lines(old(self)@, field@, field_line(field@, value@)),
    {
        let line = field_line_exec(&chars_of(field), &chars_of(value));
        self.replace_line(&chars_of(field), &line)
    }

    /// Like `replace`, with the value quoted when bare YAML would be ambiguous.
    pub fn replace_string(&mut self, field: &str, value: &str) -> (found: bool)
        ensures
            found == any_match(old(self)@, field@),
            final(self)@ == replaced_lines(
                old(self)@,
                field@,
                field_line(field@, formatted_value(value@)),
            ),
    {
        let v = format_value_chars(&chars_of(value));
        let line = field_line_exec(&chars_of(field), &v);
        self.replace_line(&chars_of(field), &line)
    }

    fn replace_line(&mut self, field: &Vec<char>, replacement: &Vec<char>) -> (found: bool)
        ensures
            found == any_match(old(self)@, field@),
            final(self)@ == replaced_lines(old(self)@, field@, replacement@),
    {
        let ghost ls = lines_view(self.lines@);
        let mut found = false;
        let mut i: usize = 0;
        while i < self.lines.len()
            invariant
                i <= self.lines.len(),
                self.lines.len() == ls.len(),
                forall|j: int| 0 <= j < i ==> (#[trigger] self.lines@[j])@ == (if matches_field(
                    ls[j],
                    field@,
                ) {
                    replacement@
                } else {
                    ls[j]
                }),
                forall|j: int| i <= j < ls.len() ==> (#[trigger] self.lines@[j])@ == ls[j],
                found == exists|j: int| 0 <= j < i && #[trigger] matches_field(ls[j], field@),
            decreases ls.len() - i,
        {
            let l = chars_of(self.lines[i].as_str());
            assert(l@ == ls[i as int]);
            if matches_field_exec(&l, field) {
                self.lines.set(i, string_of(replacement));
                found = true;
            }
            i = i + 1;
        }
        assert(lines_view(self.lines@) =~= replaced_lines(ls, field@, replacement@));
        found
    }

    /// `field: value` replaces the field's lines, or goes after the first
    /// `anchor` line, or at the end.
    pub fn upsert_after(&mut self, field: &str, value: &str, anchor: &str)
        ensures
            final(self)@ == upserted(old(self)@, field@, field_line(field@, value@), anchor@),
    {
        let line = field_line_exec(&chars_of(field), &chars_of(value));
        self.upsert_line(&chars_of(field), &line, &chars_of(anchor));
    }

    /// Like `upsert_after`, with the value quoted when bare YAML would be ambiguous.
    pub fn upsert_string_after(&mut self, field: &str, value: &str, anchor: &str)
        ensures
            final(self)@ == upserted(
                old(self)@,
                field@,
                field_line(field@, formatted_value(value@)),
                anchor@,
            ),
    {
        let v = format_value_chars(&chars_of(value));
        let line = field_line_exec(&chars_of(field), &v);
        self.upsert_line(&chars_of(field), &line, &chars_of(anchor));
    }

    fn upsert_line(&mut self, field: &Vec<char>, line: &Vec<char>, anchor: &Vec<char>)
        ensures
            final(self)@ == upserted(old(self)@, field@, line@, anchor@),
    {
        let ghost ls0 = lines_view(self.lines@);
        if self.replace_line(field, line) {
            return;
        }
        let ghost ls = lines_view(self.lines@);
        assert(ls =~= ls0);
        let mut i: usize = 0;
        while i < self.lines.len()
            invariant
                i <= self.lines.len(),
                lines_view(self.lines@) == ls,
                ls == ls0,
                ls0 == old(self)@,
                !any_match(ls, field@),
                first_match(ls, anchor@, 0) == first_match(ls, anchor@, i as int),
            decreases self.lines.len() - i,
        {
            let l = chars_of(self.lines[i].as_str());
            assert(l@ == ls[i as int]);
            if matches_field_exec(&l, anchor) {
                assert(first_match(ls, anchor@, i as int) == i);
                assert(upserted(ls, field@, line@, anchor@) == ls.insert(i + 1, line@));
                let s = string_of(line);
                self.lines.insert(i + 1, s);
                assert(lines_view(self.lines@) =~= ls.insert(i + 1, line@));
                return;
            }
            i = i + 1;
        }
        let s = string_of(line);
        self.lines.push(s);
        assert(lines_view(self.lines@) =~= ls.push(line@));
    }

    /// Every line that sets `field` removed.
    pub fn remove(&mut self, field: &str)
        ensures
            final(self)@ == without_field(old(self)@, field@),
    {
        let f = chars_of(field);
        let ghost ls = self@;
        let mut kept: Vec<String> = Vec::new();
        let mut i: usize = 0;
        while i < self.lines.len()
            invariant
                i <= self.lines.len(),
                self@ == ls,
                kept@.map_values(|l: String| l@) == without_field(ls.subrange(0, i as int), f@),
            decreases self.lines.len() - i,
        {
            let ghost before = kept@.map_values(|l: String| l@);
            let l = chars_of(self.lines[i].as_str());
            assert(l@ == ls[i as int]);
            proof {
                assert(ls.subrange(0, i + 1).drop_last() =~= ls.subrange(0, i as int));
                assert(ls.subrange(0, i + 1).last() == ls[i as int]);
            }
            if !matches_field_exec(&l, &f) {
                kept.push(string_of(&l));
                assert(kept@.map_values(|l: String| l@) =~= before.push(l@));
            }
            i = i + 1;
        }
        assert(ls.subrange(0, ls.len() as int) =~= ls);
        self.lines = kept;
    }
}


// ---------------------------------------------------------------------------
// Documents
// ---------------------------------------------------------------------------

/// The frontmatter as written: it starts on a new line and ends with a line feed.
pub open spec fn normalized_frontmatter(fm: Seq<char>) -> Seq<char> {
    (if fm.len() > 0 && (fm[0] == '\n' || fm[0] == '\r') {
        Seq::empty()
    } else {
        seq!['\n']
    }) + fm + (if fm.len() > 0 && fm.last() == '\n' {
        Seq::empty()
    } else {
        seq!['\n']
    })
}

/// The body as written: a blank line before it and a line feed at its end;
/// an empty body is a single line feed.
pub open spec fn normalized_body(b: Seq<char>) -> Seq<char> {
    if b.len() == 0 {
        seq!['\n']
    } else {
        seq!['\n', '\n'] + b + (if b.last() == '\n' {
            Seq::empty()
        } else {
            seq!['\n']
        })
    }
}

/// A document made of frontmatter and a body section.
pub open spec fn assembled(fm: Seq<char>, body: Seq<char>) -> Seq<char> {
    seq!['-', '-', '-'] + normalized_frontmatter(fm) + seq!['-', '-', '-'] + body
}

/// One line break removed at the start, when there is one.
pub open spec fn strip_one_separator(b: Seq<char>) -> Seq<char> {
    if b.len() >= 2 && b[0] == '\r' && b[1] == '\n' {
        b.subrange(2, b.len() as int)
    } else if b.len() >= 1 && b[0] == '\n' {
        b.drop_first()
    } else {
        b
    }
}

/// The line breaks between frontmatter and body removed (at most two).
pub open spec fn strip_separators(b: Seq<char>) -> Seq<char> {
    strip_one_separator(strip_one_separator(b))
}

/// The body of a document; a text without frontmatter is all body.
pub open spec fn body_of(text: Seq<char>) -> Seq<char> {
    match split_document(text) {
        Ok((_, body)) => strip_separators(body),
        Err(_) => text,
    }
}

fn normalize_frontmatter(fm: &Vec<char>) -> (r: Vec<char>)
    ensures
        r@ == normalized_frontmatter(fm@),
{
    let mut r: Vec<char> = Vec::new();
    if !(fm.len() > 0 && (fm[0] == '\n' || fm[0] == '\r')) {
        r.push('\n');
    }
    append(&mut r, fm);
    if !(fm.len() > 0 && fm[fm.len() - 1] == '\n') {
        r.push('\n');
    }
    assert(r@ =~= normalized_frontmatter(fm@));
    r
}

fn normalize_body(b: &Vec<char>) -> (r: Vec<char>)
    ensures
        r@ == normalized_body(b@),
{
    let mut r: Vec<char> = Vec::new();
    if b.len() == 0 {
        r.push('\n');
        assert(r@ =~= normalized_body(b@));
        return r;
    }
    r.push('\n');
    r.push('\n');
    append(&mut r, b);
    if b[b.len() - 1] != '\n' {
        r.push('\n');
    }
    assert(r@ =~= normalized_body(b@));
    r
}

fn assemble_project_text(fm: &Vec<char>, body: &Vec<char>) -> (r: Vec<char>)
    ensures
        r@ == assembled(fm@, body@),
{
    let mut r: Vec<char> = Vec::new();
    r.push('-');
    r.push('-');
    r.push('-');
    append(&mut r, &normalize_frontmatter(fm));
    r.push('-');
    r.push('-');
    r.push('-');
    append(&mut r, body);
    assert(r@ =~= assembled(fm@, body@));
    r
}

/// A document made of frontmatter and a body, the body normalized.
pub(crate) fn assemble_new(fm: &Vec<char>, body: &Vec<char>) -> (r: Vec<char>)
    ensures
        r@ == assembled(fm@, normalized_body(body@)),
{
    assemble_project_text(fm, &normalize_body(body))
}

fn strip_one_sep(b: &Vec<char>) -> (r: Vec<char>)
    ensures
        r@ == strip_one_separator(b@),
{
    if b.len() >= 2 && b[0] == '\r' && b[1] == '\n' {
        slice(b, 2, b.len())
    } else if b.len() >= 1 && b[0] == '\n' {
        let r = slice(b, 1, b.len());
        assert(r@ =~= b@.drop_first());
        r
    } else {
        b.clone()
    }
}

fn strip_frontmatter_separators(b: &Vec<char>) -> (r: Vec<char>)
    ensures
        r@ == strip_separators(b@),
{
    strip_one_sep(&strip_one_sep(b))
}

/// The body of a document; a text without frontmatter is all body.
pub fn project_body(text: &str) -> (r: String)
    ensures
        r@ == body_of(text@),
{
    let t = chars_of(text);
    match split_chars(&t) {
        Ok((_, body)) => string_of(&strip_frontmatter_separators(&body)),
        Err(_) => string_of(&t),
    }
}

fn frontmatter_error(file: &str, failure: SplitFailure) -> (r: ProjectFileError)
    ensures
        split_error(file@, failure, r),
{
    let f = string_of(&chars_of(file));
    match failure {
        SplitFailure::NoFrontmatter => ProjectFileError::Frontmatter { file: f, reason: "No frontmatter" },
        SplitFailure::Malformed => ProjectFileError::Frontmatter {
            file: f,
            reason: "Malformed frontmatter",
        },
    }
}

/// The error a document without usable frontmatter gets.
pub open spec fn split_error(file: Seq<char>, failure: SplitFailure, e: ProjectFileError) -> bool {
    &&& e matches ProjectFileError::Frontmatter { file: f, reason }
    &&& f@ == file
    &&& failure is NoFrontmatter ==> reason == "No frontmatter"
    &&& failure is Malformed ==> reason == "Malformed frontmatter"
}

/// A project file read into its frontmatter and its body section.
pub struct ProjectDocument {
    file: String,
    frontmatter: Vec<char>,
    body_section: Vec<char>,
}

pub struct DocumentView {
    pub file: Seq<char>,
    pub frontmatter: Seq<char>,
    pub body_section: Seq<char>,
}

impl View for ProjectDocument {
    type V = DocumentView;

    closed spec fn view(&self) -> DocumentView {
        DocumentView {
            file: self.file@,
            frontmatter: self.frontmatter@,
            body_section: self.body_section@,
        }
    }
}

impl ProjectDocument {
    /// Split the text of `file`; a text without frontmatter is an error that names the file.
    pub fn parse(file: &str, text: &str) -> (r: Result<Self, ProjectFileError>)
        ensures
            match r {
                Ok(doc) => split_document(text@) == Ok::<_, SplitFailure>(
                    (doc@.frontmatter, doc@.body_section),
                ) && doc@.file == file@,
                Err(e) => exists|failure: SplitFailure|
                    split_document(text@) == Err::<(Seq<char>, Seq<char>), _>(failure)
                        && split_error(file@, failure, e),
            },
    {
        match split_chars(&chars_of(text)) {
            Ok((frontmatter, body_section)) => Ok(
                ProjectDocument { file: string_of(&chars_of(file)), frontmatter, body_section },
            ),
            Err(failure) => {
                let ghost f = failure;
                let e = frontmatter_error(file, failure);
                assert(split_error(file@, f, e));
                Err(e)
            },
        }
    }

    /// The body with the separating line breaks removed.
    pub fn body_text(&self) -> (r: String)
        ensures
            r@ == strip_separators(self@.body_section),
    {
        string_of(&strip_frontmatter_separators(&self.body_section))
    }

    /// The frontmatter split into lines.
    pub fn frontmatter_lines(&self) -> (r: FrontmatterLines)
        ensures
            r@ == crate::text::lines(self@.frontmatter),
    {
        let ls = crate::text::lines_of(&self.frontmatter);
        let mut v: Vec<String> = Vec::new();
        let mut i: usize = 0;
        while i < ls.len()
            invariant
                i <= ls.len(),
                lines_view(v@) == ls@.map_values(|l: Vec<char>| l@).subrange(0, i as int),
            decreases ls.len() - i,
        {
            let ghost before = v@;
            let s = string_of(&ls[i]);
            v.push(s);
            assert(lines_view(v@) =~= lines_view(before).push(s@));
            assert(lines_view(v@) =~= ls@.map_values(|l: Vec<char>| l@).subrange(0, i + 1));
            i = i + 1;
        }
        assert(ls@.map_values(|l: Vec<char>| l@).subrange(0, ls.len() as int) =~= ls@.map_values(
            |l: Vec<char>| l@,
        ));
        FrontmatterLines::new(v)
    }

    /// The document text with its body replaced.
    pub fn with_body(&self, body: &str) -> (r: String)
        ensures
            r@ == assembled(self@.frontmatter, normalized_body(body@)),
    {
        string_of(&assemble_project_text(&self.frontmatter, &normalize_body(&chars_of(body))))
    }

    /// The document text with new frontmatter lines and the same body section.
    pub fn with_frontmatter(&self, lines: FrontmatterLines) -> (r: String)
        ensures
            r@ == assembled(join(lines@, seq!['\n']), self@.body_section),
    {
        let ls = lines.into_inner();
        let mut cs: Vec<Vec<char>> = Vec::new();
        let mut i: usize = 0;
        while i < ls.len()
            invariant
                i <= ls.len(),
                cs@.map_values(|l: Vec<char>| l@) == lines_view(ls@).subrange(0, i as int),
            decreases ls.len() - i,
        {
            let ghost before = cs@.map_values(|l: Vec<char>| l@);
            let c = chars_of(ls[i].as_str());
            cs.push(c);
            assert(cs@.map_values(|l: Vec<char>| l@) =~= before.push(c@));
            assert(cs@.map_values(|l: Vec<char>| l@) =~= lines_view(ls@).subrange(0, i + 1));
            i = i + 1;
        }
        assert(lines_view(ls@).subrange(0, ls.len() as int) =~= lines_view(ls@));
        let sep = vec!['\n'];
        assert(sep@ =~= seq!['\n']);
        let fm = join_with(&cs, &sep);
        string_of(&assemble_project_text(&fm, &self.body_section))
    }

    /// The document text with the body section rewritten (the separators kept).
    fn with_body_section(&self, body_section: &Vec<char>) -> (r: Vec<char>)
        ensures
            r@ == assembled(self@.frontmatter, body_section@),
    {
        assemble_project_text(&self.frontmatter, body_section)
    }
}

/// The body of a project document.
pub fn read_project_body(file: &str, text: &str) -> (r: Result<String, ProjectFileError>)
    ensures
        match r {
            Ok(b) => split_document(text@) is Ok && b@ == body_of(text@),
            Err(e) => exists|failure: SplitFailure|
                split_document(text@) == Err::<(Seq<char>, Seq<char>), _>(failure) && split_error(
                    file@,
                    failure,
                    e,
                ),
        },
{
    let doc = ProjectDocument::parse(file, text)?;
    Ok(doc.body_text())
}

/// Check that a project document has frontmatter.
pub fn validate_project_file(file: &str, text: &str) -> (r: Result<(), ProjectFileError>)
    ensures
        match r {
            Ok(_) => split_document(text@) is Ok,
            Err(e) => exists|failure: SplitFailure|
                split_document(text@) == Err::<(Seq<char>, Seq<char>), _>(failure) && split_error(
                    file@,
                    failure,
                    e,
                ),
        },
{
    ProjectDocument::parse(file, text)?;
    Ok(())
}

/// The text of a project document with its body replaced.
pub fn write_project_body(file: &str, text: &str, body: &str) -> (r: Result<String, ProjectFileError>)
    ensures
        match r {
            Ok(t) => match split_document(text@) {
                Ok((fm, _)) => t@ == assembled(fm, normalized_body(body@)),
                Err(_) => false,
            },
            Err(e) => exists|failure: SplitFailure|
                split_document(text@) == Err::<(Seq<char>, Seq<char>), _>(failure) && split_error(
                    file@,
                    failure,
                    e,
                ),
        },
{
    let doc = ProjectDocument::parse(file, text)?;
    Ok(doc.with_body(body))
}

/// A document that may be written as a project: it has frontmatter with a
/// title and a status.
pub fn validate_project_text(file: &str, text: &str) -> (r: Result<(), ProjectFileError>)
    ensures
        match r {
            Ok(_) => document_fields(text@) is Some,
            Err(e) => match split_document(text@) {
                Err(failure) => split_error(file@, failure, e),
                Ok(_) => document_fields(text@) is None && (e matches ProjectFileError::Frontmatter {
                    file: f,
                    reason,
                } && f@ == file@ && reason == "Invalid frontmatter or missing title/status"),
            },
        },
{
    ProjectDocument::parse(file, text)?;
    if parse_frontmatter(text).is_none() {
        return Err(
            ProjectFileError::Frontmatter {
                file: string_of(&chars_of(file)),
                reason: "Invalid frontmatter or missing title/status",
            },
        );
    }
    Ok(())
}


// ---------------------------------------------------------------------------
// Checkboxes
// ---------------------------------------------------------------------------

/// The end of the run of spaces and tabs that starts at `k`.
pub open spec fn blank_run_end(s: Seq<char>, k: int) -> int
    decreases s.len() - k,
{
    if 0 <= k < s.len() && (s[k] == ' ' || s[k] == '\t') {
        blank_run_end(s, k + 1)
    } else {
        k
    }
}

proof fn lemma_blank_run_end(s: Seq<char>, k: int)
    requires
        0 <= k <= s.len(),
    ensures
        k <= blank_run_end(s, k) <= s.len(),
    decreases s.len() - k,
{
    if k < s.len() && (s[k] == ' ' || s[k] == '\t') {
        lemma_blank_run_end(s, k + 1);
    }
}

/// Where the checkbox of a checklist line starts and whether it is ticked:
/// indentation, a bullet (`-`, `*` or `+`), at least one space or tab, then
/// `[ ]`, `[x]` or `[X]`.
pub open spec fn checkbox_marker(line: Seq<char>) -> Option<(int, bool)> {
    let i = line.len() - trim_start(line).len();
    if i < line.len() && is_bullet(line[i]) {
        let j = blank_run_end(line, i + 1);
        if j > i + 1 && j + 3 <= line.len() && line[j] == '[' && line[j + 2] == ']' && (line[j + 1]
            == ' ' || line[j + 1] == 'x' || line[j + 1] == 'X') {
            Some((j, line[j + 1] != ' '))
        } else {
            None
        }
    } else {
        None
    }
}

pub open spec fn checkbox_text(checked: bool) -> Seq<char> {
    seq!['[', if checked { 'x' } else { ' ' }, ']']
}

/// The line with its checkbox set to `new_checked`, when it holds a checkbox
/// in the `expected_checked` state; everything else on the line is kept.
pub open spec fn toggled_line(line: Seq<char>, expected_checked: bool, new_checked: bool) -> Option<
    Seq<char>,
> {
    match checkbox_marker(line) {
        Some((j, checked)) => if checked == expected_checked {
            Some(
                line.subrange(0, j) + checkbox_text(new_checked) + line.subrange(
                    j + 3,
                    line.len() as int,
                ),
            )
        } else {
            None
        },
        None => None,
    }
}

fn blank_run(line: &Vec<char>, k: usize) -> (j: usize)
    requires
        k <= line.len(),
    ensures
        j == blank_run_end(line@, k as int),
{
    let mut j = k;
    while j < line.len() && (line[j] == ' ' || line[j] == '\t')
        invariant
            k <= j <= line.len(),
            blank_run_end(line@, j as int) == blank_run_end(line@, k as int),
        decreases line.len() - j,
    {
        j = j + 1;
    }
    j
}

fn find_checkbox(line: &Vec<char>) -> (r: Option<(usize, bool)>)
    ensures
        match r {
            Some((j, c)) => checkbox_marker(line@) == Some((j as int, c)),
            None => checkbox_marker(line@) is None,
        },
{
    let i = leading_white_space(line);
    if i < line.len() && (line[i] == '-' || line[i] == '*' || line[i] == '+') {
        let j = blank_run(line, i + 1);
        proof {
            lemma_blank_run_end(line@, i + 1);
        }
        if j > i + 1 && line.len() >= 3 && j <= line.len() - 3 && line[j] == '[' && line[j + 2]
            == ']' && (line[j + 1] == ' ' || line[j + 1] == 'x' || line[j + 1] == 'X') {
            Some((j, line[j + 1] != ' '))
        } else {
            None
        }
    } else {
        None
    }
}

fn toggle_line_chars(line: &Vec<char>, expected_checked: bool, new_checked: bool) -> (r: Option<
    Vec<char>,
>)
    ensures
        match r {
            Some(t) => toggled_line(line@, expected_checked, new_checked) == Some(t@),
            None => toggled_line(line@, expected_checked, new_checked) is None,
        },
{
    match find_checkbox(line) {
        Some((j, checked)) => {
            if checked != expected_checked {
                return None;
            }
            let mut t = slice(line, 0, j);
            t.push('[');
            t.push(if new_checked { 'x' } else { ' ' });
            t.push(']');
            let rest = slice(line, j + 3, line.len());
            append(&mut t, &rest);
            assert(t@ =~= line@.subrange(0, j as int) + checkbox_text(new_checked)
                + line@.subrange(j + 3, line.len() as int));
            Some(t)
        },
        None => None,
    }
}

/// Set the checkbox of a checklist line, when it is in the expected state.
pub fn toggle_checkbox_line(line: &str, expected_checked: bool, new_checked: bool) -> (r: Option<
    String,
>)
    ensures
        match r {
            Some(t) => toggled_line(line@, expected_checked, new_checked) == Some(t@),
            None => toggled_line(line@, expected_checked, new_checked) is None,
        },
{
    match toggle_line_chars(&chars_of(line), expected_checked, new_checked) {
        Some(t) => Some(string_of(&t)),
        None => None,
    }
}

/// The body with the checkbox on line `index` toggled.
pub open spec fn toggled_body(body: Seq<char>, index: int, expected_checked: bool, new_checked: bool) -> Option<
    Seq<char>,
> {
    let ls = split_on(body, '\n');
    if 0 <= index < ls.len() {
        match toggled_line(ls[index], expected_checked, new_checked) {
            Some(l) => Some(join(ls.update(index, l), seq!['\n'])),
            None => None,
        }
    } else {
        None
    }
}

spec fn chars_view(v: Seq<Vec<char>>) -> Seq<Seq<char>> {
    v.map_values(|l: Vec<char>| l@)
}

/// The document text with the checkbox on body line `line_index` moved from
/// `expected_checked` to `new_checked`. A line that holds no checkbox in the
/// expected state is a conflict: the file changed since it was read.
pub fn toggle_body_checkbox(
    file: &str,
    text: &str,
    line_index: usize,
    expected_checked: bool,
    new_checked: bool,
) -> (r: Result<String, ProjectFileError>)
    ensures
        match split_document(text@) {
            Err(failure) => r matches Err(e) && split_error(file@, failure, e),
            Ok((fm, bs)) => match toggled_body(
                strip_separators(bs),
                line_index as int,
                expected_checked,
                new_checked,
            ) {
                Some(nb) => r matches Ok(t) && t@ == assembled(fm, normalized_body(nb)),
                None => r matches Err(ProjectFileError::CheckboxConflict),
            },
        },
{
    let doc = ProjectDocument::parse(file, text)?;
    let body = chars_of(doc.body_text().as_str());
    let mut ls = split_char(&body, '\n');
    if line_index >= ls.len() {
        return Err(ProjectFileError::CheckboxConflict);
    }
    let toggled = match toggle_line_chars(&ls[line_index], expected_checked, new_checked) {
        Some(t) => t,
        None => {
            return Err(ProjectFileError::CheckboxConflict);
        },
    };
    let ghost before = chars_view(ls@);
    ls.set(line_index, toggled);
    assert(chars_view(ls@) =~= before.update(line_index as int, toggled@));
    let sep = vec!['\n'];
    assert(sep@ =~= seq!['\n']);
    let nb = join_with(&ls, &sep);
    Ok(doc.with_body(string_of(&nb).as_str()))
}

/// The body lines of the completed checklist actions, in order.
pub open spec fn completed_lines(actions: Seq<ActionView>) -> Seq<int>
    decreases actions.len(),
{
    if actions.len() == 0 {
        Seq::empty()
    } else {
        let prev = completed_lines(actions.drop_last());
        let a = actions.last();
        if a.completed {
            match a.line {
                Some(l) => prev.push(l as int),
                None => prev,
            }
        } else {
            prev
        }
    }
}

/// The lines with the listed ones unticked in turn; `None` when one of them
/// holds no ticked checkbox.
pub open spec fn cleared_lines(ls: Seq<Seq<char>>, idx: Seq<int>) -> Option<Seq<Seq<char>>>
    decreases idx.len(),
{
    if idx.len() == 0 {
        Some(ls)
    } else {
        match cleared_lines(ls, idx.drop_last()) {
            Some(prev) => {
                let i = idx.last();
                if 0 <= i < prev.len() {
                    match toggled_line(prev[i], true, false) {
                        Some(l) => Some(prev.update(i, l)),
                        None => None,
                    }
                } else {
                    None
                }
            },
            None => None,
        }
    }
}

proof fn lemma_cleared_lines_fail(ls: Seq<Seq<char>>, idx: Seq<int>, k: int)
    requires
        0 <= k <= idx.len(),
        cleared_lines(ls, idx.subrange(0, k)) is None,
    ensures
        cleared_lines(ls, idx) is None,
    decreases idx.len() - k,
{
    if k < idx.len() {
        assert(idx.subrange(0, k + 1).drop_last() =~= idx.subrange(0, k));
        lemma_cleared_lines_fail(ls, idx, k + 1);
    } else {
        assert(idx.subrange(0, k) =~= idx);
    }
}

/// What clearing the completed actions makes of a body section: `None` when
/// nothing is complete, `Err` on a conflict, else the new body section and the
/// number of checkboxes cleared.
pub open spec fn reset_body_section(bs: Seq<char>) -> Option<Result<(Seq<char>, nat), ()>> {
    let body = strip_separators(bs);
    let idx = completed_lines(project_actions(body, None, ActionMode::Parallel, false));
    if idx.len() == 0 {
        None
    } else {
        match cleared_lines(split_on(body, '\n'), idx) {
            Some(ls) => Some(
                Ok(
                    (bs.subrange(0, bs.len() - body.len()) + join(ls, seq!['\n']), idx.len()),
                ),
            ),
            None => Some(Err(())),
        }
    }
}

impl ProjectDocument {
    /// The line breaks that separate the body from the frontmatter.
    fn body_separators(&self) -> (r: Vec<char>)
        ensures
            r@ == self@.body_section.subrange(
                0,
                self@.body_section.len() - strip_separators(self@.body_section).len(),
            ),
    {
        let b = strip_frontmatter_separators(&self.body_section);
        proof {
            let s = self.body_section@;
            let one = strip_one_separator(s);
            assert(one.len() <= s.len());
            assert(strip_one_separator(one).len() <= one.len());
        }
        slice(&self.body_section, 0, self.body_section.len() - b.len())
    }
}

/// Untick every completed checklist action of a project document. Returns
/// the new text and how many checkboxes were cleared; when none is complete
/// the text comes back unchanged with a count of zero.
pub fn reset_completed_actions(file: &str, text: &str) -> (r: Result<(String, usize), ProjectFileError>)
    ensures
        match split_document(text@) {
            Err(failure) => r matches Err(e) && split_error(file@, failure, e),
            Ok((fm, bs)) => match reset_body_section(bs) {
                None => r matches Ok((t, n)) && t@ == text@ && n == 0,
                Some(Ok((nbs, count))) => r matches Ok((t, n)) && t@ == assembled(fm, nbs) && n
                    == count,
                Some(Err(_)) => r matches Err(ProjectFileError::CheckboxConflict),
            },
        },
{
    let doc = ProjectDocument::parse(file, text)?;
    let body_s = doc.body_text();
    let actions = parse_actions(body_s.as_str(), None, ActionMode::Parallel, false);
    let ghost views = actions@.map_values(|a: Action| a@);
    let mut idx: Vec<usize> = Vec::new();
    let mut i: usize = 0;
    while i < actions.len()
        invariant
            i <= actions.len(),
            views == actions@.map_values(|a: Action| a@),
            idx@.map_values(|x: usize| x as int) == completed_lines(views.subrange(0, i as int)),
        decreases actions.len() - i,
    {
        let ghost before = idx@.map_values(|x: usize| x as int);
        assert(views.subrange(0, i + 1).drop_last() =~= views.subrange(0, i as int));
        if actions[i].completed {
            match actions[i].line {
                Some(l) => {
                    idx.push(l);
                    assert(idx@.map_values(|x: usize| x as int) =~= before.push(l as int));
                },
                None => {},
            }
        }
        i = i + 1;
    }
    assert(views.subrange(0, actions.len() as int) =~= views);
    let ghost idxs = idx@.map_values(|x: usize| x as int);
    if idx.len() == 0 {
        return Ok((string_of(&chars_of(text)), 0));
    }
    let body = chars_of(body_s.as_str());
    let mut ls = split_char(&body, '\n');
    let ghost start = split_on(body@, '\n');
    let mut k: usize = 0;
    while k < idx.len()
        invariant
            k <= idx.len(),
            idxs == idx@.map_values(|x: usize| x as int),
            cleared_lines(start, idxs.subrange(0, k as int)) == Some(chars_view(ls@)),
            split_document(text@) == Ok::<_, SplitFailure>(
                (doc@.frontmatter, doc@.body_section),
            ),
            body@ == strip_separators(doc@.body_section),
            start == split_on(body@, '\n'),
            idxs == completed_lines(project_actions(body@, None, ActionMode::Parallel, false)),
            idxs.len() > 0,
        decreases idx.len() - k,
    {
        let li = idx[k];
        assert(idxs.subrange(0, k + 1).drop_last() =~= idxs.subrange(0, k as int));
        if li >= ls.len() {
            proof {
                lemma_cleared_lines_fail(start, idxs, k + 1);
            }
            return Err(ProjectFileError::CheckboxConflict);
        }
        match toggle_line_chars(&ls[li], true, false) {
            Some(t) => {
                let ghost before = chars_view(ls@);
                ls.set(li, t);
                assert(chars_view(ls@) =~= before.update(li as int, t@));
            },
            None => {
                proof {
                    lemma_cleared_lines_fail(start, idxs, k + 1);
                }
                return Err(ProjectFileError::CheckboxConflict);
            },
        }
        k = k + 1;
    }
    assert(idxs.subrange(0, idx.len() as int) =~= idxs);
    let sep = vec!['\n'];
    assert(sep@ =~= seq!['\n']);
    let joined = join_with(&ls, &sep);
    let mut section = doc.body_separators();
    append(&mut section, &joined);
    Ok((string_of(&doc.with_body_section(&section)), idx.len()))
}


// ---------------------------------------------------------------------------
// Reading back what was written
// ---------------------------------------------------------------------------

/// The body that reading gives back after `b` was written: a line feed is
/// added at its end when it has none; an empty body stays empty.
pub open spec fn written_body(b: Seq<char>) -> Seq<char> {
    if b.len() > 0 && b.last() != '\n' {
        b.push('\n')
    } else {
        b
    }
}

proof fn lemma_find_from_agree(r1: Seq<char>, r2: Seq<char>, c: char, k: int)
    requires
        0 <= k,
        find_from(r1, c, k) < r1.len(),
        find_from(r1, c, k) < r2.len(),
        r1.subrange(k, find_from(r1, c, k) + 1) == r2.subrange(k, find_from(r1, c, k) + 1),
    ensures
        find_from(r2, c, k) == find_from(r1, c, k),
    decreases r1.len() - k,
{
    let e = find_from(r1, c, k);
    lemma_find_from_range(r1, c, k);
    assert(r1[k] == r1.subrange(k, e + 1)[0]);
    assert(r2[k] == r2.subrange(k, e + 1)[0]);
    if r1[k] != c {
        assert(r1.subrange(k + 1, e + 1) =~= r1.subrange(k, e + 1).subrange(1, e + 1 - k));
        assert(r2.subrange(k + 1, e + 1) =~= r2.subrange(k, e + 1).subrange(1, e + 1 - k));
        lemma_find_from_agree(r1, r2, c, k + 1);
    }
}

pub proof fn lemma_closing_from_bounds(r: Seq<char>, k: int, j: int)
    requires
        0 <= k,
        closing_from(r, k) == Some(j),
    ensures
        k <= j < r.len(),
        j > k ==> r[j - 1] == '\n',
    decreases r.len() - k,
{
    let e = find_from(r, '\n', k);
    lemma_find_from_range(r, '\n', k);
    if !is_closing_line(r.subrange(k, e)) {
        lemma_closing_from_bounds(r, e + 1, j);
    }
}

proof fn lemma_closing_prefix(r1: Seq<char>, r2: Seq<char>, k: int, k0: int)
    requires
        0 <= k <= k0,
        closing_from(r1, k) == Some(k0),
        k0 < r2.len(),
        k0 <= r1.len(),
        r1.subrange(0, k0) == r2.subrange(0, k0),
        is_closing_line(r2.subrange(k0, find_from(r2, '\n', k0))),
    ensures
        closing_from(r2, k) == Some(k0),
    decreases k0 - k,
{
    if k < k0 {
        let e = find_from(r1, '\n', k);
        lemma_find_from_range(r1, '\n', k);
        assert(!is_closing_line(r1.subrange(k, e)));
        assert(e < r1.len());
        lemma_closing_from_bounds(r1, e + 1, k0);
        assert(e < k0);
        assert(r1.subrange(k, e + 1) =~= r1.subrange(0, k0).subrange(k, e + 1));
        assert(r2.subrange(k, e + 1) =~= r2.subrange(0, k0).subrange(k, e + 1));
        lemma_find_from_agree(r1, r2, '\n', k);
        assert(r1.subrange(k, e) =~= r2.subrange(k, e)) by {
            assert(r1.subrange(k, e) =~= r1.subrange(0, k0).subrange(k, e));
            assert(r2.subrange(k, e) =~= r2.subrange(0, k0).subrange(k, e));
        }
        lemma_closing_prefix(r1, r2, e + 1, k0);
    }
}

/// The frontmatter that a document splits off is written back unchanged: it
/// already starts on a new line and ends with a line feed.
pub proof fn lemma_split_frontmatter_normalized(text: Seq<char>)
    requires
        split_document(text) is Ok,
    ensures
        match split_document(text) {
            Ok((fm, _)) => {
                let t = strip_bom(text);
                let rest = t.subrange(3, t.len() as int);
                &&& normalized_frontmatter(fm) == fm
                &&& fm.len() > 0
                &&& fm[0] == '\n' || (fm.len() >= 2 && fm[0] == '\r' && fm[1] == '\n')
                &&& fm.last() == '\n'
                &&& closing_from(rest, 0) == Some(fm.len() as int)
                &&& fm == rest.subrange(0, fm.len() as int)
            },
            Err(_) => true,
        },
{
    let t = strip_bom(text);
    let rest = t.subrange(3, t.len() as int);
    let k0 = closing_from(rest, 0)->0;
    lemma_closing_from_bounds(rest, 0, k0);
    lemma_find_from_range(rest, '\n', 0);
    if starts_with(rest, seq!['\n']) {
        assert(rest[0] == rest.subrange(0, 1)[0]);
    } else {
        assert(rest[0] == rest.subrange(0, 2)[0]);
        assert(rest[1] == rest.subrange(0, 2)[1]);
    }
    let e = find_from(rest, '\n', 0);
    assert(!is_closing_line(rest.subrange(0, e))) by {
        if rest[0] == '\n' {
            assert(rest.subrange(0, e) =~= Seq::<char>::empty());
            assert(trim_end_cr(Seq::<char>::empty()) =~= Seq::<char>::empty());
        } else {
            assert(e == 1);
            let l = rest.subrange(0, 1);
            assert(l[0] == rest[0]);
            assert(l.last() == '\r');
            assert(l.drop_last() =~= Seq::<char>::empty());
            assert(trim_end_cr(l.drop_last()) =~= Seq::<char>::empty());
            assert(trim_end_cr(l) =~= Seq::<char>::empty());
        }
    }
    assert(closing_from(rest, 0) == closing_from(rest, e + 1));
    lemma_closing_from_bounds(rest, e + 1, k0);
    let fm = rest.subrange(0, k0);
    assert(fm[0] == rest[0]);
    if rest[0] != '\n' {
        assert(fm[1] == rest[1]);
    }
    assert(fm.last() == rest[k0 - 1]);
    assert(normalized_frontmatter(fm) =~= fm);
}

/// A document assembled from frontmatter split off an earlier document and
/// a normalized body splits back into the same two parts.
#[verifier::rlimit(30)]
pub proof fn lemma_split_assembled(rest0: Seq<char>, fm: Seq<char>, nb: Seq<char>)
    requires
        fm.len() > 0,
        fm[0] == '\n' || (fm.len() >= 2 && fm[0] == '\r' && fm[1] == '\n'),
        closing_from(rest0, 0) == Some(fm.len() as int),
        fm == rest0.subrange(0, fm.len() as int),
        nb.len() > 0,
        nb[0] == '\n',
    ensures
        split_document(dashes() + fm + dashes() + nb) == Ok::<_, SplitFailure>((fm, nb)),
{
    let k0 = fm.len() as int;
    let written = dashes() + fm + dashes() + nb;
    assert(strip_bom(written) =~= written);
    assert(written.subrange(0, 3) =~= dashes());
    let rest = written.subrange(3, written.len() as int);
    assert(rest =~= fm + dashes() + nb);
    if fm[0] == '\n' {
        assert(rest.subrange(0, 1) =~= seq!['\n']);
    } else {
        assert(rest.subrange(0, 2) =~= seq!['\r', '\n']);
    }
    assert(rest[k0 + 3] == nb[0]);
    assert(find_from(rest, '\n', k0 + 3) == k0 + 3);
    assert(find_from(rest, '\n', k0 + 2) == k0 + 3);
    assert(find_from(rest, '\n', k0 + 1) == k0 + 3);
    assert(find_from(rest, '\n', k0) == k0 + 3);
    assert(rest.subrange(k0, k0 + 3) =~= dashes());
    assert(trim_end_cr(dashes()) == dashes());
    assert(rest0.subrange(0, k0) =~= rest.subrange(0, k0));
    lemma_closing_from_bounds(rest0, 0, k0);
    lemma_closing_prefix(rest0, rest, 0, k0);
    assert(rest.subrange(0, k0) =~= fm);
    assert(rest.subrange(k0 + 3, rest.len() as int) =~= nb);
}

/// What the separators leave of a normalized body.
proof fn lemma_strip_normalized_body(body: Seq<char>)
    ensures
        strip_separators(normalized_body(body)) == written_body(body),
{
    let nb = normalized_body(body);
    if body.len() == 0 {
        assert(strip_one_separator(nb) =~= Seq::<char>::empty());
        assert(strip_one_separator(Seq::<char>::empty()) =~= Seq::<char>::empty());
    } else {
        let tail = body + (if body.last() == '\n' {
            Seq::<char>::empty()
        } else {
            seq!['\n']
        });
        assert(nb =~= seq!['\n', '\n'] + tail);
        assert(strip_one_separator(nb) =~= seq!['\n'] + tail);
        assert(strip_one_separator(seq!['\n'] + tail) =~= tail);
        assert(tail =~= written_body(body));
    }
}

/// Resetting the completed actions of a project leaves its frontmatter as it
/// was: reading the reset document gives the same frontmatter back, and so the
/// same fields (status and deferral among them).
pub proof fn lemma_reset_keeps_frontmatter(text: Seq<char>)
    requires
        split_document(text) is Ok,
    ensures
        match split_document(text) {
            Ok((fm, bs)) => match reset_body_section(bs) {
                Some(Ok((nbs, _))) => {
                    &&& split_document(assembled(fm, nbs)) == Ok::<_, SplitFailure>((fm, nbs))
                    &&& document_fields(assembled(fm, nbs)) == document_fields(text)
                },
                _ => true,
            },
            Err(_) => true,
        },
{
    lemma_split_frontmatter_normalized(text);
    let fm = split_document(text)->Ok_0.0;
    let bs = split_document(text)->Ok_0.1;
    if let Some(Ok((nbs, _))) = reset_body_section(bs) {
        let t = strip_bom(text);
        let rest0 = t.subrange(3, t.len() as int);
        let k = closing_from(rest0, 0)->0;
        lemma_closing_from_bounds(rest0, 0, k);
        lemma_find_from_range(rest0, '\n', k);
        let e = find_from(rest0, '\n', k);
        assert(bs =~= rest0.subrange(e, rest0.len() as int));
        if bs.len() == 0 {
            let body = strip_separators(bs);
            assert(body =~= Seq::<char>::empty());
            assert(lines(body) =~= Seq::<Seq<char>>::empty());
            assert(body_items(body) =~= Seq::<ItemSpec>::empty());
            assert(project_actions(body, None, ActionMode::Parallel, false) =~= Seq::<ActionView>::empty());
        }
        assert(bs[0] == '\n');
        let body = strip_separators(bs);
        assert(body.len() < bs.len());
        assert(nbs[0] == bs[0]);
        assert(assembled(fm, nbs) =~= dashes() + fm + dashes() + nbs);
        lemma_split_assembled(rest0, fm, nbs);
    }
}

/// Reading the body of a project document after a body was written gives
/// that body back (with a final line feed), and the frontmatter stays as it was.
pub proof fn lemma_read_after_write(text: Seq<char>, body: Seq<char>)
    requires
        split_document(text) is Ok,
    ensures
        match split_document(text) {
            Ok((fm, _)) => {
                let written = assembled(fm, normalized_body(body));
                &&& split_document(written) == Ok::<_, SplitFailure>((fm, normalized_body(body)))
                &&& body_of(written) == written_body(body)
            },
            Err(_) => true,
        },
{
    lemma_split_frontmatter_normalized(text);
    let fm = split_document(text)->Ok_0.0;
    let t = strip_bom(text);
    let rest0 = t.subrange(3, t.len() as int);
    let nb = normalized_body(body);
    assert(assembled(fm, nb) =~= dashes() + fm + dashes() + nb);
    lemma_split_assembled(rest0, fm, nb);
    lemma_strip_normalized_body(body);
}

proof fn lemma_strip_one_suffix(b: Seq<char>) -> (n: int)
    ensures
        0 <= n <= b.len(),
        strip_one_separator(b) == b.subrange(n, b.len() as int),
{
    if b.len() >= 2 && b[0] == '\r' && b[1] == '\n' {
        2
    } else if b.len() >= 1 && b[0] == '\n' {
        assert(b.drop_first() =~= b.subrange(1, b.len() as int));
        1
    } else {
        assert(b =~= b.subrange(0, b.len() as int));
        0
    }
}

/// The body of a document is always a suffix of its text, and a text
/// without usable frontmatter is all body.
#[verifier::spinoff_prover]
#[verifier::rlimit(40)]
pub proof fn lemma_body_is_suffix(text: Seq<char>)
    ensures
        split_document(text) is Err ==> body_of(text) == text,
        exists|k: int| 0 <= k <= text.len() && body_of(text) == #[trigger] text.subrange(k, text.len() as int),
{
    match split_document(text) {
        Err(_) => {
            assert(text.subrange(0, text.len() as int) =~= text);
        },
        Ok((fm, body)) => {
            let t = strip_bom(text);
            let off: int = if text.len() > 0 && text[0] == '\u{feff}' { 1 } else { 0 };
            assert(t =~= text.subrange(off, text.len() as int));
            let rest = t.subrange(3, t.len() as int);
            let k = closing_from(rest, 0)->0;
            lemma_closing_from_bounds(rest, 0, k);
            let e = find_from(rest, '\n', k);
            lemma_find_from_range(rest, '\n', k);
            let a = off + 3 + e;
            assert(body =~= text.subrange(a, text.len() as int));
            let n1 = lemma_strip_one_suffix(body);
            let b1 = strip_one_separator(body);
            assert(b1 =~= text.subrange(a + n1, text.len() as int));
            let n2 = lemma_strip_one_suffix(b1);
            assert(strip_one_separator(b1) =~= text.subrange(a + n1 + n2, text.len() as int));
        },
    }
}

proof fn lemma_first_match_at(ls: Seq<Seq<char>>, f: Seq<char>, k: int, p: int)
    requires
        0 <= k <= p < ls.len(),
        matches_field(ls[p], f),
        forall|i: int| k <= i < p ==> !#[trigger] matches_field(ls[i], f),
    ensures
        first_match(ls, f, k) == p,
    decreases p - k,
{
    if k < p {
        lemma_first_match_at(ls, f, k + 1, p);
    }
}

proof fn lemma_first_match_none(ls: Seq<Seq<char>>, f: Seq<char>, k: int)
    requires
        0 <= k <= ls.len(),
        forall|i: int| k <= i < ls.len() ==> !#[trigger] matches_field(ls[i], f),
    ensures
        first_match(ls, f, k) == ls.len(),
    decreases ls.len() - k,
{
    if k < ls.len() {
        lemma_first_match_none(ls, f, k + 1);
    }
}

/// Where setting a field puts its line: where lines already set the field,
/// exactly those lines become the new line; otherwise the new line goes
/// right after the first line that sets the anchor, or at the end when no
/// line does.
pub proof fn lemma_upsert_placement(ls: Seq<Seq<char>>, field: Seq<char>, line: Seq<char>, anchor: Seq<char>)
    ensures
        any_match(ls, field) ==> upserted(ls, field, line, anchor).len() == ls.len() && forall|i: int|
            0 <= i < ls.len() ==> #[trigger] upserted(ls, field, line, anchor)[i] == if matches_field(
                ls[i],
                field,
            ) {
                line
            } else {
                ls[i]
            },
        forall|p: int|
            0 <= p < ls.len() && !any_match(ls, field) && #[trigger] matches_field(ls[p], anchor) && (forall|
                i: int,
            | 0 <= i < p ==> !#[trigger] matches_field(ls[i], anchor)) ==> upserted(ls, field, line, anchor)
                == ls.subrange(0, p + 1) + seq![line] + ls.subrange(p + 1, ls.len() as int),
        !any_match(ls, field) && (forall|i: int| 0 <= i < ls.len() ==> !#[trigger] matches_field(ls[i], anchor))
            ==> upserted(ls, field, line, anchor) == ls.push(line),
{
    assert forall|p: int|
        0 <= p < ls.len() && !any_match(ls, field) && #[trigger] matches_field(ls[p], anchor) && (forall|
            i: int,
        | 0 <= i < p ==> !#[trigger] matches_field(ls[i], anchor)) implies upserted(ls, field, line, anchor)
            == ls.subrange(0, p + 1) + seq![line] + ls.subrange(p + 1, ls.len() as int) by {
        lemma_first_match_at(ls, anchor, 0, p);
        assert(ls.insert(p + 1, line) =~= ls.subrange(0, p + 1) + seq![line] + ls.subrange(p + 1, ls.len() as int));
    }
    if !any_match(ls, field) && (forall|i: int| 0 <= i < ls.len() ==> !#[trigger] matches_field(ls[i], anchor)) {
        lemma_first_match_none(ls, anchor, 0);
    }
}

proof fn lemma_trim_start_whitespace_prefix(w: Seq<char>, x: Seq<char>)
    requires
        forall|i: int| 0 <= i < w.len() ==> is_white_space(#[trigger] w[i]),
        x.len() > 0,
        !is_white_space(x[0]),
    ensures
        trim_start(w + x) == x,
    decreases w.len(),
{
    if w.len() == 0 {
        assert(w + x =~= x);
    } else {
        assert((w + x).drop_first() =~= w.drop_first() + x);
        lemma_trim_start_whitespace_prefix(w.drop_first(), x);
    }
}

proof fn lemma_blank_run_over(line: Seq<char>, k: int, n: int)
    requires
        0 <= k <= n < line.len(),
        forall|i: int| k <= i < n ==> line[i] == ' ' || line[i] == '\t',
        line[n] != ' ' && line[n] != '\t',
    ensures
        blank_run_end(line, k) == n,
    decreases n - k,
{
    if k < n {
        lemma_blank_run_over(line, k + 1, n);
    }
}

/// The parts of a checklist line: leading whitespace, a bullet (`-`, `*` or
/// `+`), a run of spaces or tabs, and the mark between `[` and `]`.
pub open spec fn checkbox_parts(w: Seq<char>, b: char, s: Seq<char>, c: char) -> bool {
    &&& forall|i: int| 0 <= i < w.len() ==> is_white_space(#[trigger] w[i])
    &&& is_bullet(b)
    &&& s.len() > 0
    &&& forall|i: int| 0 <= i < s.len() ==> (#[trigger] s[i] == ' ' || s[i] == '\t')
    &&& c == ' ' || c == 'x' || c == 'X'
}

/// A checklist line made of those parts, then `[`, the mark, `]` and
/// anything after, toggles exactly when the mark is in the expected state;
/// only the mark between the brackets changes.
pub proof fn lemma_toggle_checkbox_shape(
    w: Seq<char>,
    b: char,
    s: Seq<char>,
    c: char,
    rest: Seq<char>,
    expected_checked: bool,
    new_checked: bool,
)
    requires
        checkbox_parts(w, b, s, c),
    ensures
        toggled_line(w + seq![b] + s + seq!['[', c, ']'] + rest, expected_checked, new_checked) == if (c
            != ' ') == expected_checked {
            Some(w + seq![b] + s + checkbox_text(new_checked) + rest)
        } else {
            None
        },
{
    let tail = seq![b] + s + seq!['[', c, ']'] + rest;
    let line = w + tail;
    assert(line =~= w + seq![b] + s + seq!['[', c, ']'] + rest);
    lemma_trim_start_whitespace_prefix(w, tail);
    let i = w.len() as int;
    assert(line.len() - trim_start(line).len() == i);
    assert(line[i] == b);
    let j = i + 1 + s.len();
    assert forall|k: int| i + 1 <= k < j implies line[k] == ' ' || line[k] == '\t' by {
        assert(line[k] == s[k - i - 1]);
    }
    assert(line[j] == '[');
    lemma_blank_run_over(line, i + 1, j);
    assert(line[j + 1] == c && line[j + 2] == ']');
    assert(checkbox_marker(line) == Some((j, c != ' ')));
    assert(line.subrange(0, j) =~= w + seq![b] + s);
    assert(line.subrange(j + 3, line.len() as int) =~= rest);
}

proof fn lemma_leading_white_space(line: Seq<char>)
    ensures
        trim_start(line).len() <= line.len(),
        trim_start(line) == line.subrange(line.len() - trim_start(line).len(), line.len() as int),
        forall|k: int| 0 <= k < line.len() - trim_start(line).len() ==> is_white_space(#[trigger] line[k]),
        trim_start(line).len() > 0 ==> !is_white_space(trim_start(line)[0]),
    decreases line.len(),
{
    if line.len() > 0 && is_white_space(line[0]) {
        let d = line.drop_first();
        lemma_leading_white_space(d);
        assert forall|k: int| 0 <= k < line.len() - trim_start(line).len() implies is_white_space(#[trigger] line[k]) by {
            if k > 0 {
                assert(line[k] == d[k - 1]);
            }
        }
        assert(d.subrange(d.len() - trim_start(d).len(), d.len() as int) =~= line.subrange(
            line.len() - trim_start(line).len(),
            line.len() as int,
        ));
    } else {
        assert(line.subrange(0, line.len() as int) =~= line);
    }
}

proof fn lemma_blank_run_blanks(line: Seq<char>, k: int)
    requires
        0 <= k <= line.len(),
    ensures
        forall|i: int| k <= i < blank_run_end(line, k) ==> (#[trigger] line[i] == ' ' || line[i] == '\t'),
        blank_run_end(line, k) < line.len() ==> line[blank_run_end(line, k)] != ' ' && line[blank_run_end(line, k)] != '\t',
    decreases line.len() - k,
{
    lemma_blank_run_end(line, k);
    if k < line.len() && (line[k] == ' ' || line[k] == '\t') {
        lemma_blank_run_blanks(line, k + 1);
    }
}

/// Every checklist line that toggles is made of checkbox parts, with its
/// mark in the expected state.
pub proof fn lemma_toggled_line_has_parts(line: Seq<char>, expected_checked: bool, new_checked: bool)
    requires
        toggled_line(line, expected_checked, new_checked) is Some,
    ensures
        exists|w: Seq<char>, b: char, s: Seq<char>, c: char|
            #[trigger] checkbox_parts(w, b, s, c) && w.len() + s.len() + 4 <= line.len() && line == w
                + seq![b] + s + seq!['[', c, ']'] + line.subrange((w.len() + s.len() + 4) as int, line.len() as int)
                && (c != ' ') == expected_checked,
{
    lemma_leading_white_space(line);
    let i = line.len() - trim_start(line).len();
    let j = blank_run_end(line, i + 1);
    lemma_blank_run_blanks(line, i + 1);
    let w = line.subrange(0, i);
    let b = line[i];
    let s = line.subrange(i + 1, j);
    let c = line[j + 1];
    let rest = line.subrange(j + 3, line.len() as int);
    assert forall|k: int| 0 <= k < w.len() implies is_white_space(#[trigger] w[k]) by {
        assert(w[k] == line[k]);
    }
    assert forall|k: int| 0 <= k < s.len() implies (#[trigger] s[k] == ' ' || s[k] == '\t') by {
        assert(s[k] == line[i + 1 + k]);
    }
    assert(checkbox_parts(w, b, s, c));
    assert(line =~= w + seq![b] + s + seq!['[', c, ']'] + rest);
}

} // verus!
