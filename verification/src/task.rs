//! Standalone tasks, one per line of `_tasks/todo.txt` in the todo.txt style:
//! `x` and a completion date, a creation date, text with `@context`,
//! `&person` and `+tag` words, and `p:`, `due:`, `t:` and `status:waiting`.
//!
//! Dates are day numbers (see `dates`). Whether a `p:` value is a finite
//! number is decided where floating point is available and handed in, one
//! flag per word of the line.

use vstd::prelude::*;

use crate::dates::{date_text, format_date, parse_date, parsed_date};
use crate::project_file::{cat2, cat3};
use crate::text::{
    append, chars_of, eq, has_prefix, join, join_with, lines, lines_of, slice, split_char,
    split_on, starts_with, string_of, trim, trimmed,
};
use crate::timeline::{lemma_insert_by_at, lemma_sort_by_keeps, lemma_sort_by_sorted, sort_by, sorted_by, strict_order};
use crate::tokens::{split_whitespace, words};

verus! {

#[derive(Debug)]
pub enum TaskError {
    InvalidPath(String),
    InvalidLine(String),
    Conflict,
    Read { file: String, source: std::io::Error },
    Write { file: String, source: std::io::Error },
}

impl TaskError {
    /// The human-readable message of the error.
    pub fn message(&self) -> (r: String)
        ensures
            self matches TaskError::InvalidPath(f) ==> r@ == "Invalid task path: "@ + f@,
            self matches TaskError::InvalidLine(m) ==> r@ == "Invalid task: "@ + m@,
            self is Conflict ==> r@ == "Task changed; reload and retry"@,
            self matches TaskError::Read { file, source } ==> r@.len() >= file@.len() + 2
                && r@.subrange(0, file@.len() + 2int) == file@ + ": "@,
            self matches TaskError::Write { file, source } ==> r@.len() >= file@.len() + 2
                && r@.subrange(0, file@.len() + 2int) == file@ + ": "@,
    {
        match self {
            TaskError::InvalidPath(f) => cat2("Invalid task path: ", f.as_str()),
            TaskError::InvalidLine(m) => cat2("Invalid task: ", m.as_str()),
            TaskError::Conflict => string_of(&chars_of("Task changed; reload and retry")),
            TaskError::Read { file, source } | TaskError::Write { file, source } => {
                let t = crate::project_file::io_error_text(source);
                let r = cat3(file.as_str(), ": ", t.as_str());
                proof {
                    reveal_strlit(": ");
                    assert(r@.subrange(0, file@.len() + 2int) =~= file@ + ": "@);
                }
                r
            },
        }
    }
}

fn invalid_line(message: &str) -> (r: TaskError)
    ensures
        r matches TaskError::InvalidLine(m) && m@ == message@,
{
    TaskError::InvalidLine(string_of(&chars_of(message)))
}

/// One task line.
#[derive(Debug, Clone)]
pub struct Task {
    pub line: usize,
    pub raw: String,
    pub text: String,
    pub title: String,
    /// The `p:` value, a finite number.
    pub priority: Option<String>,
    pub created: Option<i32>,
    pub completed: Option<i32>,
    pub due: Option<i32>,
    pub deferred_until: Option<i32>,
    pub waiting: bool,
    pub visible: bool,
    pub contexts: Vec<String>,
    pub people: Vec<String>,
    pub tags: Vec<String>,
}

pub struct TaskView {
    pub line: usize,
    pub raw: Seq<char>,
    pub text: Seq<char>,
    pub title: Seq<char>,
    pub priority: Option<Seq<char>>,
    pub created: Option<int>,
    pub completed: Option<int>,
    pub due: Option<int>,
    pub deferred_until: Option<int>,
    pub waiting: bool,
    pub visible: bool,
    pub contexts: Seq<Seq<char>>,
    pub people: Seq<Seq<char>>,
    pub tags: Seq<Seq<char>>,
}

pub open spec fn strs(v: Seq<String>) -> Seq<Seq<char>> {
    v.map_values(|s: String| s@)
}

pub open spec fn opt_str(o: Option<String>) -> Option<Seq<char>> {
    match o {
        Some(s) => Some(s@),
        None => None,
    }
}

pub open spec fn opt_int(o: Option<i32>) -> Option<int> {
    match o {
        Some(d) => Some(d as int),
        None => None,
    }
}

impl View for Task {
    type V = TaskView;

    open spec fn view(&self) -> TaskView {
        TaskView {
            line: self.line,
            raw: self.raw@,
            text: self.text@,
            title: self.title@,
            priority: opt_str(self.priority),
            created: opt_int(self.created),
            completed: opt_int(self.completed),
            due: opt_int(self.due),
            deferred_until: opt_int(self.deferred_until),
            waiting: self.waiting,
            visible: self.visible,
            contexts: strs(self.contexts@),
            people: strs(self.people@),
            tags: strs(self.tags@),
        }
    }
}

/// What the words after the dates set.
pub struct TaskScan {
    pub content: Seq<Seq<char>>,
    pub priority: Option<Seq<char>>,
    pub due: Option<int>,
    pub deferred: Option<int>,
    pub waiting: bool,
}

/// One word: `p:`, `due:` and `t:` set their value (an invalid one is an
/// error), `status:waiting` marks the task waiting, anything else is text.
pub open spec fn scan_step(st: TaskScan, tok: Seq<char>, finite: bool) -> Result<TaskScan, Seq<char>> {
    if starts_with(tok, "p:"@) {
        if finite {
            Ok(
                TaskScan {
                    content: st.content,
                    priority: Some(tok.subrange(2, tok.len() as int)),
                    due: st.due,
                    deferred: st.deferred,
                    waiting: st.waiting,
                },
            )
        } else {
            Err("p: must contain a finite number"@)
        }
    } else if starts_with(tok, "due:"@) {
        match parsed_date(tok.subrange(4, tok.len() as int)) {
            Some(d) => Ok(
                TaskScan {
                    content: st.content,
                    priority: st.priority,
                    due: Some(d),
                    deferred: st.deferred,
                    waiting: st.waiting,
                },
            ),
            None => Err("due: must use YYYY-MM-DD"@),
        }
    } else if starts_with(tok, "t:"@) {
        match parsed_date(tok.subrange(2, tok.len() as int)) {
            Some(d) => Ok(
                TaskScan {
                    content: st.content,
                    priority: st.priority,
                    due: st.due,
                    deferred: Some(d),
                    waiting: st.waiting,
                },
            ),
            None => Err("t: must use YYYY-MM-DD"@),
        }
    } else if tok == "status:waiting"@ {
        Ok(
            TaskScan {
                content: st.content,
                priority: st.priority,
                due: st.due,
                deferred: st.deferred,
                waiting: true,
            },
        )
    } else {
        Ok(
            TaskScan {
                content: st.content.push(tok),
                priority: st.priority,
                due: st.due,
                deferred: st.deferred,
                waiting: st.waiting,
            },
        )
    }
}

/// The words scanned in order; the first invalid one is the error.
pub open spec fn scan_tokens(ts: Seq<Seq<char>>, flags: Seq<bool>) -> Result<TaskScan, Seq<char>>
    decreases ts.len(),
{
    if ts.len() == 0 {
        Ok(TaskScan { content: Seq::empty(), priority: None, due: None, deferred: None, waiting: false })
    } else {
        match scan_tokens(ts.drop_last(), flags) {
            Ok(st) => scan_step(st, ts.last(), flags[ts.len() - 1]),
            Err(e) => Err(e),
        }
    }
}

proof fn lemma_scan_error_persists(ts: Seq<Seq<char>>, flags: Seq<bool>, n: int)
    requires
        0 <= n <= ts.len(),
        scan_tokens(ts.subrange(0, n), flags) is Err,
    ensures
        scan_tokens(ts, flags) == scan_tokens(ts.subrange(0, n), flags),
    decreases ts.len() - n,
{
    if n < ts.len() {
        assert(ts.subrange(0, n + 1).drop_last() =~= ts.subrange(0, n));
        lemma_scan_error_persists(ts, flags, n + 1);
    } else {
        assert(ts.subrange(0, n) =~= ts);
    }
}

/// The completion date (after a leading `x`), the creation date, and where
/// the rest of the words start.
pub open spec fn task_header(ts: Seq<Seq<char>>) -> Result<(Option<int>, Option<int>, int), Seq<char>> {
    let done = ts.len() > 0 && ts[0] == "x"@;
    if done && !(ts.len() > 1 && parsed_date(ts[1]) is Some) {
        Err("completion date is required after x"@)
    } else {
        let completed = if done {
            parsed_date(ts[1])
        } else {
            None
        };
        let cursor: int = if done {
            2
        } else {
            0
        };
        let created = if cursor < ts.len() {
            parsed_date(ts[cursor])
        } else {
            None
        };
        Ok((completed, created, if created is Some {
            cursor + 1
        } else {
            cursor
        }))
    }
}

/// The words that start with `prefix`, without it (empty ones left out).
pub open spec fn annotations_of(ts: Seq<Seq<char>>, prefix: char) -> Seq<Seq<char>>
    decreases ts.len(),
{
    if ts.len() == 0 {
        Seq::empty()
    } else {
        let prev = annotations_of(ts.drop_last(), prefix);
        let t = ts.last();
        if t.len() > 1 && t[0] == prefix {
            prev.push(t.drop_first())
        } else {
            prev
        }
    }
}

pub open spec fn is_annotation(t: Seq<char>) -> bool {
    t.len() > 0 && (t[0] == '@' || t[0] == '&' || t[0] == '+')
}

/// The words that are not `@`, `&` or `+` annotations.
pub open spec fn title_words(ts: Seq<Seq<char>>) -> Seq<Seq<char>>
    decreases ts.len(),
{
    if ts.len() == 0 {
        Seq::empty()
    } else if is_annotation(ts.last()) {
        title_words(ts.drop_last())
    } else {
        title_words(ts.drop_last()).push(ts.last())
    }
}

/// A task line read: `Err` holds the message of an invalid line.
pub open spec fn parsed_task(raw: Seq<char>, line: usize, today: int, flags: Seq<bool>) -> Result<
    TaskView,
    Seq<char>,
> {
    let ts = words(raw);
    if ts.len() == 0 {
        Err("empty line"@)
    } else {
        match task_header(ts) {
            Err(e) => Err(e),
            Ok((completed, created, cursor)) => match scan_tokens(
                ts.subrange(cursor, ts.len() as int),
                flags.subrange(cursor, ts.len() as int),
            ) {
                Err(e) => Err(e),
                Ok(st) => if st.content.len() == 0 {
                    Err("text is required"@)
                } else if title_words(st.content).len() == 0 {
                    Err("descriptive text is required"@)
                } else {
                    Ok(
                        TaskView {
                            line,
                            raw,
                            text: join(st.content, seq![' ']),
                            title: join(title_words(st.content), seq![' ']),
                            priority: st.priority,
                            created,
                            completed,
                            due: st.due,
                            deferred_until: st.deferred,
                            waiting: st.waiting,
                            visible: completed is None && match st.deferred {
                                Some(d) => d <= today,
                                None => true,
                            },
                            contexts: annotations_of(st.content, '@'),
                            people: annotations_of(st.content, '&'),
                            tags: annotations_of(st.content, '+'),
                        },
                    )
                },
            },
        }
    }
}

/// The words of a task line (`str::split_whitespace`), for which the caller
/// tells whether each `p:` value is a finite number.
pub fn task_tokens(raw: &str) -> (r: Vec<String>)
    ensures
        strs(r@) == words(raw@),
{
    let ws = split_whitespace(&chars_of(raw));
    let ghost wv = ws@.map_values(|w: Vec<char>| w@);
    let mut r: Vec<String> = Vec::new();
    let mut i: usize = 0;
    while i < ws.len()
        invariant
            i <= ws.len(),
            wv == ws@.map_values(|w: Vec<char>| w@),
            strs(r@) == wv.subrange(0, i as int),
        decreases ws.len() - i,
    {
        let ghost before = strs(r@);
        let s = string_of(&ws[i]);
        r.push(s);
        assert(strs(r@) =~= before.push(s@));
        assert(wv.subrange(0, i + 1) =~= wv.subrange(0, i as int).push(s@));
        i = i + 1;
    }
    assert(wv.subrange(0, ws.len() as int) =~= wv);
    r
}

fn strip_str_prefix(t: &Vec<char>, p: &str) -> (r: Option<Vec<char>>)
    ensures
        match r {
            Some(v) => starts_with(t@, p@) && v@ == t@.subrange(p@.len() as int, t@.len() as int),
            None => !starts_with(t@, p@),
        },
{
    let pc = chars_of(p);
    if has_prefix(t, &pc) {
        Some(slice(t, pc.len(), t.len()))
    } else {
        None
    }
}

fn annotations(ts: &Vec<Vec<char>>, prefix: char) -> (r: Vec<String>)
    ensures
        strs(r@) == annotations_of(ts@.map_values(|w: Vec<char>| w@), prefix),
{
    let ghost tv = ts@.map_values(|w: Vec<char>| w@);
    let mut r: Vec<String> = Vec::new();
    let mut i: usize = 0;
    while i < ts.len()
        invariant
            i <= ts.len(),
            tv == ts@.map_values(|w: Vec<char>| w@),
            strs(r@) == annotations_of(tv.subrange(0, i as int), prefix),
        decreases ts.len() - i,
    {
        let ghost before = strs(r@);
        assert(tv.subrange(0, i + 1).drop_last() =~= tv.subrange(0, i as int));
        let t = &ts[i];
        if t.len() > 1 && t[0] == prefix {
            let s = string_of(&slice(t, 1, t.len()));
            r.push(s);
            assert(strs(r@) =~= before.push(t@.drop_first()));
        }
        i = i + 1;
    }
    assert(tv.subrange(0, ts.len() as int) =~= tv);
    r
}

impl Task {
    /// Read one task line. `finite[i]` tells whether word `i` of the line is
    /// `p:` followed by a finite number.
    pub fn parse(raw: &str, line: usize, today: i32, finite: &Vec<bool>) -> (r: Result<
        Task,
        TaskError,
    >)
        requires
            finite@.len() == words(raw@).len(),
        ensures
            match parsed_task(raw@, line, today as int, finite@) {
                Ok(t) => r matches Ok(task) && task@ == t,
                Err(m) => r matches Err(TaskError::InvalidLine(e)) && e@ == m,
            },
    {
        let rc = chars_of(raw);
        let ts = split_whitespace(&rc);
        let ghost tv = ts@.map_values(|w: Vec<char>| w@);
        if ts.len() == 0 {
            return Err(invalid_line("empty line"));
        }
        let x = chars_of("x");
        let done = eq(&ts[0], &x);
        let mut cursor: usize = 0;
        let mut completed: Option<i32> = None;
        if done {
            let d = if ts.len() > 1 {
                parse_date(string_of(&ts[1]).as_str())
            } else {
                None
            };
            match d {
                Some(v) => {
                    completed = Some(v);
                },
                None => {
                    return Err(invalid_line("completion date is required after x"));
                },
            }
            cursor = 2;
        }
        let created = if cursor < ts.len() {
            parse_date(string_of(&ts[cursor]).as_str())
        } else {
            None
        };
        if created.is_some() {
            cursor = cursor + 1;
        }
        assert(task_header(tv) == Ok::<_, Seq<char>>(
            (opt_int(completed), opt_int(created), cursor as int),
        ));
        let ghost rest = tv.subrange(cursor as int, tv.len() as int);
        let ghost rflags = finite@.subrange(cursor as int, tv.len() as int);
        let mut content: Vec<Vec<char>> = Vec::new();
        let mut priority: Option<String> = None;
        let mut due: Option<i32> = None;
        let mut deferred: Option<i32> = None;
        let mut waiting = false;
        let mut k: usize = cursor;
        assert(content@.map_values(|w: Vec<char>| w@) =~= Seq::<Seq<char>>::empty());
        assert(rest.subrange(0, 0) =~= Seq::<Seq<char>>::empty());
        while k < ts.len()
            invariant
                cursor <= k <= ts.len(),
                tv == ts@.map_values(|w: Vec<char>| w@),
                tv == words(raw@),
                tv.len() > 0,
                task_header(tv) == Ok::<_, Seq<char>>(
                    (opt_int(completed), opt_int(created), cursor as int),
                ),
                finite@.len() == tv.len(),
                rest == tv.subrange(cursor as int, tv.len() as int),
                rflags == finite@.subrange(cursor as int, tv.len() as int),
                scan_tokens(rest.subrange(0, k - cursor), rflags) == Ok::<_, Seq<char>>(
                    TaskScan {
                        content: content@.map_values(|w: Vec<char>| w@),
                        priority: opt_str(priority),
                        due: opt_int(due),
                        deferred: opt_int(deferred),
                        waiting,
                    },
                ),
            decreases ts.len() - k,
        {
            let ghost prefix = rest.subrange(0, k - cursor);
            let ghost next = rest.subrange(0, k + 1 - cursor);
            assert(next.drop_last() =~= prefix);
            assert(next.last() == tv[k as int]);
            let t = &ts[k];
            proof {
                reveal_strlit("p:");
                reveal_strlit("due:");
                reveal_strlit("t:");
            }
            if let Some(v) = strip_str_prefix(t, "p:") {
                if !finite[k] {
                    proof {
                        lemma_scan_error_persists(rest, rflags, k + 1 - cursor);
                    }
                    return Err(invalid_line("p: must contain a finite number"));
                }
                priority = Some(string_of(&v));
            } else if let Some(v) = strip_str_prefix(t, "due:") {
                match parse_date(string_of(&v).as_str()) {
                    Some(d) => {
                        due = Some(d);
                    },
                    None => {
                        proof {
                            lemma_scan_error_persists(rest, rflags, k + 1 - cursor);
                        }
                        return Err(invalid_line("due: must use YYYY-MM-DD"));
                    },
                }
            } else if let Some(v) = strip_str_prefix(t, "t:") {
                match parse_date(string_of(&v).as_str()) {
                    Some(d) => {
                        deferred = Some(d);
                    },
                    None => {
                        proof {
                            lemma_scan_error_persists(rest, rflags, k + 1 - cursor);
                        }
                        return Err(invalid_line("t: must use YYYY-MM-DD"));
                    },
                }
            } else if eq(t, &chars_of("status:waiting")) {
                waiting = true;
            } else {
                let ghost before = content@.map_values(|w: Vec<char>| w@);
                content.push(t.clone());
                assert(content@.map_values(|w: Vec<char>| w@) =~= before.push(t@));
            }
            k = k + 1;
        }
        assert(rest.subrange(0, ts.len() - cursor) =~= rest);
        let ghost cv = content@.map_values(|w: Vec<char>| w@);
        if content.len() == 0 {
            return Err(invalid_line("text is required"));
        }
        let mut title_ws: Vec<Vec<char>> = Vec::new();
        let mut i: usize = 0;
        while i < content.len()
            invariant
                i <= content.len(),
                cv == content@.map_values(|w: Vec<char>| w@),
                title_ws@.map_values(|w: Vec<char>| w@) == title_words(cv.subrange(0, i as int)),
            decreases content.len() - i,
        {
            let ghost before = title_ws@.map_values(|w: Vec<char>| w@);
            assert(cv.subrange(0, i + 1).drop_last() =~= cv.subrange(0, i as int));
            let t = &content[i];
            if !(t.len() > 0 && (t[0] == '@' || t[0] == '&' || t[0] == '+')) {
                title_ws.push(t.clone());
                assert(title_ws@.map_values(|w: Vec<char>| w@) =~= before.push(t@));
            }
            i = i + 1;
        }
        assert(cv.subrange(0, content.len() as int) =~= cv);
        if title_ws.len() == 0 {
            return Err(invalid_line("descriptive text is required"));
        }
        let space = vec![' '];
        assert(space@ =~= seq![' ']);
        let text = string_of(&join_with(&content, &space));
        let title = string_of(&join_with(&title_ws, &space));
        let visible = completed.is_none() && match deferred {
            Some(d) => d <= today,
            None => true,
        };
        let contexts = annotations(&content, '@');
        let people = annotations(&content, '&');
        let tags = annotations(&content, '+');
        let task = Task {
            line,
            raw: string_of(&rc),
            text,
            title,
            priority,
            created,
            completed,
            due,
            deferred_until: deferred,
            waiting,
            visible,
            contexts,
            people,
            tags,
        };
        Ok(task)
    }

    /// The line of the task as it stands in todo.txt, written from its parts
    /// with `priority` as the `p:` text it holds; `None` when one of its dates
    /// has no text.
    pub fn active_line(&self) -> (r: Option<String>)
        ensures
            r is Some <==> dates_have_text(
                opt_int(self.created),
                opt_int(self.due),
                opt_int(self.deferred_until),
            ),
            r matches Some(t) ==> t@ == task_line(
                opt_int(self.created),
                self.text@,
                opt_str(self.priority),
                opt_int(self.due),
                opt_int(self.deferred_until),
                self.waiting,
            ),
    {
        format_task_line(
            self.created,
            self.text.as_str(),
            match &self.priority {
                Some(p) => Some(p.as_str()),
                None => None,
            },
            self.due,
            self.deferred_until,
            self.waiting,
        )
    }
}

/// Every date given has a `YYYY-MM-DD` text.
pub open spec fn dates_have_text(created: Option<int>, due: Option<int>, deferred: Option<int>) -> bool {
    &&& created matches Some(d) ==> date_text(d) is Some
    &&& due matches Some(d) ==> date_text(d) is Some
    &&& deferred matches Some(d) ==> date_text(d) is Some
}

/// A task line from its parts: the creation date, the text trimmed, then
/// `p:`, `due:`, `t:` and `status:waiting` as given, joined by spaces.
pub open spec fn task_line(
    created: Option<int>,
    text: Seq<char>,
    priority: Option<Seq<char>>,
    due: Option<int>,
    deferred: Option<int>,
    waiting: bool,
) -> Seq<char> {
    let p0: Seq<Seq<char>> = match created {
        Some(d) => seq![date_text(d)->0],
        None => Seq::empty(),
    };
    let p1 = p0.push(trim(text));
    let p2 = match priority {
        Some(p) => p1.push("p:"@ + p),
        None => p1,
    };
    let p3 = match due {
        Some(d) => p2.push("due:"@ + date_text(d)->0),
        None => p2,
    };
    let p4 = match deferred {
        Some(d) => p3.push("t:"@ + date_text(d)->0),
        None => p3,
    };
    let p5 = if waiting {
        p4.push("status:waiting"@)
    } else {
        p4
    };
    join(p5, seq![' '])
}

fn dated(prefix: &str, d: i32) -> (r: Option<Vec<char>>)
    ensures
        r is Some <==> date_text(d as int) is Some,
        r matches Some(v) ==> v@ == prefix@ + date_text(d as int)->0,
{
    let mut r = chars_of(prefix);
    match format_date(d) {
        Some(t) => {
            append(&mut r, &chars_of(t.as_str()));
            Some(r)
        },
        None => None,
    }
}

/// Write a task line from its parts. `priority` is the decimal form of the
/// priority number. `None` when one of the dates has no text.
pub fn format_task_line(
    created: Option<i32>,
    text: &str,
    priority: Option<&str>,
    due: Option<i32>,
    deferred_until: Option<i32>,
    waiting: bool,
) -> (r: Option<String>)
    ensures
        r is Some <==> dates_have_text(opt_int(created), opt_int(due), opt_int(deferred_until)),
        r matches Some(t) ==> t@ == task_line(
            opt_int(created),
            text@,
            match priority {
                Some(p) => Some(p@),
                None => None,
            },
            opt_int(due),
            opt_int(deferred_until),
            waiting,
        ),
{
    let mut parts: Vec<Vec<char>> = Vec::new();
    match created {
        Some(d) => {
            parts.push(dated("", d)?);
            proof {
                reveal_strlit("");
            }
        },
        None => {},
    }
    parts.push(trimmed(&chars_of(text)));
    match priority {
        Some(p) => {
            let mut v = chars_of("p:");
            append(&mut v, &chars_of(p));
            parts.push(v);
        },
        None => {},
    }
    match due {
        Some(d) => parts.push(dated("due:", d)?),
        None => {},
    }
    match deferred_until {
        Some(d) => parts.push(dated("t:", d)?),
        None => {},
    }
    if waiting {
        parts.push(chars_of("status:waiting"));
    }
    let space = vec![' '];
    assert(space@ =~= seq![' ']);
    let ghost pv = parts@.map_values(|w: Vec<char>| w@);
    assert(pv =~= {
        let p0: Seq<Seq<char>> = match opt_int(created) {
            Some(d) => seq![date_text(d)->0],
            None => Seq::empty(),
        };
        let p1 = p0.push(trim(text@));
        let p2 = match priority {
            Some(p) => p1.push("p:"@ + p@),
            None => p1,
        };
        let p3 = match opt_int(due) {
            Some(d) => p2.push("due:"@ + date_text(d)->0),
            None => p2,
        };
        let p4 = match opt_int(deferred_until) {
            Some(d) => p3.push("t:"@ + date_text(d)->0),
            None => p3,
        };
        if waiting {
            p4.push("status:waiting"@)
        } else {
            p4
        }
    });
    Some(string_of(&join_with(&parts, &space)))
}

/// The todo file and the done file; no other task file exists.
pub open spec fn task_file(file: Seq<char>) -> bool {
    file == "_tasks/todo.txt"@ || file == "_tasks/done.txt"@
}

/// The check of a task file's text, each non-blank line in turn: it must
/// be a valid task, completed in done.txt and not completed in todo.txt.
pub open spec fn task_text_error(
    file: Seq<char>,
    ls: Seq<Seq<char>>,
    today: int,
    flags: Seq<Seq<bool>>,
    k: int,
) -> Option<Seq<char>>
    decreases ls.len() - k,
{
    if k < 0 || k >= ls.len() {
        None
    } else if trim(ls[k]).len() == 0 {
        task_text_error(file, ls, today, flags, k + 1)
    } else {
        match parsed_task(ls[k], k as usize, today, flags[k]) {
            Err(m) => Some(m),
            Ok(t) => if file == "_tasks/todo.txt"@ && t.completed is Some {
                Some("completed lines belong in done.txt"@)
            } else if file == "_tasks/done.txt"@ && t.completed is None {
                Some("done.txt lines must begin with x and a completion date"@)
            } else {
                task_text_error(file, ls, today, flags, k + 1)
            },
        }
    }
}

/// Check the text of a task file. `finite[i][j]` tells whether word `j` of
/// line `i` is `p:` followed by a finite number.
pub fn validate_task_text(file: &str, text: &str, today: i32, finite: &Vec<Vec<bool>>) -> (r: Result<
    (),
    TaskError,
>)
    requires
        finite@.len() == lines(text@).len(),
        forall|i: int|
            0 <= i < finite@.len() ==> (#[trigger] finite@[i])@.len() == words(lines(text@)[i]).len(),
    ensures
        !task_file(file@) ==> (r matches Err(TaskError::InvalidPath(f)) && f@ == file@),
        task_file(file@) ==> match task_text_error(
            file@,
            lines(text@),
            today as int,
            finite@.map_values(|f: Vec<bool>| f@),
            0,
        ) {
            None => r is Ok,
            Some(m) => (r matches Err(TaskError::InvalidLine(e)) && e@ == m),
        },
{
    let f = chars_of(file);
    let todo = eq(&f, &chars_of("_tasks/todo.txt"));
    let done = eq(&f, &chars_of("_tasks/done.txt"));
    if !todo && !done {
        return Err(TaskError::InvalidPath(string_of(&f)));
    }
    let ls = lines_of(&chars_of(text));
    let ghost lv = ls@.map_values(|l: Vec<char>| l@);
    let ghost fv = finite@.map_values(|f: Vec<bool>| f@);
    let mut i: usize = 0;
    while i < ls.len()
        invariant
            i <= ls.len(),
            lv == ls@.map_values(|l: Vec<char>| l@),
            lv == lines(text@),
            fv == finite@.map_values(|f: Vec<bool>| f@),
            finite@.len() == lv.len(),
            forall|j: int| 0 <= j < finite@.len() ==> (#[trigger] finite@[j])@.len() == words(lv[j]).len(),
            todo == (file@ == "_tasks/todo.txt"@),
            done == (file@ == "_tasks/done.txt"@),
            todo || done,
            task_text_error(file@, lv, today as int, fv, 0) == task_text_error(
                file@,
                lv,
                today as int,
                fv,
                i as int,
            ),
        decreases ls.len() - i,
    {
        let raw = &ls[i];
        if trimmed(raw).len() == 0 {
            i = i + 1;
            continue;
        }
        let rs = string_of(raw);
        assert(finite@[i as int]@.len() == words(rs@).len());
        let task = Task::parse(rs.as_str(), i, today, &finite[i]);
        assert(fv[i as int] == finite@[i as int]@);
        match task {
            Err(e) => {
                return Err(e);
            },
            Ok(t) => {
                if todo && t.completed.is_some() {
                    return Err(invalid_line("completed lines belong in done.txt"));
                }
                if done && t.completed.is_none() {
                    return Err(invalid_line("done.txt lines must begin with x and a completion date"));
                }
            },
        }
        i = i + 1;
    }
    Ok(())
}

/// The tasks of the lines from the `k`-th on that are not blank, in order,
/// each numbered by its line, or the error of the first one that does not read.
pub open spec fn tasks_from(ls: Seq<Seq<char>>, today: int, flags: Seq<Seq<bool>>, k: int) -> Result<
    Seq<TaskView>,
    Seq<char>,
>
    decreases ls.len() - k,
{
    if k < 0 || k >= ls.len() {
        Ok(Seq::empty())
    } else if trim(ls[k]).len() == 0 {
        tasks_from(ls, today, flags, k + 1)
    } else {
        match parsed_task(ls[k], k as usize, today, flags[k]) {
            Err(m) => Err(m),
            Ok(t) => match tasks_from(ls, today, flags, k + 1) {
                Ok(rest) => Ok(seq![t] + rest),
                Err(m) => Err(m),
            },
        }
    }
}

/// The tasks `first` followed by what `rest` holds, or the error of `rest`.
pub open spec fn tasks_after(first: Seq<TaskView>, rest: Result<Seq<TaskView>, Seq<char>>) -> Result<
    Seq<TaskView>,
    Seq<char>,
> {
    match rest {
        Ok(ts) => Ok(first + ts),
        Err(m) => Err(m),
    }
}

/// Read the tasks of a todo text: every line that is not blank, in order,
/// numbered by its line; the first line that does not read gives the error.
/// `finite[i][j]` tells whether word `j` of line `i` is `p:` followed by a
/// finite number.
pub fn read_tasks(text: &str, today: i32, finite: &Vec<Vec<bool>>) -> (r: Result<Vec<Task>, TaskError>)
    requires
        finite@.len() == lines(text@).len(),
        forall|i: int|
            0 <= i < finite@.len() ==> (#[trigger] finite@[i])@.len() == words(lines(text@)[i]).len(),
    ensures
        match tasks_from(lines(text@), today as int, finite@.map_values(|f: Vec<bool>| f@), 0) {
            Ok(ts) => r matches Ok(v) && v@.map_values(|t: Task| t@) == ts,
            Err(m) => r matches Err(TaskError::InvalidLine(e)) && e@ == m,
        },
{
    let ls = lines_of(&chars_of(text));
    let ghost lv = ls@.map_values(|l: Vec<char>| l@);
    let ghost fv = finite@.map_values(|f: Vec<bool>| f@);
    let mut tasks: Vec<Task> = Vec::new();
    let mut i: usize = 0;
    while i < ls.len()
        invariant
            i <= ls.len(),
            lv == ls@.map_values(|l: Vec<char>| l@),
            lv == lines(text@),
            fv == finite@.map_values(|f: Vec<bool>| f@),
            finite@.len() == lv.len(),
            forall|j: int| 0 <= j < finite@.len() ==> (#[trigger] finite@[j])@.len() == words(lv[j]).len(),
            tasks_from(lv, today as int, fv, 0) == tasks_after(
                tasks@.map_values(|t: Task| t@),
                tasks_from(lv, today as int, fv, i as int),
            ),
        decreases ls.len() - i,
    {
        let ghost before = tasks@.map_values(|t: Task| t@);
        let raw = &ls[i];
        if trimmed(raw).len() == 0 {
            i = i + 1;
            continue;
        }
        let rs = string_of(raw);
        assert(finite@[i as int]@.len() == words(rs@).len());
        let task = Task::parse(rs.as_str(), i, today, &finite[i]);
        assert(fv[i as int] == finite@[i as int]@);
        match task {
            Err(e) => {
                return Err(e);
            },
            Ok(t) => {
                let ghost tv = t@;
                tasks.push(t);
                proof {
                    assert(tasks@.map_values(|t: Task| t@) =~= before.push(tv));
                    match tasks_from(lv, today as int, fv, i + 1) {
                        Ok(rest) => {
                            assert(before + (seq![tv] + rest) =~= before.push(tv) + rest);
                        },
                        Err(_) => {},
                    }
                }
            },
        }
        i = i + 1;
    }
    proof {
        assert(tasks@.map_values(|t: Task| t@) + Seq::<TaskView>::empty() =~= tasks@.map_values(|t: Task| t@));
    }
    Ok(tasks)
}

/// The todo text with a new task line appended (after a line feed when the
/// text does not end with one), and the index of that line.
pub open spec fn appended_task(current: Seq<char>, line: Seq<char>) -> Seq<char> {
    let base = if current.len() > 0 && current.last() != '\n' {
        current.push('\n')
    } else {
        current
    };
    base + line + seq!['\n']
}

/// Append a task line to the todo text; returns the new text and the index
/// of the new line.
pub fn append_task_line(current: &str, line: &str) -> (r: (String, usize))
    ensures
        r.0@ == appended_task(current@, line@),
        r.1 == lines(
            if current@.len() > 0 && current@.last() != '\n' {
                current@.push('\n')
            } else {
                current@
            },
        ).len(),
{
    let mut t = chars_of(current);
    if t.len() > 0 && t[t.len() - 1] != '\n' {
        t.push('\n');
    }
    let index = lines_of(&t).len();
    append(&mut t, &chars_of(line));
    t.push('\n');
    (string_of(&t), index)
}

/// The lines of a text split at line feeds (`str::split('\n')`) with line
/// `index` replaced, when it is the line expected; else a conflict.
pub fn replace_task_line(current: &str, index: usize, expected: &str, replacement: &str) -> (r: Result<
    String,
    TaskError,
>)
    ensures
        ({
            let ls = split_on(current@, '\n');
            if index < ls.len() && ls[index as int] == expected@ {
                r matches Ok(t) && t@ == join(ls.update(index as int, replacement@), seq!['\n'])
            } else {
                r matches Err(TaskError::Conflict)
            }
        }),
{
    let mut ls = split_char(&chars_of(current), '\n');
    if index >= ls.len() || !eq(&ls[index], &chars_of(expected)) {
        return Err(TaskError::Conflict);
    }
    let ghost before = ls@.map_values(|l: Vec<char>| l@);
    let rc = chars_of(replacement);
    ls.set(index, rc);
    assert(ls@.map_values(|l: Vec<char>| l@) =~= before.update(index as int, replacement@));
    let sep = vec!['\n'];
    assert(sep@ =~= seq!['\n']);
    Ok(string_of(&join_with(&ls, &sep)))
}

/// Completing a task: its line leaves the todo text and a line `x`, the
/// completion date and the task's own line joins the done text.
pub open spec fn completed_texts(
    todo: Seq<char>,
    done: Seq<char>,
    index: int,
    completed: int,
    active: Seq<char>,
) -> (Seq<char>, Seq<char>) {
    let ls = split_on(todo, '\n');
    (
        join(ls.remove(index), seq!['\n']),
        appended_task(done, "x "@ + date_text(completed)->0 + seq![' '] + active),
    )
}

/// The todo and done texts after completing the task on line `index`,
/// which must still be the line expected; `None` when a date of the task or
/// the completion date has no text.
pub fn complete_task_texts(
    todo: &str,
    done: &str,
    index: usize,
    expected: &str,
    completed: i32,
    task: &Task,
) -> (r: Result<Option<(String, String)>, TaskError>)
    ensures
        ({
            let ls = split_on(todo@, '\n');
            if index < ls.len() && ls[index as int] == expected@ {
                if date_text(completed as int) is Some && dates_have_text(
                    opt_int(task.created),
                    opt_int(task.due),
                    opt_int(task.deferred_until),
                ) {
                    r matches Ok(Some((t, d))) && (t@, d@) == completed_texts(
                        todo@,
                        done@,
                        index as int,
                        completed as int,
                        task_line(
                            opt_int(task.created),
                            task.text@,
                            opt_str(task.priority),
                            opt_int(task.due),
                            opt_int(task.deferred_until),
                            task.waiting,
                        ),
                    )
                } else {
                    r matches Ok(None)
                }
            } else {
                r matches Err(TaskError::Conflict)
            }
        }),
{
    let mut ls = split_char(&chars_of(todo), '\n');
    if index >= ls.len() || !eq(&ls[index], &chars_of(expected)) {
        return Err(TaskError::Conflict);
    }
    let mut entry = match dated("x ", completed) {
        Some(e) => e,
        None => {
            return Ok(None);
        },
    };
    let active = match task.active_line() {
        Some(a) => a,
        None => {
            return Ok(None);
        },
    };
    let ghost before = ls@.map_values(|l: Vec<char>| l@);
    ls.remove(index);
    assert(ls@.map_values(|l: Vec<char>| l@) =~= before.remove(index as int));
    let sep = vec!['\n'];
    assert(sep@ =~= seq!['\n']);
    let todo_text = string_of(&join_with(&ls, &sep));
    entry.push(' ');
    append(&mut entry, &chars_of(active.as_str()));
    let (done_text, _) = append_task_line(done, string_of(&entry).as_str());
    proof {
        reveal_strlit("x ");
    }
    Ok(Some((todo_text, done_text)))
}

/// A task's input text must be one line that is not blank, and its priority,
/// where given, a finite number (`priority_is_finite` says whether it is).
pub fn check_task_input(text: &str, priority_is_finite: bool) -> (r: Result<(), TaskError>)
    ensures
        r is Ok <==> (trim(text@).len() > 0 && !text@.contains('\n') && !text@.contains('\r')
            && priority_is_finite),
        !(trim(text@).len() > 0 && !text@.contains('\n') && !text@.contains('\r')) ==> (r matches Err(
            TaskError::InvalidLine(m),
        ) && m@ == "text must be one non-empty line"@),
        (trim(text@).len() > 0 && !text@.contains('\n') && !text@.contains('\r')) && !priority_is_finite
            ==> (r matches Err(TaskError::InvalidLine(m)) && m@ == "priority must be a finite number"@),
{
    let t = chars_of(text);
    let mut breaks = false;
    let mut i: usize = 0;
    while i < t.len()
        invariant
            i <= t.len(),
            t@ == text@,
            breaks <==> exists|j: int| 0 <= j < i && (t@[j] == '\n' || t@[j] == '\r'),
        decreases t.len() - i,
    {
        if t[i] == '\n' || t[i] == '\r' {
            breaks = true;
        }
        i = i + 1;
    }
    proof {
        if breaks {
            let j = choose|j: int| 0 <= j < i && (t@[j] == '\n' || t@[j] == '\r');
            assert(text@.contains('\n') || text@.contains('\r')) by {
                assert(text@[j] == t@[j]);
            }
        } else {
            assert(!text@.contains('\n')) by {
                if text@.contains('\n') {
                    let j = choose|j: int| 0 <= j < text@.len() && text@[j] == '\n';
                    assert(t@[j] == '\n');
                }
            }
            assert(!text@.contains('\r')) by {
                if text@.contains('\r') {
                    let j = choose|j: int| 0 <= j < text@.len() && text@[j] == '\r';
                    assert(t@[j] == '\r');
                }
            }
        }
    }
    if trimmed(&t).len() == 0 || breaks {
        return Err(invalid_line("text must be one non-empty line"));
    }
    if !priority_is_finite {
        return Err(invalid_line("priority must be a finite number"));
    }
    Ok(())
}


/// A future `t:` date hides a task until that day and no longer: reading the
/// same line on a later day accepts it just the same, keeps everything it
/// says, and a task visible before stays visible.
pub proof fn lemma_task_deferral_monotonic(raw: Seq<char>, line: usize, flags: Seq<bool>, day: int, later: int)
    requires
        day <= later,
    ensures
        parsed_task(raw, line, day, flags) is Ok <==> parsed_task(raw, line, later, flags) is Ok,
        parsed_task(raw, line, day, flags) matches Ok(a) ==> parsed_task(raw, line, later, flags)
            matches Ok(b) && b.raw == a.raw && b.text == a.text && b.deferred_until
            == a.deferred_until && b.completed == a.completed && (a.visible ==> b.visible),
        match parsed_task(raw, line, day, flags) {
            Ok(a) => match a.deferred_until {
                Some(d) => a.completed is None && day < d <= later ==> !a.visible && (parsed_task(
                    raw,
                    line,
                    later,
                    flags,
                ) matches Ok(b) && b.visible),
                None => true,
            },
            Err(_) => true,
        },
{
}

// ---------------------------------------------------------------------------
// Task order
// ---------------------------------------------------------------------------

/// A task with its priority rank: the position of its `p:` number among the
/// distinct numbers of the list, from the lowest.
pub type RankedTask = (TaskView, u64);

/// `a` sorts before `b`: tasks with a `p:` come before those without; among
/// those with one, the higher rank first; then the earlier line.
pub open spec fn task_before(a: RankedTask, b: RankedTask) -> bool {
    match (a.0.priority, b.0.priority) {
        (Some(_), None) => true,
        (None, Some(_)) => false,
        (Some(_), Some(_)) => a.1 > b.1 || (a.1 == b.1 && a.0.line < b.0.line),
        (None, None) => a.0.line < b.0.line,
    }
}

pub open spec fn task_order() -> spec_fn(RankedTask, RankedTask) -> bool {
    |a: RankedTask, b: RankedTask| task_before(a, b)
}

/// Each task paired with its rank.
pub open spec fn ranked_tasks(ts: Seq<TaskView>, rs: Seq<u64>) -> Seq<RankedTask> {
    Seq::new(ts.len(), |i: int| (ts[i], rs[i]))
}

/// The tasks in the order a list shows them.
pub open spec fn ordered_tasks(ts: Seq<TaskView>, rs: Seq<u64>) -> Seq<RankedTask> {
    sort_by(ranked_tasks(ts, rs), task_order())
}

pub open spec fn task_views(ts: Seq<Task>) -> Seq<TaskView> {
    ts.map_values(|t: Task| t@)
}

proof fn lemma_task_order_strict()
    ensures
        strict_order(task_order()),
{
    assert forall|a: RankedTask, b: RankedTask, c: RankedTask|
        #[trigger] task_order()(a, b) && #[trigger] task_order()(b, c) implies task_order()(a, c) by {
    }
}

fn is_task_before(a: &Task, ra: u64, b: &Task, rb: u64) -> (r: bool)
    ensures
        r == task_before((a@, ra), (b@, rb)),
{
    match (&a.priority, &b.priority) {
        (Some(_), None) => true,
        (None, Some(_)) => false,
        (Some(_), Some(_)) => ra > rb || (ra == rb && a.line < b.line),
        (None, None) => a.line < b.line,
    }
}

/// Order tasks for a list: those with a `p:` first, the higher priority
/// rank first (`ranks[i]` is the rank of `tasks[i]`), then by line; tasks
/// without a `p:` last, by line. Every task is kept, and no task comes
/// after one it sorts before.
pub fn order_tasks(tasks: Vec<Task>, ranks: &Vec<u64>) -> (r: Vec<Task>)
    requires
        ranks@.len() == tasks@.len(),
    ensures
        task_views(r@) == ordered_tasks(task_views(tasks@), ranks@).map_values(|p: RankedTask| p.0),
        task_views(r@).to_multiset() == task_views(tasks@).to_multiset(),
        sorted_by(ordered_tasks(task_views(tasks@), ranks@), task_order()),
{
    let ghost orig = ranked_tasks(task_views(tasks@), ranks@);
    let n = tasks.len();
    let mut rest = tasks;
    let mut out: Vec<Task> = Vec::new();
    let mut out_ranks: Vec<u64> = Vec::new();
    let mut i: usize = 0;
    while rest.len() > 0
        invariant
            i + rest@.len() == n,
            n == ranks@.len(),
            orig.len() == n,
            forall|j: int| 0 <= j < rest@.len() ==> (#[trigger] rest@[j])@ == orig[i + j].0,
            forall|j: int| 0 <= j < n ==> (#[trigger] orig[j]).1 == ranks@[j],
            out@.len() == out_ranks@.len(),
            Seq::new(out@.len(), |j: int| (out@[j]@, out_ranks@[j])) == sort_by(orig.take(i as int), task_order()),
        decreases rest@.len(),
    {
        let ghost s = Seq::new(out@.len(), |j: int| (out@[j]@, out_ranks@[j]));
        let ghost x = orig[i as int];
        assert(rest@[0]@ == x.0);
        let t = rest.remove(0);
        let rank = ranks[i];
        let mut k: usize = 0;
        while k < out.len() && !is_task_before(&t, rank, &out[k], out_ranks[k])
            invariant
                k <= out@.len(),
                out@.len() == out_ranks@.len(),
                s == Seq::new(out@.len(), |j: int| (out@[j]@, out_ranks@[j])),
                x == (t@, rank),
                forall|j: int| 0 <= j < k ==> !task_before(x, #[trigger] s[j]),
            decreases out@.len() - k,
        {
            assert(s[k as int] == (out@[k as int]@, out_ranks@[k as int]));
            k = k + 1;
        }
        proof {
            if k < out@.len() {
                assert(s[k as int] == (out@[k as int]@, out_ranks@[k as int]));
            }
            lemma_insert_by_at(s, x, task_order(), k as int);
        }
        out.insert(k, t);
        out_ranks.insert(k, rank);
        assert(Seq::new(out@.len(), |j: int| (out@[j]@, out_ranks@[j])) =~= s.take(k as int).push(x) + s.skip(
            k as int,
        ));
        assert(orig.take(i + 1).drop_last() =~= orig.take(i as int));
        assert(orig.take(i + 1).last() == x);
        proof {
            assert forall|j: int| 0 <= j < rest@.len() implies (#[trigger] rest@[j])@ == orig[i + 1 + j].0 by {
            }
        }
        i = i + 1;
    }
    assert(orig.take(n as int) =~= orig);
    proof {
        let p = sort_by(orig, task_order());
        assert(task_views(out@) =~= p.map_values(|q: RankedTask| q.0));
        lemma_sort_by_keeps(orig, task_order(), |q: RankedTask| q.0);
        assert(orig.map_values(|q: RankedTask| q.0) =~= task_views(tasks@));
        lemma_task_order_strict();
        lemma_sort_by_sorted(orig, task_order());
    }
    out
}


/// The annotations of words written one after another are the annotations
/// of the first words followed by those of the rest: every annotation is
/// kept, in order.
pub proof fn lemma_annotations_concat(a: Seq<Seq<char>>, b: Seq<Seq<char>>, prefix: char)
    ensures
        annotations_of(a + b, prefix) == annotations_of(a, prefix) + annotations_of(b, prefix),
    decreases b.len(),
{
    if b.len() == 0 {
        assert(a + b =~= a);
        assert(annotations_of(a, prefix) + annotations_of(b, prefix) =~= annotations_of(a, prefix));
    } else {
        lemma_annotations_concat(a, b.drop_last(), prefix);
        assert((a + b).drop_last() =~= a + b.drop_last());
        assert((a + b).last() == b.last());
        let x = annotations_of(a, prefix);
        let y = annotations_of(b.drop_last(), prefix);
        let t = b.last();
        if t.len() > 1 && t[0] == prefix {
            assert(x + y.push(t.drop_first()) =~= (x + y).push(t.drop_first()));
        }
    }
}

/// One word is an annotation with the prefix exactly when it starts with
/// the prefix and has more after it; its annotation is the rest.
pub proof fn lemma_annotations_single(w: Seq<char>, prefix: char)
    ensures
        annotations_of(seq![w], prefix) == if w.len() > 1 && w[0] == prefix {
            seq![w.drop_first()]
        } else {
            Seq::<Seq<char>>::empty()
        },
{
    assert(seq![w].drop_last() =~= Seq::<Seq<char>>::empty());
    assert(annotations_of(Seq::<Seq<char>>::empty(), prefix) =~= Seq::<Seq<char>>::empty());
    assert(seq![w].last() == w);
    if w.len() > 1 && w[0] == prefix {
        assert(Seq::<Seq<char>>::empty().push(w.drop_first()) =~= seq![w.drop_first()]);
    }
}

/// Every word that starts with the prefix and has more after it appears,
/// without the prefix, among the annotations.
pub proof fn lemma_annotations_complete(ts: Seq<Seq<char>>, prefix: char)
    ensures
        forall|i: int|
            0 <= i < ts.len() && (#[trigger] ts[i]).len() > 1 && ts[i][0] == prefix ==> annotations_of(
                ts,
                prefix,
            ).contains(ts[i].drop_first()),
{
    assert forall|i: int| 0 <= i < ts.len() && (#[trigger] ts[i]).len() > 1 && ts[i][0] == prefix implies annotations_of(
        ts,
        prefix,
    ).contains(ts[i].drop_first()) by {
        let a = ts.take(i);
        let b = ts.skip(i);
        assert(ts =~= a + b);
        lemma_annotations_concat(a, b, prefix);
        let c = seq![ts[i]];
        let d = ts.skip(i + 1);
        assert(b =~= c + d);
        lemma_annotations_concat(c, d, prefix);
        lemma_annotations_single(ts[i], prefix);
        let all = annotations_of(ts, prefix);
        let k = annotations_of(a, prefix).len() as int;
        assert(all[k] == ts[i].drop_first());
    }
}

} // verus!
