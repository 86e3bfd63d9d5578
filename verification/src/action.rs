//! Checklist actions: the `- [ ]` items of a project body, their contexts
//! (`@phone`), people (`&alex`) and which of them are available to work on.

use vstd::prelude::*;

use crate::text::{char_is_whitespace, chars_of, eq, is_white_space, lines, lines_of, slice,
    string_of, trim, trim_start, trimmed, trimmed_start,
};
use crate::routine::ascii_lowered;
use crate::tokens::{is_ascii_text, normalize_token, normalized_token, prefixed_tokens, token_body, tokens_of};

verus! {

/// How the incomplete checklist items of a branch become available.
#[derive(Debug, Clone, Copy, PartialEq, Eq, Structural)]
pub enum ActionMode {
    /// Only the first incomplete branch is available.
    Serial,
    /// Every incomplete branch is available.
    Parallel,
}

impl Default for ActionMode {
    fn default() -> (r: Self)
        ensures
            r == ActionMode::Parallel,
    {
        ActionMode::Parallel
    }
}

/// The mode a field value names, after trimming.
pub open spec fn mode_named(value: Seq<char>) -> Option<ActionMode> {
    let t = trim(value);
    if t == "serial"@ || t == "sequential"@ {
        Some(ActionMode::Serial)
    } else if t == "parallel"@ || t == "single"@ || t == "single-actions"@ {
        Some(ActionMode::Parallel)
    } else {
        None
    }
}

impl ActionMode {
    pub fn parse(value: &str) -> (r: Option<Self>)
        ensures
            r == mode_named(value@),
    {
        let t = trimmed(&chars_of(value));
        if eq(&t, &chars_of("serial")) || eq(&t, &chars_of("sequential")) {
            Some(ActionMode::Serial)
        } else if eq(&t, &chars_of("parallel")) || eq(&t, &chars_of("single")) || eq(
            &t,
            &chars_of("single-actions"),
        ) {
            Some(ActionMode::Parallel)
        } else {
            None
        }
    }

    /// The mode a frontmatter field asks for; parallel when it is absent or unknown.
    pub fn from_field(value: Option<&str>) -> (r: Self)
        ensures
            r == match value {
                Some(v) => match mode_named(v@) {
                    Some(m) => m,
                    None => ActionMode::Parallel,
                },
                None => ActionMode::Parallel,
            },
    {
        match value {
            Some(v) => match Self::parse(v) {
                Some(m) => m,
                None => ActionMode::default(),
            },
            None => ActionMode::default(),
        }
    }

    pub fn as_str(self) -> (r: &'static str)
        ensures
            self == ActionMode::Serial ==> r == "serial",
            self == ActionMode::Parallel ==> r == "parallel",
    {
        match self {
            ActionMode::Serial => "serial",
            ActionMode::Parallel => "parallel",
        }
    }
}

/// Where an action comes from.
#[derive(Debug, Clone, Copy, PartialEq, Eq, Structural)]
pub enum ActionSource {
    /// The legacy `my_next` frontmatter field.
    MyNext,
    /// A checkbox item in the body.
    Checklist,
}

/// One action of a project.
#[derive(Debug, Clone, PartialEq, Eq)]
pub struct Action {
    pub text: String,
    pub contexts: Vec<String>,
    pub people: Vec<String>,
    pub completed: bool,
    pub available: bool,
    pub source: ActionSource,
    /// Zero-based line index within the Markdown body. `my_next` has no body line.
    pub line: Option<usize>,
}

pub struct ActionView {
    pub text: Seq<char>,
    pub contexts: Seq<Seq<char>>,
    pub people: Seq<Seq<char>>,
    pub completed: bool,
    pub available: bool,
    pub source: ActionSource,
    pub line: Option<usize>,
}

pub open spec fn strings_view(v: Seq<String>) -> Seq<Seq<char>> {
    v.map_values(|s: String| s@)
}

impl View for Action {
    type V = ActionView;

    open spec fn view(&self) -> ActionView {
        ActionView {
            text: self.text@,
            contexts: strings_view(self.contexts@),
            people: strings_view(self.people@),
            completed: self.completed,
            available: self.available,
            source: self.source,
            line: self.line,
        }
    }
}

pub open spec fn is_mode_word(t: Seq<char>) -> bool {
    t == "serial"@ || t == "parallel"@
}

/// Tokens with the mode words left out.
pub open spec fn without_mode_words(ts: Seq<Seq<char>>) -> Seq<Seq<char>>
    decreases ts.len(),
{
    if ts.len() == 0 {
        ts
    } else if is_mode_word(ts.last()) {
        without_mode_words(ts.drop_last())
    } else {
        without_mode_words(ts.drop_last()).push(ts.last())
    }
}

/// The `@` contexts of a text; `@serial` and `@parallel` are structural markers, not contexts.
pub open spec fn contexts_of(text: Seq<char>) -> Seq<Seq<char>> {
    without_mode_words(tokens_of(text, '@'))
}

/// The `&` people of a text.
pub open spec fn people_of(text: Seq<char>) -> Seq<Seq<char>> {
    tokens_of(text, '&')
}

pub open spec fn mode_word(t: Seq<char>) -> Option<ActionMode> {
    if t == "serial"@ {
        Some(ActionMode::Serial)
    } else if t == "parallel"@ {
        Some(ActionMode::Parallel)
    } else {
        None
    }
}

/// The last mode word among the tokens.
pub open spec fn last_mode(ts: Seq<Seq<char>>) -> Option<ActionMode>
    decreases ts.len(),
{
    if ts.len() == 0 {
        None
    } else {
        match mode_word(ts.last()) {
            Some(m) => Some(m),
            None => last_mode(ts.drop_last()),
        }
    }
}

/// The branch mode a text sets: the last `!serial`/`!parallel`, else the last
/// legacy `@serial`/`@parallel`.
pub open spec fn directive_mode(text: Seq<char>) -> Option<ActionMode> {
    match last_mode(tokens_of(text, '!')) {
        Some(m) => Some(m),
        None => last_mode(tokens_of(text, '@')),
    }
}

pub open spec fn action_view(
    text: Seq<char>,
    completed: bool,
    available: bool,
    source: ActionSource,
    line: Option<usize>,
) -> ActionView {
    ActionView {
        text,
        contexts: contexts_of(text),
        people: people_of(text),
        completed,
        available,
        source,
        line,
    }
}

impl Action {
    pub fn has_context(&self, context: &str) -> (r: bool)
        ensures
            r == match normalized_token(context@, '@') {
                Some(c) => self@.contexts.contains(c),
                None => false,
            },
            is_ascii_text(token_body(context@, '@')) && normalized_token(context@, '@') is Some ==> r
                == self@.contexts.contains(ascii_lowered(token_body(context@, '@'))),
    {
        match normalize_token(&chars_of(context), '@') {
            Some(c) => contains_string(&self.contexts, &c),
            None => false,
        }
    }

    pub fn has_person(&self, person: &str) -> (r: bool)
        ensures
            r == match normalized_token(person@, '&') {
                Some(p) => self@.people.contains(p),
                None => false,
            },
            is_ascii_text(token_body(person@, '&')) && normalized_token(person@, '&') is Some ==> r
                == self@.people.contains(ascii_lowered(token_body(person@, '&'))),
    {
        match normalize_token(&chars_of(person), '&') {
            Some(p) => contains_string(&self.people, &p),
            None => false,
        }
    }
}

fn contains_string(list: &Vec<String>, t: &Vec<char>) -> (r: bool)
    ensures
        r == strings_view(list@).contains(t@),
{
    let ghost lv = strings_view(list@);
    let mut i: usize = 0;
    while i < list.len()
        invariant
            i <= list.len(),
            lv == strings_view(list@),
            forall|j: int| 0 <= j < i ==> lv[j] != t@,
        decreases list.len() - i,
    {
        if eq(&chars_of(list[i].as_str()), t) {
            assert(lv[i as int] == t@);
            return true;
        }
        i = i + 1;
    }
    false
}

/// A context query normalized: `Phone` and `@PHONE` both become `phone`.
pub fn normalize_context(context: &str) -> (r: Option<String>)
    ensures
        match r {
            Some(c) => normalized_token(context@, '@') == Some(c@),
            None => normalized_token(context@, '@') is None,
        },
        is_ascii_text(token_body(context@, '@')) ==> (r matches Some(c) ==> c@ == ascii_lowered(
            token_body(context@, '@'),
        )),
{
    match normalize_token(&chars_of(context), '@') {
        Some(c) => Some(string_of(&c)),
        None => None,
    }
}

/// A person query normalized: `Alex` and `&ALEX` both become `alex`.
pub fn normalize_person(person: &str) -> (r: Option<String>)
    ensures
        match r {
            Some(p) => normalized_token(person@, '&') == Some(p@),
            None => normalized_token(person@, '&') is None,
        },
        is_ascii_text(token_body(person@, '&')) ==> (r matches Some(p) ==> p@ == ascii_lowered(
            token_body(person@, '&'),
        )),
{
    match normalize_token(&chars_of(person), '&') {
        Some(p) => Some(string_of(&p)),
        None => None,
    }
}

/// Compatibility alias for callers that used the original all-purpose tag API.
pub fn normalize_tag(tag: &str) -> (r: Option<String>)
    ensures
        match r {
            Some(c) => normalized_token(tag@, '@') == Some(c@),
            None => normalized_token(tag@, '@') is None,
        },
{
    normalize_context(tag)
}

fn is_mode_word_exec(t: &Vec<char>) -> (r: bool)
    ensures
        r == is_mode_word(t@),
{
    eq(t, &chars_of("serial")) || eq(t, &chars_of("parallel"))
}

fn contexts_in(text: &Vec<char>) -> (r: Vec<Vec<char>>)
    ensures
        r@.map_values(|w: Vec<char>| w@) == contexts_of(text@),
{
    let ts = prefixed_tokens(text, '@');
    let ghost tv = ts@.map_values(|w: Vec<char>| w@);
    let mut r: Vec<Vec<char>> = Vec::new();
    let mut i: usize = 0;
    while i < ts.len()
        invariant
            i <= ts.len(),
            tv == ts@.map_values(|w: Vec<char>| w@),
            r@.map_values(|w: Vec<char>| w@) == without_mode_words(tv.subrange(0, i as int)),
        decreases ts.len() - i,
    {
        let ghost before = r@.map_values(|w: Vec<char>| w@);
        proof {
            assert(tv.subrange(0, i + 1).drop_last() =~= tv.subrange(0, i as int));
            assert(tv.subrange(0, i + 1).last() == tv[i as int]);
        }
        if !is_mode_word_exec(&ts[i]) {
            r.push(ts[i].clone());
            assert(r@.map_values(|w: Vec<char>| w@) =~= before.push(tv[i as int]));
        }
        i = i + 1;
    }
    assert(tv.subrange(0, ts.len() as int) =~= tv);
    r
}

fn people_in(text: &Vec<char>) -> (r: Vec<Vec<char>>)
    ensures
        r@.map_values(|w: Vec<char>| w@) == people_of(text@),
{
    prefixed_tokens(text, '&')
}

fn last_mode_exec(ts: &Vec<Vec<char>>) -> (r: Option<ActionMode>)
    ensures
        r == last_mode(ts@.map_values(|w: Vec<char>| w@)),
{
    let ghost tv = ts@.map_values(|w: Vec<char>| w@);
    let mut i = ts.len();
    assert(tv.subrange(0, ts.len() as int) =~= tv);
    while i > 0
        invariant
            i <= ts.len(),
            tv == ts@.map_values(|w: Vec<char>| w@),
            last_mode(tv) == last_mode(tv.subrange(0, i as int)),
        decreases i,
    {
        proof {
            assert(tv.subrange(0, i as int).drop_last() =~= tv.subrange(0, i - 1));
            assert(tv.subrange(0, i as int).last() == tv[i - 1]);
        }
        if eq(&ts[i - 1], &chars_of("serial")) {
            return Some(ActionMode::Serial);
        }
        if eq(&ts[i - 1], &chars_of("parallel")) {
            return Some(ActionMode::Parallel);
        }
        i = i - 1;
    }
    assert(tv.subrange(0, 0) =~= Seq::<Seq<char>>::empty());
    None
}

fn mode_directive(text: &Vec<char>) -> (r: Option<ActionMode>)
    ensures
        r == directive_mode(text@),
{
    match last_mode_exec(&prefixed_tokens(text, '!')) {
        Some(m) => Some(m),
        None => last_mode_exec(&prefixed_tokens(text, '@')),
    }
}

fn strings_of(v: &Vec<Vec<char>>) -> (r: Vec<String>)
    ensures
        strings_view(r@) == v@.map_values(|w: Vec<char>| w@),
{
    let mut r: Vec<String> = Vec::new();
    let mut i: usize = 0;
    while i < v.len()
        invariant
            i <= v.len(),
            strings_view(r@) == v@.map_values(|w: Vec<char>| w@).subrange(0, i as int),
        decreases v.len() - i,
    {
        let ghost before = r@;
        let s = string_of(&v[i]);
        r.push(s);
        assert(r@ == before.push(s));
        assert(strings_view(r@) =~= strings_view(before).push(s@));
        assert(strings_view(r@) =~= v@.map_values(|w: Vec<char>| w@).subrange(0, i + 1));
        i = i + 1;
    }
    assert(v@.map_values(|w: Vec<char>| w@).subrange(0, v.len() as int) =~= v@.map_values(
        |w: Vec<char>| w@,
    ));
    r
}

fn make_action(
    text: &Vec<char>,
    completed: bool,
    available: bool,
    source: ActionSource,
    line: Option<usize>,
) -> (r: Action)
    ensures
        r@ == action_view(text@, completed, available, source, line),
{
    Action {
        text: string_of(text),
        contexts: strings_of(&contexts_in(text)),
        people: strings_of(&people_in(text)),
        completed,
        available,
        source,
        line,
    }
}

// ---------------------------------------------------------------------------
// List items
// ---------------------------------------------------------------------------

/// A bulleted list item of a body: its indentation, its checkbox (text and
/// whether it is checked) when it has one, the branch mode it sets and its line.
pub struct ItemSpec {
    pub indent: int,
    pub action: Option<(Seq<char>, bool)>,
    pub mode: Option<ActionMode>,
    pub line: int,
}

/// The width of the leading whitespace; a tab counts four columns.
pub open spec fn indent_width(s: Seq<char>) -> int
    decreases s.len(),
{
    if s.len() > 0 && is_white_space(s[0]) {
        (if s[0] == '\t' {
            4int
        } else {
            1int
        }) + indent_width(s.drop_first())
    } else {
        0
    }
}

/// The number of UTF-8 bytes of a character.
pub open spec fn utf8_width(c: char) -> int {
    if (c as u32) < 0x80 {
        1
    } else if (c as u32) < 0x800 {
        2
    } else if (c as u32) < 0x10000 {
        3
    } else {
        4
    }
}

/// The first three bytes of the UTF-8 encoding end on a character boundary.
pub open spec fn three_byte_prefix(s: Seq<char>) -> bool {
    (s.len() >= 1 && utf8_width(s[0]) == 3) || (s.len() >= 2 && utf8_width(s[0]) == 1
        && utf8_width(s[1]) == 2) || (s.len() >= 2 && utf8_width(s[0]) == 2 && utf8_width(s[1])
        == 1) || (s.len() >= 3 && utf8_width(s[0]) == 1 && utf8_width(s[1]) == 1 && utf8_width(
        s[2],
    ) == 1)
}

/// `[ ]` gives unchecked, `[x]` or `[X]` gives checked.
pub open spec fn checkbox_state(s: Seq<char>) -> Option<bool> {
    if s.len() >= 3 && s[0] == '[' && s[2] == ']' {
        if s[1] == ' ' {
            Some(false)
        } else if s[1] == 'x' || s[1] == 'X' {
            Some(true)
        } else {
            None
        }
    } else {
        None
    }
}

pub open spec fn is_bullet(c: char) -> bool {
    c == '-' || c == '*' || c == '+'
}

/// The list item a line holds, if it is one: a bullet, whitespace and some
/// content; content that starts with a checkbox, whitespace and text is an
/// action; content that starts with another bracket pattern is not an item.
pub open spec fn line_item(line: Seq<char>, index: int) -> Option<ItemSpec> {
    let indent = indent_width(line);
    let t = trim_start(line);
    if t.len() == 0 || !is_bullet(t[0]) {
        None
    } else {
        let after = t.drop_first();
        if after.len() == 0 || !is_white_space(after[0]) {
            None
        } else {
            let content = trim_start(after);
            if content.len() == 0 {
                None
            } else if !three_byte_prefix(content) {
                Some(
                    ItemSpec {
                        indent,
                        action: None,
                        mode: directive_mode(content),
                        line: index,
                    },
                )
            } else {
                match checkbox_state(content) {
                    Some(checked) => {
                        let after_marker = content.subrange(3, content.len() as int);
                        if after_marker.len() == 0 || !is_white_space(after_marker[0]) {
                            None
                        } else {
                            let text = trim_start(after_marker);
                            if text.len() == 0 {
                                None
                            } else {
                                Some(
                                    ItemSpec {
                                        indent,
                                        action: Some((text, checked)),
                                        mode: directive_mode(text),
                                        line: index,
                                    },
                                )
                            }
                        }
                    },
                    None => if content[0] == '[' {
                        None
                    } else {
                        Some(
                            ItemSpec {
                                indent,
                                action: None,
                                mode: directive_mode(content),
                                line: index,
                            },
                        )
                    },
                }
            }
        }
    }
}

/// The number of leading characters equal to `c`.
pub open spec fn run_of(s: Seq<char>, c: char) -> int
    decreases s.len(),
{
    if s.len() > 0 && s[0] == c {
        1 + run_of(s.drop_first(), c)
    } else {
        0
    }
}

/// A code fence line: three or more backticks or tildes after the indentation;
/// gives the fence character, the run length and what follows the run.
pub open spec fn fence_marker(line: Seq<char>) -> Option<(char, int, Seq<char>)> {
    let t = trim_start(line);
    if t.len() > 0 && (t[0] == '`' || t[0] == '~') && run_of(t, t[0]) >= 3 {
        Some((t[0], run_of(t, t[0]), t.subrange(run_of(t, t[0]), t.len() as int)))
    } else {
        None
    }
}

/// A line that closes a fence opened with `open_len` characters `marker`.
pub open spec fn closes_fence(line: Seq<char>, marker: char, open_len: int) -> bool {
    match fence_marker(line) {
        Some((c, n, rest)) => c == marker && n >= open_len && trim(rest).len() == 0,
        None => false,
    }
}

/// The open fence after the first `n` lines, if any.
pub open spec fn fence_after(ls: Seq<Seq<char>>, n: int) -> Option<(char, int)>
    decreases n,
{
    if n <= 0 {
        None
    } else {
        match fence_after(ls, n - 1) {
            Some((m, k)) => if closes_fence(ls[n - 1], m, k) {
                None
            } else {
                Some((m, k))
            },
            None => match fence_marker(ls[n - 1]) {
                Some((c, k, _)) => Some((c, k)),
                None => None,
            },
        }
    }
}

/// The list items of the first `n` lines, outside code fences.
pub open spec fn items_upto(ls: Seq<Seq<char>>, n: int) -> Seq<ItemSpec>
    decreases n,
{
    if n <= 0 {
        Seq::empty()
    } else {
        let prev = items_upto(ls, n - 1);
        if fence_after(ls, n - 1) is None && fence_marker(ls[n - 1]) is None {
            match line_item(ls[n - 1], n - 1) {
                Some(it) => prev.push(it),
                None => prev,
            }
        } else {
            prev
        }
    }
}

pub open spec fn body_items(body: Seq<char>) -> Seq<ItemSpec> {
    items_upto(lines(body), lines(body).len() as int)
}

struct Item {
    indent: usize,
    action: Option<(Vec<char>, bool)>,
    mode: Option<ActionMode>,
    line: usize,
}

impl View for Item {
    type V = ItemSpec;

    closed spec fn view(&self) -> ItemSpec {
        ItemSpec {
            indent: self.indent as int,
            action: match self.action {
                Some((t, c)) => Some((t@, c)),
                None => None,
            },
            mode: self.mode,
            line: self.line as int,
        }
    }
}

fn indentation_width(line: &Vec<char>) -> (r: usize)
    requires
        line.len() * 4 <= usize::MAX,
    ensures
        r as int == indent_width(line@),
{
    let mut i: usize = 0;
    let mut w: usize = 0;
    assert(line@.subrange(0, line.len() as int) =~= line@);
    while i < line.len() && char_is_whitespace(line[i])
        invariant
            i <= line.len(),
            line.len() * 4 <= usize::MAX,
            w <= 4 * i,
            indent_width(line@) == w + indent_width(line@.subrange(i as int, line.len() as int)),
        decreases line.len() - i,
    {
        let ghost t = line@.subrange(i as int, line.len() as int);
        assert(t[0] == line@[i as int]);
        assert(t.drop_first() =~= line@.subrange(i + 1, line.len() as int));
        if line[i] == '\t' {
            w = w + 4;
        } else {
            w = w + 1;
        }
        i = i + 1;
    }
    proof {
        let t = line@.subrange(i as int, line.len() as int);
        if i < line.len() {
            assert(t[0] == line@[i as int]);
        }
    }
    w
}

fn utf8_width_exec(c: char) -> (r: usize)
    ensures
        r as int == utf8_width(c),
{
    let n = c as u32;
    if n < 0x80 {
        1
    } else if n < 0x800 {
        2
    } else if n < 0x10000 {
        3
    } else {
        4
    }
}

fn has_three_byte_prefix(s: &Vec<char>) -> (r: bool)
    ensures
        r == three_byte_prefix(s@),
{
    let n = s.len();
    (n >= 1 && utf8_width_exec(s[0]) == 3) || (n >= 2 && utf8_width_exec(s[0]) == 1
        && utf8_width_exec(s[1]) == 2) || (n >= 2 && utf8_width_exec(s[0]) == 2 && utf8_width_exec(
        s[1],
    ) == 1) || (n >= 3 && utf8_width_exec(s[0]) == 1 && utf8_width_exec(s[1]) == 1
        && utf8_width_exec(s[2]) == 1)
}

fn checkbox_state_exec(s: &Vec<char>) -> (r: Option<bool>)
    ensures
        r == checkbox_state(s@),
{
    if s.len() >= 3 && s[0] == '[' && s[2] == ']' {
        if s[1] == ' ' {
            Some(false)
        } else if s[1] == 'x' || s[1] == 'X' {
            Some(true)
        } else {
            None
        }
    } else {
        None
    }
}

fn parse_list_item(line: &Vec<char>, index: usize) -> (r: Option<Item>)
    requires
        line.len() * 4 <= usize::MAX,
    ensures
        match r {
            Some(it) => line_item(line@, index as int) == Some(it@),
            None => line_item(line@, index as int) is None,
        },
{
    let indent = indentation_width(line);
    let t = trimmed_start(line);
    if t.len() == 0 || !(t[0] == '-' || t[0] == '*' || t[0] == '+') {
        return None;
    }
    let after = slice(&t, 1, t.len());
    assert(after@ =~= t@.drop_first());
    if after.len() == 0 || !char_is_whitespace(after[0]) {
        return None;
    }
    let content = trimmed_start(&after);
    if content.len() == 0 {
        return None;
    }
    if !has_three_byte_prefix(&content) {
        return Some(Item { indent, action: None, mode: mode_directive(&content), line: index });
    }
    match checkbox_state_exec(&content) {
        Some(checked) => {
            let after_marker = slice(&content, 3, content.len());
            if after_marker.len() == 0 || !char_is_whitespace(after_marker[0]) {
                return None;
            }
            let text = trimmed_start(&after_marker);
            if text.len() == 0 {
                return None;
            }
            let mode = mode_directive(&text);
            Some(Item { indent, action: Some((text, checked)), mode, line: index })
        },
        None => {
            if content[0] == '[' {
                None
            } else {
                Some(Item { indent, action: None, mode: mode_directive(&content), line: index })
            }
        },
    }
}

fn fence_marker_exec(line: &Vec<char>) -> (r: Option<(char, usize, Vec<char>)>)
    ensures
        match r {
            Some((c, n, rest)) => fence_marker(line@) == Some((c, n as int, rest@)),
            None => fence_marker(line@) is None,
        },
{
    let t = trimmed_start(line);
    if t.len() == 0 || !(t[0] == '`' || t[0] == '~') {
        return None;
    }
    let c = t[0];
    let mut n: usize = 0;
    assert(t@.subrange(0, t.len() as int) =~= t@);
    while n < t.len() && t[n] == c
        invariant
            n <= t.len(),
            run_of(t@, c) == n + run_of(t@.subrange(n as int, t.len() as int), c),
        decreases t.len() - n,
    {
        let ghost u = t@.subrange(n as int, t.len() as int);
        assert(u[0] == t@[n as int]);
        assert(u.drop_first() =~= t@.subrange(n + 1, t.len() as int));
        n = n + 1;
    }
    proof {
        let u = t@.subrange(n as int, t.len() as int);
        if n < t.len() {
            assert(u[0] == t@[n as int]);
        }
    }
    if n < 3 {
        return None;
    }
    let rest = slice(&t, n, t.len());
    Some((c, n, rest))
}

fn closes_fence_exec(line: &Vec<char>, marker: char, open_len: usize) -> (r: bool)
    ensures
        r == closes_fence(line@, marker, open_len as int),
{
    match fence_marker_exec(line) {
        Some((c, n, rest)) => c == marker && n >= open_len && trimmed(&rest).len() == 0,
        None => false,
    }
}

fn collect_items(ls: &Vec<Vec<char>>) -> (r: Vec<Item>)
    requires
        forall|i: int| 0 <= i < ls.len() ==> (#[trigger] ls@[i]).len() * 4 <= usize::MAX,
    ensures
        r@.map_values(|it: Item| it@) == items_upto(
            ls@.map_values(|l: Vec<char>| l@),
            ls.len() as int,
        ),
        forall|j: int| 0 <= j < r.len() ==> (#[trigger] r@[j]).line < ls.len(),
        r.len() <= ls.len(),
{
    let ghost lv = ls@.map_values(|l: Vec<char>| l@);
    let mut items: Vec<Item> = Vec::new();
    let mut fence: Option<(char, usize)> = None;
    let mut i: usize = 0;
    while i < ls.len()
        invariant
            i <= ls.len(),
            lv == ls@.map_values(|l: Vec<char>| l@),
            forall|k: int| 0 <= k < ls.len() ==> (#[trigger] ls@[k]).len() * 4 <= usize::MAX,
            items@.map_values(|it: Item| it@) == items_upto(lv, i as int),
            match fence {
                Some((m, k)) => fence_after(lv, i as int) == Some((m, k as int)),
                None => fence_after(lv, i as int) is None,
            },
            forall|j: int| 0 <= j < items.len() ==> (#[trigger] items@[j]).line < i,
            items.len() <= i,
        decreases ls.len() - i,
    {
        let ghost before = items@.map_values(|it: Item| it@);
        let line = &ls[i];
        assert(lv[i as int] == line@);
        match fence {
            Some((m, k)) => {
                if closes_fence_exec(line, m, k) {
                    fence = None;
                }
            },
            None => {
                match fence_marker_exec(line) {
                    Some((c, k, _)) => {
                        fence = Some((c, k));
                    },
                    None => {
                        match parse_list_item(line, i) {
                            Some(it) => {
                                items.push(it);
                                assert(items@.map_values(|it: Item| it@) =~= before.push(it@));
                            },
                            None => {},
                        }
                    },
                }
            },
        }
        i = i + 1;
    }
    items
}

// ---------------------------------------------------------------------------
// The checklist tree
// ---------------------------------------------------------------------------
// Node 0 is the project itself; node j (1 <= j <= m) is item j - 1.

/// The nearest node at or before `i` whose indentation is smaller than node `j`'s.
pub open spec fn parent_search(its: Seq<ItemSpec>, j: int, i: int) -> int
    decreases i,
{
    if i <= 0 {
        0
    } else if its[i - 1].indent < its[j - 1].indent {
        i
    } else {
        parent_search(its, j, i - 1)
    }
}

/// The parent of node `j`: the nearest earlier item that is indented less, else the project.
pub open spec fn parent_of(its: Seq<ItemSpec>, j: int) -> int {
    parent_search(its, j, j - 1)
}

pub proof fn lemma_parent_search(its: Seq<ItemSpec>, j: int, i: int)
    ensures
        i <= 0 ==> parent_search(its, j, i) == 0,
        i > 0 ==> 0 <= parent_search(its, j, i) <= i,
    decreases i,
{
    if i > 0 {
        lemma_parent_search(its, j, i - 1);
    }
}

/// Node `a` is node `d` or one of its ancestors.
pub open spec fn is_ancestor(its: Seq<ItemSpec>, a: int, d: int) -> bool
    decreases d,
{
    if d == a {
        true
    } else if d <= 0 || d < a {
        false
    } else {
        proof {
            lemma_parent_search(its, d, d - 1);
        }
        is_ancestor(its, a, parent_of(its, d))
    }
}

/// Node `n` is an unchecked checkbox.
pub open spec fn own_incomplete(its: Seq<ItemSpec>, n: int) -> bool {
    &&& 1 <= n <= its.len()
    &&& its[n - 1].action matches Some((_, checked))
    &&& !checked
}

/// Some unchecked checkbox lies in the branch of node `n`.
pub open spec fn branch_incomplete(its: Seq<ItemSpec>, n: int) -> bool {
    exists|d: int| n <= d <= its.len() && #[trigger] is_ancestor(its, n, d) && own_incomplete(its, d)
}

/// The mode that governs the children of node `n`: its own directive, else its parent's.
pub open spec fn effective_mode(its: Seq<ItemSpec>, mode: ActionMode, n: int) -> ActionMode
    decreases n,
{
    if n <= 0 {
        mode
    } else {
        match its[n - 1].mode {
            Some(m) => m,
            None => {
                proof {
                    lemma_parent_search(its, n, n - 1);
                }
                effective_mode(its, mode, parent_of(its, n))
            },
        }
    }
}

/// No earlier child of `p` than node `n` has an incomplete branch.
pub open spec fn first_incomplete_child(its: Seq<ItemSpec>, p: int, n: int) -> bool {
    forall|k: int| p < k < n && #[trigger] parent_of(its, k) == p ==> !branch_incomplete(its, k)
}

/// Availability flows down the tree: the project exposes its branches when it
/// is actionable; an exposed node exposes every incomplete child branch in
/// parallel mode and only the first one in serial mode.
pub open spec fn exposed(its: Seq<ItemSpec>, mode: ActionMode, actionable: bool, n: int) -> bool
    decreases n,
{
    if n <= 0 {
        actionable
    } else {
        let p = parent_of(its, n);
        proof {
            lemma_parent_search(its, n, n - 1);
        }
        exposed(its, mode, actionable, p) && branch_incomplete(its, n) && (effective_mode(
            its,
            mode,
            p,
        ) == ActionMode::Parallel || first_incomplete_child(its, p, n))
    }
}

/// Some child branch of node `n` is incomplete.
pub open spec fn has_incomplete_child(its: Seq<ItemSpec>, n: int) -> bool {
    exists|k: int| n < k <= its.len() && #[trigger] parent_of(its, k) == n && branch_incomplete(its, k)
}

/// An unchecked checkbox is available when it is exposed and none of its
/// children is still incomplete (a checkbox with incomplete children is a group).
pub open spec fn available(its: Seq<ItemSpec>, mode: ActionMode, actionable: bool, n: int) -> bool {
    exposed(its, mode, actionable, n) && own_incomplete(its, n) && !has_incomplete_child(its, n)
}

/// The checklist actions of the first `j` items.
pub open spec fn checklist_views(
    its: Seq<ItemSpec>,
    mode: ActionMode,
    actionable: bool,
    j: int,
) -> Seq<ActionView>
    decreases j,
{
    if j <= 0 {
        Seq::empty()
    } else {
        let prev = checklist_views(its, mode, actionable, j - 1);
        match its[j - 1].action {
            Some((text, checked)) => prev.push(
                action_view(
                    text,
                    checked,
                    available(its, mode, actionable, j),
                    ActionSource::Checklist,
                    Some(its[j - 1].line as usize),
                ),
            ),
            None => prev,
        }
    }
}

/// The actions of a project: the `my_next` compatibility action when it is
/// not blank, then every checklist item of the body in order.
pub open spec fn project_actions(
    body: Seq<char>,
    my_next: Option<Seq<char>>,
    mode: ActionMode,
    actionable: bool,
) -> Seq<ActionView> {
    let head = match my_next {
        Some(t) => if trim(t).len() > 0 {
            seq![action_view(trim(t), false, actionable, ActionSource::MyNext, None)]
        } else {
            Seq::empty()
        },
        None => Seq::empty(),
    };
    let its = body_items(body);
    head + checklist_views(its, mode, actionable, its.len() as int)
}


spec fn items_view(items: Seq<Item>) -> Seq<ItemSpec> {
    items.map_values(|it: Item| it@)
}

/// `par` records the parent of every node.
pub open spec fn parents_ok(par: Seq<usize>, its: Seq<ItemSpec>) -> bool {
    &&& par.len() == its.len() + 1
    &&& par[0] == 0
    &&& forall|j: int| 1 <= j <= its.len() ==> par[j] == parent_of(its, j) && #[trigger] par[j] < j
}

fn compute_parents(items: &Vec<Item>) -> (par: Vec<usize>)
    requires
        items.len() < usize::MAX,
    ensures
        parents_ok(par@, items_view(items@)),
{
    let ghost its = items_view(items@);
    let mut par: Vec<usize> = Vec::new();
    par.push(0);
    let mut j: usize = 1;
    while j <= items.len()
        invariant
            1 <= j <= items.len() + 1,
            items.len() < usize::MAX,
            its == items_view(items@),
            par.len() == j,
            par@[0] == 0,
            forall|k: int| 1 <= k < j ==> par@[k] == parent_of(its, k) && #[trigger] par@[k] < k,
        decreases items.len() + 1 - j,
    {
        let mut i: usize = j - 1;
        while i > 0 && !(items[i - 1].indent < items[j - 1].indent)
            invariant
                i < j <= items.len(),
                its == items_view(items@),
                parent_search(its, j as int, j - 1) == parent_search(its, j as int, i as int),
            decreases i,
        {
            assert(its[i - 1].indent == items@[i - 1].indent);
            assert(its[j - 1].indent == items@[j - 1].indent);
            i = i - 1;
        }
        proof {
            if i > 0 {
                assert(its[i - 1].indent == items@[i - 1].indent);
                assert(its[j - 1].indent == items@[j - 1].indent);
            }
        }
        par.push(i);
        j = j + 1;
    }
    par
}

fn is_ancestor_exec(par: &Vec<usize>, Ghost(its): Ghost<Seq<ItemSpec>>, a: usize, d: usize) -> (r: bool)
    requires
        parents_ok(par@, its),
        a <= its.len(),
        d <= its.len(),
    ensures
        r == is_ancestor(its, a as int, d as int),
{
    let mut x = d;
    while x > a
        invariant
            parents_ok(par@, its),
            x <= its.len(),
            is_ancestor(its, a as int, d as int) == is_ancestor(its, a as int, x as int),
        decreases x,
    {
        assert(par@[x as int] < x);
        x = par[x];
    }
    x == a
}

fn own_incomplete_exec(items: &Vec<Item>, n: usize) -> (r: bool)
    requires
        n <= items.len(),
    ensures
        r == own_incomplete(items_view(items@), n as int),
{
    if n == 0 {
        return false;
    }
    match &items[n - 1].action {
        Some((_, checked)) => !*checked,
        None => false,
    }
}

fn compute_branches(items: &Vec<Item>, par: &Vec<usize>) -> (hi: Vec<bool>)
    requires
        items.len() < usize::MAX,
        parents_ok(par@, items_view(items@)),
    ensures
        hi.len() == items.len() + 1,
        forall|n: int| 0 <= n <= items.len() ==> #[trigger] hi@[n] == branch_incomplete(
            items_view(items@),
            n,
        ),
{
    let ghost its = items_view(items@);
    let m = items.len();
    let mut hi: Vec<bool> = Vec::new();
    let mut n: usize = 0;
    while n <= m
        invariant
            n <= m + 1,
            m == items.len(),
            m < usize::MAX,
            its == items_view(items@),
            parents_ok(par@, its),
            hi.len() == n,
            forall|k: int| 0 <= k < n ==> #[trigger] hi@[k] == branch_incomplete(its, k),
        decreases m + 1 - n,
    {
        let mut found = false;
        let mut d: usize = n;
        while d <= m && !found
            invariant
                n <= d <= m + 1,
                m == items.len(),
                m < usize::MAX,
                its == items_view(items@),
                parents_ok(par@, its),
                found ==> branch_incomplete(its, n as int),
                !found ==> forall|e: int| n <= e < d ==> !(#[trigger] is_ancestor(its, n as int, e)
                    && own_incomplete(its, e)),
            decreases m + 1 - d,
        {
            if own_incomplete_exec(items, d) && is_ancestor_exec(par, Ghost(its), n, d) {
                assert(is_ancestor(its, n as int, d as int) && own_incomplete(its, d as int));
                found = true;
            }
            d = d + 1;
        }
        hi.push(found);
        n = n + 1;
    }
    hi
}

fn compute_modes(items: &Vec<Item>, par: &Vec<usize>, mode: ActionMode) -> (ef: Vec<ActionMode>)
    requires
        items.len() < usize::MAX,
        parents_ok(par@, items_view(items@)),
    ensures
        ef.len() == items.len() + 1,
        forall|n: int| 0 <= n <= items.len() ==> #[trigger] ef@[n] == effective_mode(
            items_view(items@),
            mode,
            n,
        ),
{
    let ghost its = items_view(items@);
    let mut ef: Vec<ActionMode> = Vec::new();
    ef.push(mode);
    let mut n: usize = 1;
    while n <= items.len()
        invariant
            1 <= n <= items.len() + 1,
            items.len() < usize::MAX,
            its == items_view(items@),
            parents_ok(par@, its),
            ef.len() == n,
            forall|k: int| 0 <= k < n ==> #[trigger] ef@[k] == effective_mode(its, mode, k),
        decreases items.len() + 1 - n,
    {
        assert(par@[n as int] < n);
        let m = match items[n - 1].mode {
            Some(m) => m,
            None => ef[par[n]],
        };
        assert(its[n - 1].mode == items@[n - 1].mode);
        ef.push(m);
        n = n + 1;
    }
    ef
}

fn first_incomplete_child_exec(
    par: &Vec<usize>,
    hi: &Vec<bool>,
    Ghost(its): Ghost<Seq<ItemSpec>>,
    p: usize,
    n: usize,
) -> (r: bool)
    requires
        parents_ok(par@, its),
        hi.len() == its.len() + 1,
        forall|k: int| 0 <= k <= its.len() ==> #[trigger] hi@[k] == branch_incomplete(its, k),
        p < n <= its.len(),
    ensures
        r == first_incomplete_child(its, p as int, n as int),
{
    let mut k = p + 1;
    while k < n
        invariant
            p < k <= n <= its.len(),
            parents_ok(par@, its),
            hi.len() == its.len() + 1,
            forall|q: int| 0 <= q <= its.len() ==> #[trigger] hi@[q] == branch_incomplete(its, q),
            forall|q: int| p < q < k && #[trigger] parent_of(its, q) == p ==> !branch_incomplete(
                its,
                q,
            ),
        decreases n - k,
    {
        if par[k] == p && hi[k] {
            assert(parent_of(its, k as int) == p);
            return false;
        }
        k = k + 1;
    }
    true
}

fn has_incomplete_child_exec(
    par: &Vec<usize>,
    hi: &Vec<bool>,
    Ghost(its): Ghost<Seq<ItemSpec>>,
    n: usize,
) -> (r: bool)
    requires
        parents_ok(par@, its),
        hi.len() == its.len() + 1,
        forall|k: int| 0 <= k <= its.len() ==> #[trigger] hi@[k] == branch_incomplete(its, k),
        n <= its.len(),
    ensures
        r == has_incomplete_child(its, n as int),
{
    let mut k = n + 1;
    while k < hi.len()
        invariant
            n < k <= its.len() + 1,
            parents_ok(par@, its),
            hi.len() == its.len() + 1,
            forall|q: int| 0 <= q <= its.len() ==> #[trigger] hi@[q] == branch_incomplete(its, q),
            forall|q: int| n < q < k && #[trigger] parent_of(its, q) == n ==> !branch_incomplete(
                its,
                q,
            ),
        decreases its.len() + 1 - k,
    {
        if par[k] == n && hi[k] {
            assert(parent_of(its, k as int) == n && branch_incomplete(its, k as int));
            return true;
        }
        k = k + 1;
    }
    false
}

fn compute_exposed(
    par: &Vec<usize>,
    hi: &Vec<bool>,
    ef: &Vec<ActionMode>,
    Ghost(its): Ghost<Seq<ItemSpec>>,
    mode: ActionMode,
    actionable: bool,
) -> (ex: Vec<bool>)
    requires
        parents_ok(par@, its),
        hi.len() == its.len() + 1,
        forall|k: int| 0 <= k <= its.len() ==> #[trigger] hi@[k] == branch_incomplete(its, k),
        ef.len() == its.len() + 1,
        forall|k: int| 0 <= k <= its.len() ==> #[trigger] ef@[k] == effective_mode(its, mode, k),
    ensures
        ex.len() == its.len() + 1,
        forall|n: int| 0 <= n <= its.len() ==> #[trigger] ex@[n] == exposed(
            its,
            mode,
            actionable,
            n,
        ),
{
    let mut ex: Vec<bool> = Vec::new();
    ex.push(actionable);
    let mut n: usize = 1;
    while n < hi.len()
        invariant
            1 <= n <= its.len() + 1,
            parents_ok(par@, its),
            hi.len() == its.len() + 1,
            forall|k: int| 0 <= k <= its.len() ==> #[trigger] hi@[k] == branch_incomplete(its, k),
            ef.len() == its.len() + 1,
            forall|k: int| 0 <= k <= its.len() ==> #[trigger] ef@[k] == effective_mode(its, mode, k),
            ex.len() == n,
            forall|k: int| 0 <= k < n ==> #[trigger] ex@[k] == exposed(its, mode, actionable, k),
        decreases its.len() + 1 - n,
    {
        let p = par[n];
        assert(p < n);
        let e = ex[p] && hi[n] && (ef[p] == ActionMode::Parallel || first_incomplete_child_exec(
            par,
            hi,
            Ghost(its),
            p,
            n,
        ));
        ex.push(e);
        n = n + 1;
    }
    ex
}

fn parse_actions_chars(
    body: &Vec<char>,
    my_next: Option<&Vec<char>>,
    mode: ActionMode,
    project_is_actionable: bool,
) -> (r: Vec<Action>)
    requires
        body.len() * 4 <= usize::MAX,
    ensures
        r@.map_values(|a: Action| a@) == project_actions(
            body@,
            match my_next {
                Some(t) => Some(t@),
                None => None,
            },
            mode,
            project_is_actionable,
        ),
{
    let mut actions: Vec<Action> = Vec::new();
    match my_next {
        Some(t) => {
            let text = trimmed(t);
            if text.len() > 0 {
                let a = make_action(&text, false, project_is_actionable, ActionSource::MyNext, None);
                actions.push(a);
                assert(actions@.map_values(|a: Action| a@) =~= seq![a@]);
            }
        },
        None => {},
    }
    let ghost head = actions@.map_values(|a: Action| a@);
    let ls = lines_of(body);
    let items = collect_items(&ls);
    let ghost its = items_view(items@);
    assert(ls@.map_values(|l: Vec<char>| l@) == lines(body@));
    assert(its == body_items(body@));
    let par = compute_parents(&items);
    let hi = compute_branches(&items, &par);
    let ef = compute_modes(&items, &par, mode);
    let ex = compute_exposed(&par, &hi, &ef, Ghost(its), mode, project_is_actionable);
    let mut j: usize = 1;
    assert(head + checklist_views(its, mode, project_is_actionable, 0) =~= head);
    while j <= items.len()
        invariant
            1 <= j <= items.len() + 1,
            its == items_view(items@),
            parents_ok(par@, its),
            hi.len() == its.len() + 1,
            forall|k: int| 0 <= k <= its.len() ==> #[trigger] hi@[k] == branch_incomplete(its, k),
            ex.len() == its.len() + 1,
            forall|k: int| 0 <= k <= its.len() ==> #[trigger] ex@[k] == exposed(
                its,
                mode,
                project_is_actionable,
                k,
            ),
            actions@.map_values(|a: Action| a@) == head + checklist_views(
                its,
                mode,
                project_is_actionable,
                j - 1,
            ),
        decreases items.len() + 1 - j,
    {
        let ghost before = actions@.map_values(|a: Action| a@);
        let item = &items[j - 1];
        assert(its[j - 1] == item@);
        match &item.action {
            Some((text, checked)) => {
                let avail = ex[j] && !*checked && !has_incomplete_child_exec(
                    &par,
                    &hi,
                    Ghost(its),
                    j,
                );
                assert(own_incomplete(its, j as int) == !*checked);
                let a = make_action(text, *checked, avail, ActionSource::Checklist, Some(item.line));
                actions.push(a);
                assert(actions@.map_values(|a: Action| a@) =~= before.push(a@));
                assert(head + checklist_views(its, mode, project_is_actionable, j as int) =~= (head
                    + checklist_views(its, mode, project_is_actionable, j - 1)).push(a@));
            },
            None => {},
        }
        j = j + 1;
    }
    actions
}

/// The actions of a project body: the `my_next` compatibility action first
/// (when not blank), then every checklist item outside code fences, with
/// availability following the checklist tree and the project's mode.
pub fn parse_actions(
    body: &str,
    my_next: Option<&str>,
    mode: ActionMode,
    project_is_actionable: bool,
) -> (r: Vec<Action>)
    ensures
        r@.map_values(|a: Action| a@) == project_actions(
            body@,
            match my_next {
                Some(t) => Some(t@),
                None => None,
            },
            mode,
            project_is_actionable,
        ),
{
    let b = chars_of(body);
    match my_next {
        Some(t) => {
            let tc = chars_of(t);
            parse_actions_chars(&b, Some(&tc), mode, project_is_actionable)
        },
        None => parse_actions_chars(&b, None, mode, project_is_actionable),
    }
}


// ---------------------------------------------------------------------------
// What availability promises
// ---------------------------------------------------------------------------

proof fn lemma_checklist_completed_unavailable(
    its: Seq<ItemSpec>,
    mode: ActionMode,
    actionable: bool,
    j: int,
)
    ensures
        forall|i: int|
            0 <= i < checklist_views(its, mode, actionable, j).len() ==> (#[trigger] checklist_views(
                its,
                mode,
                actionable,
                j,
            )[i]).completed ==> !checklist_views(its, mode, actionable, j)[i].available,
    decreases j,
{
    if j > 0 {
        lemma_checklist_completed_unavailable(its, mode, actionable, j - 1);
    }
}

/// A completed action is never available.
pub proof fn lemma_completed_actions_unavailable(
    body: Seq<char>,
    my_next: Option<Seq<char>>,
    mode: ActionMode,
    actionable: bool,
)
    ensures
        forall|i: int|
            0 <= i < project_actions(body, my_next, mode, actionable).len() ==> (
            #[trigger] project_actions(body, my_next, mode, actionable)[i]).completed
                ==> !project_actions(body, my_next, mode, actionable)[i].available,
{
    let its = body_items(body);
    lemma_checklist_completed_unavailable(its, mode, actionable, its.len() as int);
    let v = project_actions(body, my_next, mode, actionable);
    let head = v.len() - checklist_views(its, mode, actionable, its.len() as int).len();
    assert forall|i: int| 0 <= i < v.len() && (#[trigger] v[i]).completed implies !v[i].available by {
        if i >= head {
            assert(v[i] == checklist_views(its, mode, actionable, its.len() as int)[i - head]);
        }
    }
}

proof fn lemma_not_exposed(its: Seq<ItemSpec>, mode: ActionMode, n: int)
    ensures
        !exposed(its, mode, false, n),
    decreases n,
{
    if n > 0 {
        lemma_parent_search(its, n, n - 1);
        lemma_not_exposed(its, mode, parent_of(its, n));
    }
}

proof fn lemma_checklist_unavailable(its: Seq<ItemSpec>, mode: ActionMode, j: int)
    ensures
        forall|i: int|
            0 <= i < checklist_views(its, mode, false, j).len() ==> !(#[trigger] checklist_views(
                its,
                mode,
                false,
                j,
            )[i]).available,
    decreases j,
{
    if j > 0 {
        lemma_checklist_unavailable(its, mode, j - 1);
        lemma_not_exposed(its, mode, j);
    }
}

/// A project that is not actionable (waiting, done, deferred, ...) has no
/// available action, whatever its checklist holds.
pub proof fn lemma_inactive_project_has_no_available_action(
    body: Seq<char>,
    my_next: Option<Seq<char>>,
    mode: ActionMode,
)
    ensures
        forall|i: int|
            0 <= i < project_actions(body, my_next, mode, false).len() ==> !(
            #[trigger] project_actions(body, my_next, mode, false)[i]).available,
{
    let its = body_items(body);
    lemma_checklist_unavailable(its, mode, its.len() as int);
    let v = project_actions(body, my_next, mode, false);
    let head = v.len() - checklist_views(its, mode, false, its.len() as int).len();
    assert forall|i: int| 0 <= i < v.len() implies !(#[trigger] v[i]).available by {
        if i >= head {
            assert(v[i] == checklist_views(its, mode, false, its.len() as int)[i - head]);
        }
    }
}

/// No checklist item carries a `!serial` or `!parallel` directive.
pub open spec fn no_directives(its: Seq<ItemSpec>) -> bool {
    forall|i: int| 0 <= i < its.len() ==> (#[trigger] its[i]).mode is None
}

proof fn lemma_effective_mode_default(its: Seq<ItemSpec>, mode: ActionMode, n: int)
    requires
        no_directives(its),
        n <= its.len(),
    ensures
        effective_mode(its, mode, n) == mode,
    decreases n,
{
    if n > 0 {
        assert(its[n - 1].mode is None);
        lemma_parent_search(its, n, n - 1);
        lemma_effective_mode_default(its, mode, parent_of(its, n));
    }
}

/// The parent of a node is an ancestor of everything the node is an ancestor of.
proof fn lemma_ancestor_parent(its: Seq<ItemSpec>, n: int, d: int)
    requires
        1 <= n <= d,
        is_ancestor(its, n, d),
    ensures
        is_ancestor(its, parent_of(its, n), d),
    decreases d,
{
    lemma_parent_search(its, n, n - 1);
    if d != n {
        lemma_parent_search(its, d, d - 1);
        let pd = parent_of(its, d);
        if pd >= n {
            lemma_ancestor_parent(its, n, pd);
        } else {
            assert(is_ancestor(its, n, pd));
            assert(pd == n || pd <= 0 || pd < n);
        }
    } else {
        let p = parent_of(its, n);
        assert(is_ancestor(its, p, p));
    }
}

proof fn lemma_parallel_exposed(its: Seq<ItemSpec>, n: int)
    requires
        no_directives(its),
        0 <= n <= its.len(),
        n == 0 || branch_incomplete(its, n),
    ensures
        exposed(its, ActionMode::Parallel, true, n),
    decreases n,
{
    if n > 0 {
        lemma_parent_search(its, n, n - 1);
        let p = parent_of(its, n);
        lemma_effective_mode_default(its, ActionMode::Parallel, p);
        if p > 0 {
            let d = choose|d: int|
                n <= d <= its.len() && #[trigger] is_ancestor(its, n, d) && own_incomplete(its, d);
            lemma_ancestor_parent(its, n, d);
            assert(is_ancestor(its, p, d));
        }
        lemma_parallel_exposed(its, p);
    }
}

/// In a parallel project whose checklist has no directives, every unchecked
/// checkbox is available unless it has unchecked children (a task group).
pub proof fn lemma_parallel_availability(body: Seq<char>)
    requires
        no_directives(body_items(body)),
    ensures
        forall|n: int|
            1 <= n <= body_items(body).len() ==> (available(
                body_items(body),
                ActionMode::Parallel,
                true,
                n,
            ) <==> own_incomplete(body_items(body), n) && !has_incomplete_child(
                body_items(body),
                n,
            )),
{
    let its = body_items(body);
    assert forall|n: int| 1 <= n <= its.len() implies (available(
        its,
        ActionMode::Parallel,
        true,
        n,
    ) <==> own_incomplete(its, n) && !has_incomplete_child(its, n)) by {
        if own_incomplete(its, n) {
            assert(is_ancestor(its, n, n));
            lemma_parallel_exposed(its, n);
        }
    }
}

/// Every ancestor of an exposed node is exposed.
proof fn lemma_ancestor_of_exposed(
    its: Seq<ItemSpec>,
    mode: ActionMode,
    actionable: bool,
    k: int,
    d: int,
)
    requires
        0 <= k <= d,
        is_ancestor(its, k, d),
        exposed(its, mode, actionable, d),
    ensures
        exposed(its, mode, actionable, k),
    decreases d,
{
    if d != k {
        lemma_parent_search(its, d, d - 1);
        let p = parent_of(its, d);
        assert(is_ancestor(its, k, p));
        lemma_ancestor_of_exposed(its, mode, actionable, k, p);
    }
}

/// Below a proper ancestor `a` of `d` lies a child of `a` on the path to `d`.
proof fn lemma_child_on_path(its: Seq<ItemSpec>, a: int, d: int) -> (k: int)
    requires
        0 <= a < d,
        is_ancestor(its, a, d),
    ensures
        a < k <= d,
        parent_of(its, k) == a,
        is_ancestor(its, k, d),
    decreases d,
{
    lemma_parent_search(its, d, d - 1);
    let p = parent_of(its, d);
    if p == a {
        d
    } else {
        assert(is_ancestor(its, a, p));
        let k = lemma_child_on_path(its, a, p);
        assert(is_ancestor(its, k, d));
        k
    }
}

/// In a serial checklist without directives, two exposed nodes lie on one path.
proof fn lemma_serial_exposed_on_one_path(its: Seq<ItemSpec>, actionable: bool, a: int, b: int)
    requires
        no_directives(its),
        0 <= a <= its.len(),
        0 <= b <= its.len(),
        exposed(its, ActionMode::Serial, actionable, a),
        exposed(its, ActionMode::Serial, actionable, b),
    ensures
        is_ancestor(its, a, b) || is_ancestor(its, b, a),
    decreases a + b,
{
    if a < b {
        lemma_parent_search(its, b, b - 1);
        let pb = parent_of(its, b);
        lemma_serial_exposed_on_one_path(its, actionable, a, pb);
        if is_ancestor(its, a, pb) {
            assert(is_ancestor(its, a, b));
        } else {
            let k = lemma_child_on_path(its, pb, a);
            lemma_ancestor_of_exposed(its, ActionMode::Serial, actionable, k, a);
            lemma_effective_mode_default(its, ActionMode::Serial, pb);
            assert(first_incomplete_child(its, pb, b));
            assert(parent_of(its, k) == pb);
            assert(branch_incomplete(its, k));
        }
    } else if b < a {
        lemma_parent_search(its, a, a - 1);
        let pa = parent_of(its, a);
        lemma_serial_exposed_on_one_path(its, actionable, pa, b);
        if is_ancestor(its, b, pa) {
            assert(is_ancestor(its, b, a));
        } else {
            let k = lemma_child_on_path(its, pa, b);
            lemma_ancestor_of_exposed(its, ActionMode::Serial, actionable, k, b);
            lemma_effective_mode_default(its, ActionMode::Serial, pa);
            assert(first_incomplete_child(its, pa, a));
            assert(parent_of(its, k) == pa);
            assert(branch_incomplete(its, k));
        }
    }
}

proof fn lemma_serial_available_pair(its: Seq<ItemSpec>, actionable: bool, a: int, b: int)
    requires
        no_directives(its),
        a < b,
    ensures
        !(available(its, ActionMode::Serial, actionable, a) && available(
            its,
            ActionMode::Serial,
            actionable,
            b,
        )),
{
    if available(its, ActionMode::Serial, actionable, a) && available(
        its,
        ActionMode::Serial,
        actionable,
        b,
    ) {
        lemma_serial_exposed_on_one_path(its, actionable, a, b);
        assert(!is_ancestor(its, b, a));
        let k = lemma_child_on_path(its, a, b);
        assert(branch_incomplete(its, k));
        assert(has_incomplete_child(its, a));
    }
}

/// In a serial project whose checklist has no directives, at most one
/// checkbox is available: only the first incomplete branch is worked on.
pub proof fn lemma_serial_availability(body: Seq<char>, actionable: bool)
    requires
        no_directives(body_items(body)),
    ensures
        forall|a: int, b: int|
            available(body_items(body), ActionMode::Serial, actionable, a) && available(
                body_items(body),
                ActionMode::Serial,
                actionable,
                b,
            ) ==> a == b,
{
    let its = body_items(body);
    assert forall|a: int, b: int|
        available(its, ActionMode::Serial, actionable, a) && available(
            its,
            ActionMode::Serial,
            actionable,
            b,
        ) implies a == b by {
        if a < b {
            lemma_serial_available_pair(its, actionable, a, b);
        } else if b < a {
            lemma_serial_available_pair(its, actionable, b, a);
        }
    }
}

/// Every node lies below the project.
proof fn lemma_project_is_ancestor(its: Seq<ItemSpec>, d: int)
    requires
        0 <= d,
    ensures
        is_ancestor(its, 0, d),
    decreases d,
{
    if d > 0 {
        lemma_parent_search(its, d, d - 1);
        lemma_project_is_ancestor(its, parent_of(its, d));
    }
}

/// Among the children of `p` whose branch is incomplete, the first one.
proof fn lemma_first_incomplete_child(its: Seq<ItemSpec>, p: int, k: int) -> (f: int)
    requires
        p < k <= its.len(),
        parent_of(its, k) == p,
        branch_incomplete(its, k),
    ensures
        p < f <= k,
        parent_of(its, f) == p,
        branch_incomplete(its, f),
        first_incomplete_child(its, p, f),
    decreases k,
{
    if exists|k2: int| p < k2 < k && #[trigger] parent_of(its, k2) == p && branch_incomplete(its, k2) {
        let k2 = choose|k2: int| p < k2 < k && #[trigger] parent_of(its, k2) == p && branch_incomplete(its, k2);
        lemma_first_incomplete_child(its, p, k2)
    } else {
        k
    }
}

/// Below an exposed node whose branch holds an unchecked checkbox lies an
/// available checkbox.
proof fn lemma_exposed_reaches_available(its: Seq<ItemSpec>, mode: ActionMode, actionable: bool, n: int) -> (a: int)
    requires
        0 <= n <= its.len(),
        exposed(its, mode, actionable, n),
        n == 0 ==> exists|d: int| #[trigger] own_incomplete(its, d),
        n > 0 ==> branch_incomplete(its, n),
    ensures
        1 <= a <= its.len(),
        available(its, mode, actionable, a),
    decreases its.len() - n,
{
    if has_incomplete_child(its, n) {
        let k = choose|k: int| n < k <= its.len() && #[trigger] parent_of(its, k) == n && branch_incomplete(its, k);
        let f = lemma_first_incomplete_child(its, n, k);
        lemma_parent_search(its, f, f - 1);
        assert(exposed(its, mode, actionable, f));
        lemma_exposed_reaches_available(its, mode, actionable, f)
    } else if n == 0 {
        let d = choose|d: int| #[trigger] own_incomplete(its, d);
        lemma_project_is_ancestor(its, d);
        let k = lemma_child_on_path(its, 0, d);
        assert(is_ancestor(its, k, d));
        assert(branch_incomplete(its, k));
        assert(has_incomplete_child(its, 0));
        0
    } else {
        let d = choose|d: int| n <= d <= its.len() && #[trigger] is_ancestor(its, n, d) && own_incomplete(its, d);
        if d != n {
            let k = lemma_child_on_path(its, n, d);
            assert(is_ancestor(its, k, d));
            assert(branch_incomplete(its, k));
            assert(has_incomplete_child(its, n));
        }
        n
    }
}

/// An actionable project with an unchecked checkbox always offers an
/// available action, in either mode and whatever its directives: availability
/// flows into the first incomplete branch (serial) or every one (parallel),
/// down to an unchecked checkbox without unchecked children.
pub proof fn lemma_unchecked_checklist_has_available_action(body: Seq<char>, mode: ActionMode)
    requires
        exists|d: int| #[trigger] own_incomplete(body_items(body), d),
    ensures
        exists|n: int| 1 <= n <= body_items(body).len() && #[trigger] available(body_items(body), mode, true, n),
{
    let its = body_items(body);
    assert(exposed(its, mode, true, 0));
    let a = lemma_exposed_reaches_available(its, mode, true, 0);
    assert(available(its, mode, true, a));
}

/// A flat checklist: every item at the same indentation, so none has children.
pub open spec fn flat_checklist(its: Seq<ItemSpec>) -> bool {
    forall|i: int| 0 <= i < its.len() ==> (#[trigger] its[i]).indent == its[0].indent
}

proof fn lemma_flat_parent(its: Seq<ItemSpec>, j: int, i: int)
    requires
        flat_checklist(its),
        1 <= j <= its.len(),
        i < j,
    ensures
        parent_search(its, j, i) == 0,
    decreases i,
{
    if i > 0 {
        assert(its[i - 1].indent == its[0].indent);
        assert(its[j - 1].indent == its[0].indent);
        lemma_flat_parent(its, j, i - 1);
    }
}

/// In a flat checklist of an actionable project, a parallel project offers
/// every unchecked checkbox, and a serial one exactly the first unchecked
/// checkbox.
pub proof fn lemma_flat_checklist_availability(body: Seq<char>)
    requires
        flat_checklist(body_items(body)),
    ensures
        forall|n: int|
            1 <= n <= body_items(body).len() ==> (available(body_items(body), ActionMode::Parallel, true, n)
                <==> own_incomplete(body_items(body), n)),
        forall|n: int|
            1 <= n <= body_items(body).len() ==> (available(body_items(body), ActionMode::Serial, true, n)
                <==> own_incomplete(body_items(body), n) && forall|k: int|
                1 <= k < n ==> !#[trigger] own_incomplete(body_items(body), k)),
{
    lemma_flat_items_availability(body_items(body));
}

proof fn lemma_flat_items_availability(its: Seq<ItemSpec>)
    requires
        flat_checklist(its),
    ensures
        forall|n: int|
            1 <= n <= its.len() ==> (available(its, ActionMode::Parallel, true, n)
                <==> own_incomplete(its, n)),
        forall|n: int|
            1 <= n <= its.len() ==> (available(its, ActionMode::Serial, true, n)
                <==> own_incomplete(its, n) && forall|k: int|
                1 <= k < n ==> !#[trigger] own_incomplete(its, k)),
{
    assert forall|j: int| 1 <= j <= its.len() implies #[trigger] parent_of(its, j) == 0 by {
        lemma_flat_parent(its, j, j - 1);
    }
    assert forall|k: int| 1 <= k <= its.len() implies (#[trigger] branch_incomplete(its, k)
        <==> own_incomplete(its, k)) by {
        if own_incomplete(its, k) {
            assert(is_ancestor(its, k, k));
        }
        if branch_incomplete(its, k) {
            let d = choose|d: int| k <= d <= its.len() && #[trigger] is_ancestor(its, k, d) && own_incomplete(its, d);
            if d != k {
                assert(parent_of(its, d) == 0);
                assert(!is_ancestor(its, k, 0));
            }
        }
    }
    assert forall|n: int| 1 <= n <= its.len() implies !#[trigger] has_incomplete_child(its, n) by {
        if has_incomplete_child(its, n) {
            let k = choose|k: int| n < k <= its.len() && #[trigger] parent_of(its, k) == n && branch_incomplete(its, k);
            assert(parent_of(its, k) == 0);
        }
    }
    assert(effective_mode(its, ActionMode::Serial, 0) == ActionMode::Serial);
    assert(effective_mode(its, ActionMode::Parallel, 0) == ActionMode::Parallel);
    assert forall|n: int| 1 <= n <= its.len() implies (available(its, ActionMode::Parallel, true, n)
        <==> own_incomplete(its, n)) by {
        assert(parent_of(its, n) == 0);
        assert(exposed(its, ActionMode::Parallel, true, 0));
    }
    assert forall|n: int| 1 <= n <= its.len() implies (available(its, ActionMode::Serial, true, n)
        <==> own_incomplete(its, n) && forall|k: int| 1 <= k < n ==> !#[trigger] own_incomplete(its, k)) by {
        assert(parent_of(its, n) == 0);
        assert(exposed(its, ActionMode::Serial, true, 0));
        if own_incomplete(its, n) && forall|k: int| 1 <= k < n ==> !#[trigger] own_incomplete(its, k) {
            assert forall|k: int| 0 < k < n && #[trigger] parent_of(its, k) == 0 implies !branch_incomplete(its, k) by {
                assert(!own_incomplete(its, k));
            }
            assert(first_incomplete_child(its, 0, n));
        }
        if available(its, ActionMode::Serial, true, n) {
            assert(first_incomplete_child(its, 0, n));
            assert forall|k: int| 1 <= k < n implies !#[trigger] own_incomplete(its, k) by {
                assert(parent_of(its, k) == 0);
                assert(!branch_incomplete(its, k));
            }
        }
    }
}

/// A serial project whose checklist has no directives and still has an
/// unchecked checkbox offers exactly one action at a time.
pub proof fn lemma_serial_offers_exactly_one(body: Seq<char>)
    requires
        no_directives(body_items(body)),
        exists|d: int| #[trigger] own_incomplete(body_items(body), d),
    ensures
        exists|n: int|
            1 <= n <= body_items(body).len() && #[trigger] available(body_items(body), ActionMode::Serial, true, n)
                && forall|m: int| #[trigger] available(body_items(body), ActionMode::Serial, true, m) ==> m == n,
{
    lemma_unchecked_checklist_has_available_action(body, ActionMode::Serial);
    lemma_serial_availability(body, true);
}

/// A line that is blank or starts, unindented, with a bullet.
pub open spec fn flat_line(l: Seq<char>) -> bool {
    trim_start(l).len() == 0 || (l.len() > 0 && is_bullet(l[0]))
}

/// A body that is a flat list: every line blank or an unindented bullet
/// item, so no item is nested and no code fence opens.
pub open spec fn flat_list_body(body: Seq<char>) -> bool {
    forall|i: int| 0 <= i < lines(body).len() ==> #[trigger] flat_line(lines(body)[i])
}

proof fn lemma_flat_lines_items(ls: Seq<Seq<char>>, n: int)
    requires
        forall|i: int| 0 <= i < ls.len() ==> #[trigger] flat_line(ls[i]),
        0 <= n <= ls.len(),
    ensures
        fence_after(ls, n) is None,
        forall|k: int| 0 <= k < items_upto(ls, n).len() ==> (#[trigger] items_upto(ls, n)[k]).indent == 0,
    decreases n,
{
    if n > 0 {
        lemma_flat_lines_items(ls, n - 1);
        let l = ls[n - 1];
        assert(flat_line(l));
        if trim_start(l).len() > 0 {
            assert(!is_white_space(l[0]));
            assert(trim_start(l) == l);
            assert(indent_width(l) == 0);
        }
        assert(fence_marker(l) is None);
        let prev = items_upto(ls, n - 1);
        assert forall|k: int| 0 <= k < items_upto(ls, n).len() implies (#[trigger] items_upto(ls, n)[k]).indent == 0 by {
            if k < prev.len() {
                assert(items_upto(ls, n)[k] == prev[k]);
            }
        }
    }
}

/// The actions of the first `j` items are all completed exactly when none of
/// those items is an unchecked checkbox.
proof fn lemma_views_completed(its: Seq<ItemSpec>, mode: ActionMode, j: int)
    requires
        0 <= j <= its.len(),
    ensures
        (forall|i: int|
            0 <= i < checklist_views(its, mode, true, j).len() ==> (#[trigger] checklist_views(its, mode, true, j)[i]).completed)
            <==> (forall|k: int| 1 <= k <= j ==> !#[trigger] own_incomplete(its, k)),
    decreases j,
{
    if j > 0 {
        lemma_views_completed(its, mode, j - 1);
        let prev = checklist_views(its, mode, true, j - 1);
        let vs = checklist_views(its, mode, true, j);
        if forall|k: int| 1 <= k <= j ==> !#[trigger] own_incomplete(its, k) {
            assert forall|k: int| 1 <= k <= j - 1 implies !#[trigger] own_incomplete(its, k) by {
                assert(!own_incomplete(its, k));
            }
            assert(!own_incomplete(its, j));
            assert forall|i: int| 0 <= i < vs.len() implies (#[trigger] vs[i]).completed by {
                if i < prev.len() {
                    assert(vs[i] == prev[i]);
                    assert(prev[i].completed);
                }
            }
        }
        if forall|i: int| 0 <= i < vs.len() ==> (#[trigger] vs[i]).completed {
            assert forall|i: int| 0 <= i < prev.len() implies (#[trigger] prev[i]).completed by {
                assert(vs[i] == prev[i]);
            }
            assert forall|k: int| 1 <= k <= j implies !#[trigger] own_incomplete(its, k) by {
                if k == j {
                    if its[j - 1].action is Some {
                        assert(vs[vs.len() - 1].completed);
                    }
                }
            }
        }
    }
}

proof fn lemma_flat_available_at(its: Seq<ItemSpec>, mode: ActionMode, n: int)
    requires
        flat_checklist(its),
        1 <= n <= its.len(),
    ensures
        available(its, mode, true, n) == (own_incomplete(its, n) && (mode == ActionMode::Serial ==> forall|k: int|
            1 <= k < n ==> !#[trigger] own_incomplete(its, k))),
{
    lemma_flat_items_availability(its);
    match mode {
        ActionMode::Parallel => {
            assert(available(its, ActionMode::Parallel, true, n) <==> own_incomplete(its, n));
        },
        ActionMode::Serial => {
            assert(available(its, ActionMode::Serial, true, n) <==> own_incomplete(its, n) && forall|k: int|
                1 <= k < n ==> !#[trigger] own_incomplete(its, k));
        },
    }
}

/// Every action is completed.
pub open spec fn all_completed(vs: Seq<ActionView>) -> bool {
    forall|i: int| 0 <= i < vs.len() ==> (#[trigger] vs[i]).completed
}

/// Every action is available exactly when it is not completed and, in
/// serial mode, every earlier action is.
pub open spec fn flat_flags(vs: Seq<ActionView>, mode: ActionMode) -> bool {
    forall|i: int|
        0 <= i < vs.len() ==> (#[trigger] vs[i]).available == (!vs[i].completed && (mode == ActionMode::Serial
            ==> all_completed(vs.take(i))))
}

proof fn lemma_flat_flags_push(prev: Seq<ActionView>, v: ActionView, mode: ActionMode)
    requires
        flat_flags(prev, mode),
        v.available == (!v.completed && (mode == ActionMode::Serial ==> all_completed(prev))),
    ensures
        flat_flags(prev.push(v), mode),
{
    let vs = prev.push(v);
    assert forall|i: int| 0 <= i < vs.len() implies (#[trigger] vs[i]).available == (!vs[i].completed && (mode
        == ActionMode::Serial ==> all_completed(vs.take(i)))) by {
        if i < prev.len() {
            assert(vs.take(i) =~= prev.take(i));
            assert(vs[i] == prev[i]);
        } else {
            assert(vs.take(i) =~= prev);
        }
    }
}

#[verifier::spinoff_prover]
proof fn lemma_flat_views(its: Seq<ItemSpec>, mode: ActionMode, j: int)
    requires
        flat_checklist(its),
        0 <= j <= its.len(),
    ensures
        flat_flags(checklist_views(its, mode, true, j), mode),
    decreases j,
{
    if j > 0 {
        lemma_flat_views(its, mode, j - 1);
        let prev = checklist_views(its, mode, true, j - 1);
        if its[j - 1].action is Some {
            let vs = checklist_views(its, mode, true, j);
            let v = vs.last();
            assert(vs == prev.push(v));
            assert(own_incomplete(its, j) == !v.completed);
            lemma_flat_available_at(its, mode, j);
            lemma_views_completed(its, mode, j - 1);
            assert(all_completed(prev) == (forall|i: int|
                0 <= i < checklist_views(its, mode, true, j - 1).len() ==> (#[trigger] checklist_views(its, mode, true, j - 1)[i]).completed));
            lemma_flat_flags_push(prev, v, mode);
        }
    }
}

/// In a body that is a flat list, an actionable project without `my_next`
/// offers, in parallel mode, every unchecked action and, in serial mode,
/// exactly the first unchecked action.
pub proof fn lemma_flat_list_actions(body: Seq<char>, mode: ActionMode)
    requires
        flat_list_body(body),
    ensures
        ({
            let r = project_actions(body, None, mode, true);
            &&& mode == ActionMode::Parallel ==> forall|i: int|
                0 <= i < r.len() ==> (#[trigger] r[i]).available == !r[i].completed
            &&& mode == ActionMode::Serial ==> forall|i: int|
                0 <= i < r.len() ==> ((#[trigger] r[i]).available == (!r[i].completed && forall|m: int|
                    0 <= m < i ==> (#[trigger] r[m]).completed))
        }),
{
    let its = body_items(body);
    lemma_flat_lines_items(lines(body), lines(body).len() as int);
    assert forall|i: int| 0 <= i < its.len() implies (#[trigger] its[i]).indent == its[0].indent by {
        assert(its[i].indent == 0);
        assert(its[0].indent == 0);
    }
    lemma_flat_views(its, mode, its.len() as int);
    let vs = checklist_views(its, mode, true, its.len() as int);
    assert(project_actions(body, None, mode, true) =~= vs);
    assert forall|i: int| 0 <= i < vs.len() implies (#[trigger] vs[i]).available == (!vs[i].completed
        && (mode == ActionMode::Serial ==> forall|m: int| 0 <= m < i ==> (#[trigger] vs[m]).completed)) by {
        assert forall|m: int| 0 <= m < i implies vs.take(i)[m] == #[trigger] vs[m] by {}
    }
}

} // verus!
