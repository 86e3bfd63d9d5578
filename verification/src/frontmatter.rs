//! Frontmatter: the `---` delimited block of `key: value` lines at the top of
//! a Markdown project file.

use vstd::prelude::*;

use crate::text::{
    chars_of, eq, find_char_from, find_from, has_prefix, lemma_find_from_range, lines, lines_of,
    slice, starts_with, string_of, trim, trimmed,
};

verus! {

/// Three dashes, the frontmatter delimiter.
pub open spec fn dashes() -> Seq<char> {
    seq!['-', '-', '-']
}

/// A leading byte order mark removed.
pub open spec fn strip_bom(s: Seq<char>) -> Seq<char> {
    if s.len() > 0 && s[0] == '\u{feff}' {
        s.drop_first()
    } else {
        s
    }
}

/// Every trailing `\r` removed (`str::trim_end_matches('\r')`).
pub open spec fn trim_end_cr(s: Seq<char>) -> Seq<char>
    decreases s.len(),
{
    if s.len() > 0 && s.last() == '\r' {
        trim_end_cr(s.drop_last())
    } else {
        s
    }
}


/// A line that closes the frontmatter: `---`, maybe followed by carriage returns.
pub open spec fn is_closing_line(line: Seq<char>) -> bool {
    trim_end_cr(line) == dashes()
}

/// The start of the first closing line at or after the line start `k`.
pub open spec fn closing_from(rest: Seq<char>, k: int) -> Option<int>
    decreases rest.len() - k,
{
    if k < 0 || k >= rest.len() {
        None
    } else {
        let e = find_from(rest, '\n', k);
        proof {
            lemma_find_from_range(rest, '\n', k);
        }
        if is_closing_line(rest.subrange(k, e)) {
            Some(k)
        } else if e >= rest.len() {
            None
        } else {
            closing_from(rest, e + 1)
        }
    }
}

/// Why a document has no usable frontmatter.
pub enum SplitFailure {
    NoFrontmatter,
    Malformed,
}

/// The frontmatter text and the body text of a document: the frontmatter is
/// what lies between the opening `---` and the first line that is `---`; the
/// body starts at the line feed that ends that line.
pub open spec fn split_document(text: Seq<char>) -> Result<(Seq<char>, Seq<char>), SplitFailure> {
    let t = strip_bom(text);
    if !starts_with(t, dashes()) {
        Err(SplitFailure::NoFrontmatter)
    } else {
        let rest = t.subrange(3, t.len() as int);
        if !(starts_with(rest, seq!['\n']) || starts_with(rest, seq!['\r', '\n'])) {
            Err(SplitFailure::Malformed)
        } else {
            match closing_from(rest, 0) {
                Some(k) => Ok(
                    (
                        rest.subrange(0, k),
                        rest.subrange(find_from(rest, '\n', k), rest.len() as int),
                    ),
                ),
                None => Err(SplitFailure::Malformed),
            }
        }
    }
}

fn strip_utf8_bom(text: &Vec<char>) -> (r: Vec<char>)
    ensures
        r@ == strip_bom(text@),
{
    if text.len() > 0 && text[0] == '\u{feff}' {
        slice(text, 1, text.len())
    } else {
        text.clone()
    }
}

fn is_closing(rest: &Vec<char>, k: usize, e: usize) -> (r: bool)
    requires
        k <= e <= rest.len(),
    ensures
        r == is_closing_line(rest@.subrange(k as int, e as int)),
{
    let mut end = e;
    while end > k && rest[end - 1] == '\r'
        invariant
            k <= end <= e <= rest.len(),
            trim_end_cr(rest@.subrange(k as int, e as int)) == trim_end_cr(
                rest@.subrange(k as int, end as int),
            ),
        decreases end,
    {
        assert(rest@.subrange(k as int, end as int).drop_last() =~= rest@.subrange(
            k as int,
            end - 1,
        ));
        end = end - 1;
    }
    let ghost l = rest@.subrange(k as int, end as int);
    if end > k {
        assert(l.last() == rest@[end - 1]);
    }
    end - k == 3 && rest[k] == '-' && rest[k + 1] == '-' && rest[k + 2] == '-' && {
        assert(l =~= dashes());
        true
    }
}

/// Split a markdown document into raw frontmatter text and body text.
pub fn split_frontmatter(text: &str) -> (r: Result<(String, String), &'static str>)
    ensures
        r is Ok <==> split_document(text@) is Ok,
        r matches Ok((fm, body)) ==> split_document(text@) == Ok::<_, SplitFailure>((fm@, body@)),
        r matches Err(reason) ==> (split_document(text@) matches Err(SplitFailure::NoFrontmatter)
            ==> reason == "No frontmatter"),
        r matches Err(reason) ==> (split_document(text@) matches Err(SplitFailure::Malformed)
            ==> reason == "Malformed frontmatter"),
{
    let chars = chars_of(text);
    match split_chars(&chars) {
        Ok((fm, body)) => Ok((string_of(&fm), string_of(&body))),
        Err(SplitFailure::NoFrontmatter) => Err("No frontmatter"),
        Err(SplitFailure::Malformed) => Err("Malformed frontmatter"),
    }
}

/// `split_frontmatter` over characters.
pub fn split_chars(text: &Vec<char>) -> (r: Result<(Vec<char>, Vec<char>), SplitFailure>)
    ensures
        match r {
            Ok((fm, body)) => split_document(text@) == Ok::<_, SplitFailure>((fm@, body@)),
            Err(SplitFailure::NoFrontmatter) => split_document(text@) matches Err(
                SplitFailure::NoFrontmatter,
            ),
            Err(SplitFailure::Malformed) => split_document(text@) matches Err(
                SplitFailure::Malformed,
            ),
        },
{
    let t = strip_utf8_bom(text);
    let open = vec!['-', '-', '-'];
    assert(open@ =~= dashes());
    if !has_prefix(&t, &open) {
        return Err(SplitFailure::NoFrontmatter);
    }
    let rest = slice(&t, 3, t.len());
    let lf = vec!['\n'];
    let crlf = vec!['\r', '\n'];
    assert(lf@ =~= seq!['\n']);
    assert(crlf@ =~= seq!['\r', '\n']);
    if !(has_prefix(&rest, &lf) || has_prefix(&rest, &crlf)) {
        return Err(SplitFailure::Malformed);
    }
    let mut offset: usize = 0;
    while offset < rest.len()
        invariant
            offset <= rest.len(),
            rest@ == strip_bom(text@).subrange(3, strip_bom(text@).len() as int),
            starts_with(strip_bom(text@), dashes()),
            starts_with(rest@, seq!['\n']) || starts_with(rest@, seq!['\r', '\n']),
            closing_from(rest@, 0) == closing_from(rest@, offset as int),
        decreases rest.len() - offset,
    {
        let line_end = find_char_from(&rest, '\n', offset);
        if is_closing(&rest, offset, line_end) {
            let fm = slice(&rest, 0, offset);
            let body = slice(&rest, line_end, rest.len());
            return Ok((fm, body));
        }
        if line_end == rest.len() {
            return Err(SplitFailure::Malformed);
        }
        offset = line_end + 1;
    }
    Err(SplitFailure::Malformed)
}


/// Every `\"` replaced by `"`, scanning left to right (`str::replace`).
pub open spec fn unescape_quotes(s: Seq<char>) -> Seq<char>
    decreases s.len(),
{
    if s.len() == 0 {
        s
    } else if s.len() >= 2 && s[0] == '\\' && s[1] == '"' {
        seq!['"'] + unescape_quotes(s.subrange(2, s.len() as int))
    } else {
        seq![s[0]] + unescape_quotes(s.drop_first())
    }
}

/// A raw value trimmed; a value in double quotes loses them and its `\"` escapes.
pub open spec fn value_of(raw: Seq<char>) -> Seq<char> {
    let v = trim(raw);
    if v.len() >= 2 && v[0] == '"' && v.last() == '"' {
        unescape_quotes(v.subrange(1, v.len() - 1))
    } else {
        v
    }
}

fn unescape(s: &Vec<char>) -> (r: Vec<char>)
    ensures
        r@ == unescape_quotes(s@),
{
    let mut r: Vec<char> = Vec::new();
    let mut i: usize = 0;
    assert(s@.subrange(0, s.len() as int) =~= s@);
    assert(r@ + unescape_quotes(s@) =~= unescape_quotes(s@));
    while i < s.len()
        invariant
            i <= s.len(),
            unescape_quotes(s@) == r@ + unescape_quotes(s@.subrange(i as int, s.len() as int)),
        decreases s.len() - i,
    {
        let ghost t = s@.subrange(i as int, s.len() as int);
        if i + 1 < s.len() && s[i] == '\\' && s[i + 1] == '"' {
            r.push('"');
            assert(t.subrange(2, t.len() as int) =~= s@.subrange(i + 2, s.len() as int));
            i = i + 2;
        } else {
            r.push(s[i]);
            assert(t.drop_first() =~= s@.subrange(i + 1, s.len() as int));
            i = i + 1;
        }
    }
    assert(s@.subrange(i as int, s.len() as int) =~= Seq::<char>::empty());
    r
}

fn parse_value(raw: &Vec<char>) -> (r: Vec<char>)
    ensures
        r@ == value_of(raw@),
{
    let v = trimmed(raw);
    if v.len() >= 2 && v[0] == '"' && v[v.len() - 1] == '"' {
        let inner = slice(&v, 1, v.len() - 1);
        unescape(&inner)
    } else {
        v
    }
}

/// The key and value a frontmatter line contributes, if any: blank lines,
/// `#` comments, lines without a colon and empty values contribute nothing.
pub open spec fn line_entry(line: Seq<char>) -> Option<(Seq<char>, Seq<char>)> {
    let t = trim(line);
    if t.len() == 0 || t[0] == '#' {
        None
    } else {
        let i = find_from(t, ':', 0);
        if i >= t.len() {
            None
        } else {
            let key = trim(t.subrange(0, i));
            let value = value_of(t.subrange(i + 1, t.len() as int));
            if value.len() == 0 {
                None
            } else {
                Some((key, value))
            }
        }
    }
}

/// The entries that a sequence of frontmatter lines contributes, in order.
pub open spec fn entries_of_lines(ls: Seq<Seq<char>>) -> Seq<(Seq<char>, Seq<char>)>
    decreases ls.len(),
{
    if ls.len() == 0 {
        Seq::empty()
    } else {
        match line_entry(ls.last()) {
            Some(e) => entries_of_lines(ls.drop_last()).push(e),
            None => entries_of_lines(ls.drop_last()),
        }
    }
}

/// Entries read into a map; a later entry for a key replaces an earlier one.
pub open spec fn entries_map(es: Seq<(Seq<char>, Seq<char>)>) -> Map<Seq<char>, Seq<char>>
    decreases es.len(),
{
    if es.len() == 0 {
        Map::empty()
    } else {
        entries_map(es.drop_last()).insert(es.last().0, es.last().1)
    }
}

/// The fields of a frontmatter text.
pub open spec fn fields_of(fm: Seq<char>) -> Map<Seq<char>, Seq<char>> {
    entries_map(entries_of_lines(lines(fm)))
}

/// The fields of a document that has frontmatter with both `title` and `status`.
pub open spec fn document_fields(text: Seq<char>) -> Option<Map<Seq<char>, Seq<char>>> {
    match split_document(text) {
        Ok((fm, _)) => {
            let m = fields_of(fm);
            if m.contains_key("title"@) && m.contains_key("status"@) {
                Some(m)
            } else {
                None
            }
        },
        Err(_) => None,
    }
}

/// Frontmatter fields, keyed by name.
pub struct Fields {
    entries: Vec<(String, String)>,
}

impl View for Fields {
    type V = Map<Seq<char>, Seq<char>>;

    closed spec fn view(&self) -> Map<Seq<char>, Seq<char>> {
        entries_map(self.entries@.map_values(|e: (String, String)| (e.0@, e.1@)))
    }
}

proof fn lemma_entries_map_last(es: Seq<(Seq<char>, Seq<char>)>, k: Seq<char>, i: int)
    requires
        0 <= i <= es.len(),
        forall|j: int| i <= j < es.len() ==> (#[trigger] es[j]).0 != k,
    ensures
        entries_map(es).contains_key(k) == entries_map(es.subrange(0, i)).contains_key(k),
        entries_map(es).contains_key(k) ==> entries_map(es)[k] == entries_map(
            es.subrange(0, i),
        )[k],
    decreases es.len() - i,
{
    if i < es.len() {
        assert(es.drop_last().subrange(0, i) =~= es.subrange(0, i));
        assert(es.last() == es[es.len() - 1]);
        lemma_entries_map_last(es.drop_last(), k, i);
    } else {
        assert(es.subrange(0, i) =~= es);
    }
}

impl Fields {
    /// The value of `key`, when the frontmatter has one.
    pub fn get_chars(&self, key: &Vec<char>) -> (r: Option<Vec<char>>)
        ensures
            r is Some <==> self@.contains_key(key@),
            r matches Some(v) ==> v@ == self@[key@],
    {
        let ghost es = self.entries@.map_values(|e: (String, String)| (e.0@, e.1@));
        let mut i = self.entries.len();
        while i > 0
            invariant
                i <= self.entries.len(),
                es == self.entries@.map_values(|e: (String, String)| (e.0@, e.1@)),
                forall|j: int| i <= j < es.len() ==> (#[trigger] es[j]).0 != key@,
            decreases i,
        {
            let k = chars_of(self.entries[i - 1].0.as_str());
            if eq(&k, key) {
                proof {
                    lemma_entries_map_last(es, key@, i as int);
                    let pre = es.subrange(0, i as int);
                    assert(pre.last() == es[i - 1]);
                }
                return Some(chars_of(self.entries[i - 1].1.as_str()));
            }
            i = i - 1;
        }
        proof {
            lemma_entries_map_last(es, key@, 0);
            assert(es.subrange(0, 0) =~= Seq::<(Seq<char>, Seq<char>)>::empty());
        }
        None
    }

    /// The value of `key`, when the frontmatter has one.
    pub fn get(&self, key: &str) -> (r: Option<String>)
        ensures
            r is Some <==> self@.contains_key(key@),
            r matches Some(v) ==> v@ == self@[key@],
    {
        let k = chars_of(key);
        match self.get_chars(&k) {
            Some(v) => Some(string_of(&v)),
            None => None,
        }
    }

    /// Whether the frontmatter has a value for `key`.
    pub fn contains_key(&self, key: &str) -> (r: bool)
        ensures
            r == self@.contains_key(key@),
    {
        self.get(key).is_some()
    }
}

fn line_entry_exec(line: &Vec<char>) -> (r: Option<(Vec<char>, Vec<char>)>)
    ensures
        match r {
            Some((k, v)) => line_entry(line@) == Some((k@, v@)),
            None => line_entry(line@) is None,
        },
{
    let t = trimmed(line);
    if t.len() == 0 || t[0] == '#' {
        return None;
    }
    let i = find_char_from(&t, ':', 0);
    if i == t.len() {
        return None;
    }
    let key_raw = slice(&t, 0, i);
    let key = trimmed(&key_raw);
    let value_raw = slice(&t, i + 1, t.len());
    let value = parse_value(&value_raw);
    if value.len() == 0 {
        None
    } else {
        Some((key, value))
    }
}

/// The fields of a document's frontmatter, whatever they are.
pub open spec fn frontmatter_fields(text: Seq<char>) -> Option<Map<Seq<char>, Seq<char>>> {
    match split_document(text) {
        Ok((fm, _)) => Some(fields_of(fm)),
        Err(_) => None,
    }
}

/// Parse simple `key: value` fields from frontmatter, without requiring any.
pub fn parse_frontmatter_fields(text: &str) -> (r: Option<Fields>)
    ensures
        r is Some <==> frontmatter_fields(text@) is Some,
        r matches Some(f) ==> frontmatter_fields(text@) == Some(f@),
{
    let chars = chars_of(text);
    let (fm, _) = match split_chars(&chars) {
        Ok(parts) => parts,
        Err(_) => return None,
    };
    let ls = lines_of(&fm);
    let ghost lsv = ls@.map_values(|l: Vec<char>| l@);
    let mut entries: Vec<(String, String)> = Vec::new();
    let mut i: usize = 0;
    while i < ls.len()
        invariant
            i <= ls.len(),
            lsv == ls@.map_values(|l: Vec<char>| l@),
            entries@.map_values(|e: (String, String)| (e.0@, e.1@)) == entries_of_lines(
                lsv.subrange(0, i as int),
            ),
        decreases ls.len() - i,
    {
        let ghost before = entries@.map_values(|e: (String, String)| (e.0@, e.1@));
        let entry = line_entry_exec(&ls[i]);
        proof {
            assert(lsv.subrange(0, i + 1).drop_last() =~= lsv.subrange(0, i as int));
            assert(lsv.subrange(0, i + 1).last() == lsv[i as int]);
        }
        match entry {
            Some((k, v)) => {
                entries.push((string_of(&k), string_of(&v)));
                assert(entries@.map_values(|e: (String, String)| (e.0@, e.1@)) =~= before.push(
                    (k@, v@),
                ));
            },
            None => {},
        }
        i = i + 1;
    }
    assert(lsv.subrange(0, ls.len() as int) =~= lsv);
    Some(Fields { entries })
}

/// Parse simple `key: value` fields from frontmatter; a document counts only
/// when it has both a `title` and a `status`.
pub fn parse_frontmatter(text: &str) -> (r: Option<Fields>)
    ensures
        r is Some <==> document_fields(text@) is Some,
        r matches Some(f) ==> document_fields(text@) == Some(f@),
{
    let fields = parse_frontmatter_fields(text)?;
    if fields.contains_key("title") && fields.contains_key("status") {
        Some(fields)
    } else {
        None
    }
}

proof fn lemma_closing_from_found(rest: Seq<char>, k0: int, k: int)
    requires
        0 <= k0,
        closing_from(rest, k0) == Some(k),
    ensures
        k0 <= k < rest.len(),
        is_closing_line(rest.subrange(k, find_from(rest, '\n', k))),
    decreases rest.len() - k0,
{
    let e = find_from(rest, '\n', k0);
    lemma_find_from_range(rest, '\n', k0);
    if !is_closing_line(rest.subrange(k0, e)) {
        lemma_closing_from_found(rest, e + 1, k);
    }
}

/// A document that splits is, after a leading byte order mark, `---`, the
/// frontmatter, a closing `---` line, then the body: the frontmatter starts
/// on a new line and the body is empty or starts with the line feed that
/// ends the closing line.
pub proof fn lemma_split_shape(text: Seq<char>)
    requires
        split_document(text) is Ok,
    ensures
        ({
            let (fm, body) = split_document(text)->Ok_0;
            &&& exists|c: Seq<char>| #[trigger] is_closing_line(c) && strip_bom(text) == dashes() + fm + c + body
            &&& starts_with(fm, seq!['\n']) || starts_with(fm, seq!['\r', '\n'])
            &&& body.len() == 0 || body[0] == '\n'
        }),
{
    let t = strip_bom(text);
    let rest = t.subrange(3, t.len() as int);
    let k = closing_from(rest, 0)->0;
    let (fm, body) = split_document(text)->Ok_0;
    lemma_closing_from_found(rest, 0, k);
    let e = find_from(rest, '\n', k);
    lemma_find_from_range(rest, '\n', k);
    let c = rest.subrange(k, e);
    assert(t.subrange(0, 3) =~= dashes());
    assert(t =~= dashes() + fm + c + body);
    lemma_find_from_range(rest, '\n', 0);
    if starts_with(rest, seq!['\n']) {
        assert(rest[0] == '\n');
        assert(find_from(rest, '\n', 0) == 0);
        assert(trim_end_cr(rest.subrange(0, 0)) =~= Seq::<char>::empty());
        assert(!is_closing_line(rest.subrange(0, 0)));
        lemma_closing_from_found(rest, 1, k);
        assert(fm.subrange(0, 1) =~= seq!['\n']);
    } else {
        assert(rest[0] == '\r' && rest[1] == '\n');
        assert(find_from(rest, '\n', 0) == 1) by {
            assert(find_from(rest, '\n', 1) == 1);
        }
        let first = rest.subrange(0, 1);
        assert(first.last() == '\r');
        assert(first.drop_last() =~= Seq::<char>::empty());
        assert(trim_end_cr(Seq::<char>::empty()) =~= Seq::<char>::empty());
        assert(trim_end_cr(first) =~= Seq::<char>::empty());
        assert(!is_closing_line(first));
        lemma_closing_from_found(rest, 2, k);
        assert(fm.subrange(0, 2) =~= seq!['\r', '\n']);
    }
}

proof fn lemma_entries_from_lines(ls: Seq<Seq<char>>)
    ensures
        forall|j: int|
            0 <= j < entries_of_lines(ls).len() ==> exists|i: int|
                0 <= i < ls.len() && line_entry(#[trigger] ls[i]) == Some(#[trigger] entries_of_lines(ls)[j]),
        forall|j: int| 0 <= j < entries_of_lines(ls).len() ==> (#[trigger] entries_of_lines(ls)[j]).1.len() > 0,
    decreases ls.len(),
{
    if ls.len() > 0 {
        let init = ls.drop_last();
        lemma_entries_from_lines(init);
        let es = entries_of_lines(ls);
        assert forall|j: int| 0 <= j < es.len() implies exists|i: int|
            0 <= i < ls.len() && line_entry(#[trigger] ls[i]) == Some(#[trigger] es[j]) by {
            if j < entries_of_lines(init).len() {
                let i = choose|i: int| 0 <= i < init.len() && line_entry(#[trigger] init[i]) == Some(entries_of_lines(init)[j]);
                assert(ls[i] == init[i]);
            } else {
                assert(line_entry(ls[ls.len() - 1]) == Some(es[j]));
            }
        }
        assert forall|j: int| 0 <= j < es.len() implies (#[trigger] es[j]).1.len() > 0 by {
            if j < entries_of_lines(init).len() {
                assert(es[j] == entries_of_lines(init)[j]);
            } else {
                assert(es[j] == line_entry(ls.last())->0);
            }
        }
    }
}

proof fn lemma_entries_map_from(es: Seq<(Seq<char>, Seq<char>)>)
    ensures
        forall|k: Seq<char>|
            #[trigger] entries_map(es).contains_key(k) ==> exists|j: int|
                0 <= j < es.len() && es[j] == (k, entries_map(es)[k]),
    decreases es.len(),
{
    if es.len() > 0 {
        lemma_entries_map_from(es.drop_last());
        assert forall|k: Seq<char>| #[trigger] entries_map(es).contains_key(k) implies exists|j: int|
            0 <= j < es.len() && es[j] == (k, entries_map(es)[k]) by {
            if k == es.last().0 {
                assert(es[es.len() - 1] == (k, entries_map(es)[k]));
            } else {
                let j = choose|j: int|
                    0 <= j < es.drop_last().len() && es.drop_last()[j] == (k, entries_map(es.drop_last())[k]);
                assert(es[j] == es.drop_last()[j]);
            }
        }
    }
}

/// Every field read from a frontmatter comes from one of its lines: a line
/// that is neither blank nor a `#` comment, whose key is the trimmed text
/// before its first `:` and whose value (one pair of surrounding double
/// quotes removed) is not empty.
pub proof fn lemma_fields_come_from_lines(fm: Seq<char>)
    ensures
        forall|k: Seq<char>|
            #[trigger] fields_of(fm).contains_key(k) ==> fields_of(fm)[k].len() > 0 && exists|i: int|
                0 <= i < lines(fm).len() && line_entry(#[trigger] lines(fm)[i]) == Some((k, fields_of(fm)[k])),
{
    let ls = lines(fm);
    let es = entries_of_lines(ls);
    lemma_entries_from_lines(ls);
    lemma_entries_map_from(es);
    assert forall|k: Seq<char>| #[trigger] fields_of(fm).contains_key(k) implies fields_of(fm)[k].len() > 0
        && exists|i: int| 0 <= i < ls.len() && line_entry(#[trigger] ls[i]) == Some((k, fields_of(fm)[k])) by {
        let j = choose|j: int| 0 <= j < es.len() && es[j] == (k, entries_map(es)[k]);
        assert(es[j].1.len() > 0);
        let i = choose|i: int| 0 <= i < ls.len() && line_entry(#[trigger] ls[i]) == Some(es[j]);
    }
}

} // verus!
