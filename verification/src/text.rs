//! Character-level text helpers shared by the parsers of this crate.
//!
//! Strings are handled as sequences of Unicode scalar values (`Seq<char>`),
//! which is also the view that `vstd` gives to `str` and `String`.

use vstd::prelude::*;

verus! {

/// The Unicode `White_Space` property of a character outside ASCII, as
/// `char::is_whitespace` reports it.
pub uninterp spec fn non_ascii_white_space(c: char) -> bool;

/// The Unicode `White_Space` property (`char::is_whitespace`): for ASCII
/// characters exactly the ones its documentation lists.
pub open spec fn is_white_space(c: char) -> bool {
    if (c as u32) < 128 {
        is_ascii_white_space(c)
    } else {
        non_ascii_white_space(c)
    }
}

/// The Unicode alphabetic-or-numeric property of a character outside ASCII,
/// as `char::is_alphanumeric` reports it.
pub uninterp spec fn non_ascii_alphanumeric(c: char) -> bool;

/// The Unicode alphabetic-or-numeric property (`char::is_alphanumeric`): for
/// ASCII characters exactly the letters and digits.
pub open spec fn is_alphanumeric_char(c: char) -> bool {
    if (c as u32) < 128 {
        is_ascii_alnum_char(c)
    } else {
        non_ascii_alphanumeric(c)
    }
}

/// The full Unicode lowercase mapping of a string, as `str::to_lowercase` computes it.
pub uninterp spec fn lowercase(s: Seq<char>) -> Seq<char>;

/// ASCII whitespace as listed by the documentation of `char::is_whitespace`.
pub open spec fn is_ascii_white_space(c: char) -> bool {
    c == ' ' || c == '\t' || c == '\n' || c == '\x0b' || c == '\x0c' || c == '\r'
}

pub open spec fn is_ascii_digit_char(c: char) -> bool {
    '0' <= c && c <= '9'
}

pub open spec fn is_ascii_lower_char(c: char) -> bool {
    'a' <= c && c <= 'z'
}

pub open spec fn is_ascii_upper_char(c: char) -> bool {
    'A' <= c && c <= 'Z'
}

pub open spec fn is_ascii_alnum_char(c: char) -> bool {
    is_ascii_digit_char(c) || is_ascii_lower_char(c) || is_ascii_upper_char(c)
}

/// Calls `char::is_whitespace`: the result is the `White_Space` property of
/// `c`; for ASCII characters the documentation lists exactly space, tab, line
/// feed, vertical tab, form feed and carriage return; for the others it is
/// named `non_ascii_white_space`.
#[verifier::external_body]
pub(crate) fn char_is_whitespace(c: char) -> (r: bool)
    ensures
        (c as u32) < 128 ==> (r == is_ascii_white_space(c)),
        (c as u32) >= 128 ==> (r == non_ascii_white_space(c)),
{
    c.is_whitespace()
}

/// Calls `char::is_alphanumeric`: the result is the alphabetic-or-numeric
/// property of `c`; for ASCII characters these are exactly the letters and
/// digits; for the others it is named `non_ascii_alphanumeric`.
#[verifier::external_body]
pub(crate) fn char_is_alphanumeric(c: char) -> (r: bool)
    ensures
        (c as u32) < 128 ==> (r == is_ascii_alnum_char(c)),
        (c as u32) >= 128 ==> (r == non_ascii_alphanumeric(c)),
{
    c.is_alphanumeric()
}

/// Calls `str::to_lowercase` on the string made of `s`; the result is named
/// `lowercase`, a function of the characters alone. An ASCII string maps
/// letter by letter to its ASCII lowercase.
#[verifier::external_body]
pub(crate) fn to_lowercase(s: &Vec<char>) -> (r: Vec<char>)
    ensures
        r@ == lowercase(s@),
        (forall|i: int| 0 <= i < s@.len() ==> (#[trigger] s@[i] as u32) < 128) ==> r@
            == crate::routine::ascii_lowered(s@),
{
    let text: String = s.iter().collect();
    text.to_lowercase().chars().collect()
}

/// Calls `str::chars`: the characters of `s` in order; like every vector of
/// four-byte characters, the result holds at most `isize::MAX` bytes.
#[verifier::external_body]
pub(crate) fn chars_of(s: &str) -> (r: Vec<char>)
    ensures
        r@ == s@,
        r.len() <= isize::MAX / 4,
{
    s.chars().collect()
}

/// Calls `FromIterator<char>` for `String`: the string made of the characters of `v`.
#[verifier::external_body]
pub(crate) fn string_of(v: &Vec<char>) -> (r: String)
    ensures
        r@ == v@,
{
    v.iter().collect()
}

/// Leading characters removed while they are whitespace (`str::trim_start`).
pub open spec fn trim_start(s: Seq<char>) -> Seq<char>
    decreases s.len(),
{
    if s.len() > 0 && is_white_space(s[0]) {
        trim_start(s.drop_first())
    } else {
        s
    }
}

/// Trailing characters removed while they are whitespace (`str::trim_end`).
pub open spec fn trim_end(s: Seq<char>) -> Seq<char>
    decreases s.len(),
{
    if s.len() > 0 && is_white_space(s.last()) {
        trim_end(s.drop_last())
    } else {
        s
    }
}

/// Whitespace removed at both ends (`str::trim`).
pub open spec fn trim(s: Seq<char>) -> Seq<char> {
    trim_end(trim_start(s))
}

/// The first index at or after `k` that holds `c`, or the length when there is none.
pub open spec fn find_from(s: Seq<char>, c: char, k: int) -> int
    decreases s.len() - k,
{
    if k < 0 || k >= s.len() {
        s.len() as int
    } else if s[k] == c {
        k
    } else {
        find_from(s, c, k + 1)
    }
}

pub proof fn lemma_find_from_range(s: Seq<char>, c: char, k: int)
    requires
        0 <= k,
    ensures
        k <= find_from(s, c, k) || find_from(s, c, k) == s.len(),
        find_from(s, c, k) <= s.len(),
        find_from(s, c, k) < s.len() ==> s[find_from(s, c, k)] == c,
        forall|j: int| k <= j < find_from(s, c, k) ==> s[j] != c,
    decreases s.len() - k,
{
    if k < s.len() && s[k] != c {
        lemma_find_from_range(s, c, k + 1);
    }
}

/// The pieces of `s[k..]` between occurrences of `c` (`str::split` with a char).
pub open spec fn pieces_from(s: Seq<char>, c: char, k: int) -> Seq<Seq<char>>
    decreases s.len() - k,
{
    if k < 0 || k > s.len() {
        Seq::empty()
    } else {
        let e = find_from(s, c, k);
        if e >= s.len() {
            seq![s.subrange(k, s.len() as int)]
        } else {
            proof {
                lemma_find_from_range(s, c, k);
            }
            seq![s.subrange(k, e)].add(pieces_from(s, c, e + 1))
        }
    }
}

/// `str::split(c)`: always at least one piece.
pub open spec fn split_on(s: Seq<char>, c: char) -> Seq<Seq<char>> {
    pieces_from(s, c, 0)
}

/// One `\r` removed at the end, when present.
pub open spec fn strip_cr(s: Seq<char>) -> Seq<char> {
    if s.len() > 0 && s.last() == '\r' {
        s.drop_last()
    } else {
        s
    }
}

/// The lines of `s[k..]` as `str::lines` yields them: split at `\n`, one `\r`
/// before a `\n` dropped, no final empty line.
pub open spec fn c_newline() -> char {
    '\n'
}

pub open spec fn lines_from(s: Seq<char>, k: int) -> Seq<Seq<char>>
    decreases s.len() - k,
{
    if k < 0 || k >= s.len() {
        Seq::empty()
    } else {
        let e = find_from(s, '\n', k);
        if e >= s.len() {
            seq![s.subrange(k, s.len() as int)]
        } else {
            proof {
                lemma_find_from_range(s, c_newline(), k);
            }
            seq![strip_cr(s.subrange(k, e))].add(lines_from(s, e + 1))
        }
    }
}

pub open spec fn lines(s: Seq<char>) -> Seq<Seq<char>> {
    lines_from(s, 0)
}

/// Join with a separator (`[T]::join`).
pub open spec fn join(parts: Seq<Seq<char>>, sep: Seq<char>) -> Seq<char>
    decreases parts.len(),
{
    if parts.len() == 0 {
        Seq::empty()
    } else if parts.len() == 1 {
        parts[0]
    } else {
        join(parts.drop_last(), sep).add(sep).add(parts.last())
    }
}

pub open spec fn starts_with(s: Seq<char>, p: Seq<char>) -> bool {
    p.len() <= s.len() && s.subrange(0, p.len() as int) == p
}

pub open spec fn ends_with(s: Seq<char>, p: Seq<char>) -> bool {
    p.len() <= s.len() && s.subrange(s.len() - p.len(), s.len() as int) == p
}


/// A copy of `v[start..end]`.
pub fn slice(v: &Vec<char>, start: usize, end: usize) -> (r: Vec<char>)
    requires
        start <= end <= v.len(),
    ensures
        r@ == v@.subrange(start as int, end as int),
{
    let mut r: Vec<char> = Vec::new();
    let mut i: usize = start;
    while i < end
        invariant
            start <= i <= end <= v.len(),
            r@ == v@.subrange(start as int, i as int),
        decreases end - i,
    {
        r.push(v[i]);
        i = i + 1;
    }
    r
}

/// Characters of `b` appended to `a`.
pub fn append(a: &mut Vec<char>, b: &Vec<char>)
    ensures
        final(a)@ == old(a)@ + b@,
{
    let mut i: usize = 0;
    while i < b.len()
        invariant
            i <= b.len(),
            a@ == old(a)@ + b@.subrange(0, i as int),
        decreases b.len() - i,
    {
        a.push(b[i]);
        i = i + 1;
        assert(b@.subrange(0, i as int) == b@.subrange(0, i - 1) + seq![b@[i - 1]]);
    }
    assert(b@.subrange(0, b.len() as int) == b@);
}

/// `a` followed by `b`, as a new vector.
pub fn concat(a: &Vec<char>, b: &Vec<char>) -> (r: Vec<char>)
    ensures
        r@ == a@ + b@,
{
    let mut r = a.clone();
    append(&mut r, b);
    r
}

/// Character-wise equality.
pub fn eq(a: &Vec<char>, b: &Vec<char>) -> (r: bool)
    ensures
        r == (a@ == b@),
{
    if a.len() != b.len() {
        return false;
    }
    let mut i: usize = 0;
    while i < a.len()
        invariant
            a.len() == b.len(),
            i <= a.len(),
            forall|j: int| 0 <= j < i ==> a@[j] == b@[j],
        decreases a.len() - i,
    {
        if a[i] != b[i] {
            return false;
        }
        i = i + 1;
    }
    assert(a@ =~= b@);
    true
}

/// `s[at..]` begins with `p`.
pub fn has_at(s: &Vec<char>, at: usize, p: &Vec<char>) -> (r: bool)
    requires
        at <= s.len(),
    ensures
        r == starts_with(s@.subrange(at as int, s.len() as int), p@),
{
    if p.len() > s.len() - at {
        return false;
    }
    let mut i: usize = 0;
    while i < p.len()
        invariant
            at + p.len() <= s.len(),
            i <= p.len(),
            forall|j: int| 0 <= j < i ==> s@[at + j] == p@[j],
        decreases p.len() - i,
    {
        if s[at + i] != p[i] {
            assert(s@.subrange(at as int, s.len() as int).subrange(0, p.len() as int)[i as int]
                != p@[i as int]);
            return false;
        }
        i = i + 1;
    }
    assert(s@.subrange(at as int, s.len() as int).subrange(0, p.len() as int) =~= p@);
    true
}

/// `s` begins with `p` (`str::starts_with`).
pub fn has_prefix(s: &Vec<char>, p: &Vec<char>) -> (r: bool)
    ensures
        r == starts_with(s@, p@),
{
    let r = has_at(s, 0, p);
    assert(s@.subrange(0, s.len() as int) =~= s@);
    r
}

/// `s` ends with `p` (`str::ends_with`).
pub fn has_suffix(s: &Vec<char>, p: &Vec<char>) -> (r: bool)
    ensures
        r == ends_with(s@, p@),
{
    if p.len() > s.len() {
        return false;
    }
    let r = has_at(s, s.len() - p.len(), p);
    assert(s@.subrange(s.len() - p.len(), s.len() as int).subrange(0, p.len() as int)
        =~= s@.subrange(s.len() - p.len(), s.len() as int));
    r
}

pub proof fn lemma_trim_start_skip(s: Seq<char>, i: int)
    requires
        0 <= i <= s.len(),
        forall|j: int| 0 <= j < i ==> is_white_space(#[trigger] s[j]),
    ensures
        trim_start(s) == trim_start(s.subrange(i, s.len() as int)),
    decreases i,
{
    if i > 0 {
        assert(s.drop_first() =~= s.subrange(1, s.len() as int));
        lemma_trim_start_skip(s.drop_first(), i - 1);
        assert(s.drop_first().subrange(i - 1, s.drop_first().len() as int) =~= s.subrange(
            i,
            s.len() as int,
        ));
    } else {
        assert(s.subrange(0, s.len() as int) =~= s);
    }
}

pub proof fn lemma_trim_end_skip(s: Seq<char>, i: int)
    requires
        0 <= i <= s.len(),
        forall|j: int| i <= j < s.len() ==> is_white_space(#[trigger] s[j]),
    ensures
        trim_end(s) == trim_end(s.subrange(0, i)),
    decreases s.len() - i,
{
    if i < s.len() {
        assert(s.drop_last() =~= s.subrange(0, s.len() - 1));
        lemma_trim_end_skip(s.drop_last(), i);
        assert(s.drop_last().subrange(0, i) =~= s.subrange(0, i));
    } else {
        assert(s.subrange(0, i) =~= s);
    }
}

/// The number of leading whitespace characters.
pub fn leading_white_space(s: &Vec<char>) -> (i: usize)
    ensures
        i <= s.len(),
        trim_start(s@) == s@.subrange(i as int, s.len() as int),
        forall|j: int| 0 <= j < i ==> is_white_space(#[trigger] s@[j]),
{
    let mut i: usize = 0;
    while i < s.len() && char_is_whitespace(s[i])
        invariant
            i <= s.len(),
            forall|j: int| 0 <= j < i ==> is_white_space(#[trigger] s@[j]),
        decreases s.len() - i,
    {
        i = i + 1;
    }
    proof {
        lemma_trim_start_skip(s@, i as int);
        let t = s@.subrange(i as int, s.len() as int);
        if t.len() > 0 {
            assert(t[0] == s@[i as int]);
        }
    }
    i
}

/// The length left once trailing whitespace is removed.
pub fn kept_before_trailing_white_space(s: &Vec<char>) -> (i: usize)
    ensures
        i <= s.len(),
        trim_end(s@) == s@.subrange(0, i as int),
        forall|j: int| i <= j < s.len() ==> is_white_space(#[trigger] s@[j]),
{
    let mut i: usize = s.len();
    while i > 0 && char_is_whitespace(s[i - 1])
        invariant
            i <= s.len(),
            forall|j: int| i <= j < s.len() ==> is_white_space(#[trigger] s@[j]),
        decreases i,
    {
        i = i - 1;
    }
    proof {
        lemma_trim_end_skip(s@, i as int);
        let t = s@.subrange(0, i as int);
        if t.len() > 0 {
            assert(t.last() == s@[i - 1]);
        }
    }
    i
}

/// `str::trim_start`.
pub fn trimmed_start(s: &Vec<char>) -> (r: Vec<char>)
    ensures
        r@ == trim_start(s@),
{
    let i = leading_white_space(s);
    slice(s, i, s.len())
}

/// `str::trim_end`.
pub fn trimmed_end(s: &Vec<char>) -> (r: Vec<char>)
    ensures
        r@ == trim_end(s@),
{
    let i = kept_before_trailing_white_space(s);
    slice(s, 0, i)
}

/// `str::trim`.
pub fn trimmed(s: &Vec<char>) -> (r: Vec<char>)
    ensures
        r@ == trim(s@),
{
    let t = trimmed_start(s);
    trimmed_end(&t)
}

/// The first index at or after `k` holding `c`, or the length.
pub fn find_char_from(s: &Vec<char>, c: char, k: usize) -> (r: usize)
    requires
        k <= s.len(),
    ensures
        r as int == find_from(s@, c, k as int),
        k <= r <= s.len(),
        r < s.len() ==> s@[r as int] == c,
        forall|j: int| k <= j < r ==> s@[j] != c,
{
    let mut i: usize = k;
    while i < s.len() && s[i] != c
        invariant
            k <= i <= s.len(),
            find_from(s@, c, k as int) == find_from(s@, c, i as int),
            forall|j: int| k <= j < i ==> s@[j] != c,
        decreases s.len() - i,
    {
        i = i + 1;
    }
    i
}

/// `str::lines`.
pub fn lines_of(s: &Vec<char>) -> (r: Vec<Vec<char>>)
    ensures
        r@.map_values(|l: Vec<char>| l@) == lines(s@),
        forall|i: int| 0 <= i < r.len() ==> (#[trigger] r@[i]).len() <= s.len(),
        r.len() <= s.len(),
{
    let mut r: Vec<Vec<char>> = Vec::new();
    let mut k: usize = 0;
    while k < s.len()
        invariant
            k <= s.len(),
            r@.map_values(|l: Vec<char>| l@) + lines_from(s@, k as int) == lines(s@),
            forall|i: int| 0 <= i < r.len() ==> (#[trigger] r@[i]).len() <= s.len(),
            r.len() <= k,
        decreases s.len() - k,
    {
        let e = find_char_from(s, '\n', k);
        let ghost before = r@.map_values(|l: Vec<char>| l@);
        if e == s.len() {
            let piece = slice(s, k, s.len());
            r.push(piece);
            assert(lines_from(s@, s.len() as int) =~= Seq::<Seq<char>>::empty());
            assert(r@.map_values(|l: Vec<char>| l@) =~= before.push(piece@));
            k = s.len();
        } else {
            let mut piece = slice(s, k, e);
            if piece.len() > 0 && piece[piece.len() - 1] == '\r' {
                piece.pop();
            }
            r.push(piece);
            assert(r@.map_values(|l: Vec<char>| l@) =~= before.push(piece@));
            k = e + 1;
        }
    }
    assert(lines_from(s@, k as int) =~= Seq::<Seq<char>>::empty());
    assert(r@.map_values(|l: Vec<char>| l@) + Seq::<Seq<char>>::empty() =~= r@.map_values(
        |l: Vec<char>| l@,
    ));
    r
}

/// `str::split(c)`.
pub fn split_char(s: &Vec<char>, c: char) -> (r: Vec<Vec<char>>)
    ensures
        r@.map_values(|l: Vec<char>| l@) == split_on(s@, c),
        r.len() >= 1,
{
    let mut r: Vec<Vec<char>> = Vec::new();
    let mut k: usize = 0;
    loop
        invariant
            k <= s.len(),
            r@.map_values(|l: Vec<char>| l@) + pieces_from(s@, c, k as int) == split_on(s@, c),
        decreases s.len() - k,
    {
        let e = find_char_from(s, c, k);
        let ghost before = r@.map_values(|l: Vec<char>| l@);
        let piece = slice(s, k, e);
        r.push(piece);
        assert(r@.map_values(|l: Vec<char>| l@) =~= before.push(piece@));
        if e == s.len() {
            assert(r@.map_values(|l: Vec<char>| l@) =~= split_on(s@, c));
            return r;
        }
        k = e + 1;
    }
}

/// `[..].join(sep)`.
pub fn join_with(parts: &Vec<Vec<char>>, sep: &Vec<char>) -> (r: Vec<char>)
    ensures
        r@ == join(parts@.map_values(|l: Vec<char>| l@), sep@),
{
    let ghost ps = parts@.map_values(|l: Vec<char>| l@);
    let mut r: Vec<char> = Vec::new();
    let mut i: usize = 0;
    while i < parts.len()
        invariant
            i <= parts.len(),
            ps == parts@.map_values(|l: Vec<char>| l@),
            r@ == join(ps.subrange(0, i as int), sep@),
        decreases parts.len() - i,
    {
        if i > 0 {
            append(&mut r, sep);
        }
        append(&mut r, &parts[i]);
        proof {
            let p2 = ps.subrange(0, i + 1);
            assert(p2.drop_last() =~= ps.subrange(0, i as int));
            if i == 0 {
                assert(join(ps.subrange(0, 0), sep@) =~= Seq::<char>::empty());
            }
        }
        i = i + 1;
    }
    assert(ps.subrange(0, parts.len() as int) =~= ps);
    r
}


// ---------------------------------------------------------------------------
// Lexicographic order (the order of `String`, which is that of code points)
// ---------------------------------------------------------------------------

/// `a` sorts strictly before `b`.
pub open spec fn lex_lt(a: Seq<char>, b: Seq<char>) -> bool
    decreases a.len(),
{
    if a.len() == 0 {
        b.len() > 0
    } else if b.len() == 0 {
        false
    } else if a[0] != b[0] {
        a[0] < b[0]
    } else {
        lex_lt(a.drop_first(), b.drop_first())
    }
}

pub proof fn lemma_lex_irreflexive(a: Seq<char>)
    ensures
        !lex_lt(a, a),
    decreases a.len(),
{
    if a.len() > 0 {
        lemma_lex_irreflexive(a.drop_first());
    }
}

pub proof fn lemma_lex_total(a: Seq<char>, b: Seq<char>)
    ensures
        a != b ==> lex_lt(a, b) || lex_lt(b, a),
        !(lex_lt(a, b) && lex_lt(b, a)),
    decreases a.len(),
{
    if a.len() > 0 && b.len() > 0 && a[0] == b[0] {
        lemma_lex_total(a.drop_first(), b.drop_first());
        if a.drop_first() == b.drop_first() {
            assert(a =~= seq![a[0]] + a.drop_first());
            assert(b =~= seq![b[0]] + b.drop_first());
        }
    }
    if a.len() == 0 && b.len() == 0 {
        assert(a =~= b);
    }
}

pub proof fn lemma_lex_transitive(a: Seq<char>, b: Seq<char>, c: Seq<char>)
    requires
        lex_lt(a, b),
        lex_lt(b, c),
    ensures
        lex_lt(a, c),
    decreases a.len(),
{
    if a.len() > 0 && b.len() > 0 && c.len() > 0 && a[0] == b[0] && b[0] == c[0] {
        lemma_lex_transitive(a.drop_first(), b.drop_first(), c.drop_first());
    }
}

/// Strictly increasing: sorted without repeats.
pub open spec fn strictly_sorted(s: Seq<Seq<char>>) -> bool {
    forall|i: int, j: int| 0 <= i < j < s.len() ==> lex_lt(#[trigger] s[i], #[trigger] s[j])
}

/// Whether `a` sorts strictly before `b`.
pub fn lex_less(a: &Vec<char>, b: &Vec<char>) -> (r: bool)
    ensures
        r == lex_lt(a@, b@),
{
    let mut i: usize = 0;
    assert(a@.subrange(0, a.len() as int) =~= a@);
    assert(b@.subrange(0, b.len() as int) =~= b@);
    while i < a.len() && i < b.len() && a[i] == b[i]
        invariant
            i <= a.len(),
            i <= b.len(),
            lex_lt(a@, b@) == lex_lt(a@.subrange(i as int, a.len() as int), b@.subrange(
                i as int,
                b.len() as int,
            )),
        decreases a.len() - i,
    {
        let ghost sa = a@.subrange(i as int, a.len() as int);
        let ghost sb = b@.subrange(i as int, b.len() as int);
        assert(sa.drop_first() =~= a@.subrange(i + 1, a.len() as int));
        assert(sb.drop_first() =~= b@.subrange(i + 1, b.len() as int));
        i = i + 1;
    }
    let ghost sa = a@.subrange(i as int, a.len() as int);
    let ghost sb = b@.subrange(i as int, b.len() as int);
    if i == a.len() {
        i < b.len()
    } else if i == b.len() {
        false
    } else {
        assert(sa[0] == a@[i as int] && sb[0] == b@[i as int]);
        a[i] < b[i]
    }
}

/// Add `x` to a strictly sorted list unless it is already there.
pub fn insert_sorted(v: &mut Vec<Vec<char>>, x: Vec<char>)
    requires
        strictly_sorted(old(v)@.map_values(|e: Vec<char>| e@)),
    ensures
        strictly_sorted(final(v)@.map_values(|e: Vec<char>| e@)),
        final(v)@.map_values(|e: Vec<char>| e@).to_set() == old(v)@.map_values(
            |e: Vec<char>| e@,
        ).to_set().insert(x@),
{
    let ghost s = v@.map_values(|e: Vec<char>| e@);
    let mut k: usize = 0;
    while k < v.len() && lex_less(&v[k], &x)
        invariant
            k <= v.len(),
            s == v@.map_values(|e: Vec<char>| e@),
            forall|i: int| 0 <= i < k ==> lex_lt(#[trigger] s[i], x@),
        decreases v.len() - k,
    {
        k = k + 1;
    }
    if k < v.len() && eq(&v[k], &x) {
        assert(s.to_set().insert(x@) =~= s.to_set()) by {
            assert(s.contains(s[k as int]));
        }
        return;
    }
    let ghost xv = x@;
    v.insert(k, x);
    let ghost t = v@.map_values(|e: Vec<char>| e@);
    assert(t =~= s.insert(k as int, xv));
    proof {
        if k < s.len() {
            lemma_lex_total(s[k as int], xv);
        }
        assert forall|i: int, j: int| 0 <= i < j < t.len() implies lex_lt(#[trigger] t[i], #[trigger] t[j]) by {
            if j < k {
            } else if j == k {
            } else if i < k {
                lemma_lex_transitive(s[i], xv, s[k as int]);
                if j - 1 > k {
                    lemma_lex_transitive(s[i], s[k as int], s[j - 1]);
                }
            } else if i == k {
                if j - 1 > k {
                    lemma_lex_transitive(xv, s[k as int], s[j - 1]);
                }
            } else {
            }
        }
        assert forall|y: Seq<char>| t.to_set().contains(y) <==> s.to_set().insert(xv).contains(y) by {
            if t.to_set().contains(y) {
                let i = choose|i: int| 0 <= i < t.len() && t[i] == y;
                if i < k {
                    assert(s.contains(s[i]));
                } else if i > k {
                    assert(s.contains(s[i - 1]));
                }
            }
            if s.to_set().insert(xv).contains(y) {
                if y == xv {
                    assert(t[k as int] == xv);
                } else {
                    let i = choose|i: int| 0 <= i < s.len() && s[i] == y;
                    if i < k {
                        assert(t[i] == y);
                    } else {
                        assert(t[i + 1] == y);
                    }
                }
            }
        }
        assert(t.to_set() =~= s.to_set().insert(xv));
    }
}

} // verus!
