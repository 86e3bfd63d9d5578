//! Names of new projects and tracks: slugs, name validation, collision-free
//! file names, project paths and the text of a new project file.

use vstd::prelude::*;

use unicode_normalization::UnicodeNormalization;

use crate::project_file::{
    assembled, format_value_chars, formatted_value, normalized_body, ProjectFileError,
};
use crate::text::{
    append, chars_of, eq, is_ascii_digit_char, is_ascii_lower_char, split_on, string_of,
};

verus! {

// ---------------------------------------------------------------------------
// Decimal numbers
// ---------------------------------------------------------------------------

pub open spec fn digit_char(d: int) -> char {
    if d == 0 {
        '0'
    } else if d == 1 {
        '1'
    } else if d == 2 {
        '2'
    } else if d == 3 {
        '3'
    } else if d == 4 {
        '4'
    } else if d == 5 {
        '5'
    } else if d == 6 {
        '6'
    } else if d == 7 {
        '7'
    } else if d == 8 {
        '8'
    } else {
        '9'
    }
}

/// The decimal digits of `n`, most significant first, without leading zeros.
pub open spec fn decimal(n: nat) -> Seq<char>
    decreases n,
{
    if n < 10 {
        seq![digit_char(n as int)]
    } else {
        decimal(n / 10).push(digit_char((n % 10) as int))
    }
}

proof fn lemma_decimal_len(n: nat)
    ensures
        decimal(n).len() >= 1,
        decimal(n).len() == 1 <==> n < 10,
    decreases n,
{
    if n >= 10 {
        lemma_decimal_len(n / 10);
    }
}

proof fn lemma_digit_injective(x: int, y: int)
    requires
        0 <= x < 10,
        0 <= y < 10,
        digit_char(x) == digit_char(y),
    ensures
        x == y,
{
}

/// Different numbers have different decimal forms.
pub proof fn lemma_decimal_injective(a: nat, b: nat)
    requires
        decimal(a) == decimal(b),
    ensures
        a == b,
    decreases a,
{
    lemma_decimal_len(a);
    lemma_decimal_len(b);
    if a >= 10 {
        assert(b >= 10);
        let da = decimal(a);
        let db = decimal(b);
        assert(da.last() == db.last());
        assert(da.drop_last() =~= decimal(a / 10));
        assert(db.drop_last() =~= decimal(b / 10));
        lemma_decimal_injective(a / 10, b / 10);
        lemma_digit_injective((a % 10) as int, (b % 10) as int);
        assert(a == 10 * (a / 10) + a % 10);
        assert(b == 10 * (b / 10) + b % 10);
    } else {
        assert(b < 10);
        assert(decimal(a) == seq![digit_char(a as int)]);
        assert(decimal(b) == seq![digit_char(b as int)]);
        assert(decimal(a)[0] == decimal(b)[0]);
        assert(digit_char(a as int) == decimal(a)[0]);
        assert(digit_char(b as int) == decimal(b)[0]);
        lemma_digit_injective(a as int, b as int);
    }
}

fn digit(d: u128) -> (c: char)
    requires
        d < 10,
    ensures
        c == digit_char(d as int),
{
    if d == 0 {
        '0'
    } else if d == 1 {
        '1'
    } else if d == 2 {
        '2'
    } else if d == 3 {
        '3'
    } else if d == 4 {
        '4'
    } else if d == 5 {
        '5'
    } else if d == 6 {
        '6'
    } else if d == 7 {
        '7'
    } else if d == 8 {
        '8'
    } else {
        '9'
    }
}

/// The decimal digits of `n`.
pub fn decimal_chars(n: u128) -> (r: Vec<char>)
    ensures
        r@ == decimal(n as nat),
    decreases n,
{
    if n < 10 {
        let r = vec![digit(n)];
        assert(r@ =~= decimal(n as nat));
        r
    } else {
        let mut r = decimal_chars(n / 10);
        r.push(digit(n % 10));
        r
    }
}

// ---------------------------------------------------------------------------
// Names
// ---------------------------------------------------------------------------

/// A name for a file or a track: lowercase ASCII letters, digits and
/// hyphens, not empty, without a hyphen at either end or two in a row.
pub open spec fn valid_name(s: Seq<char>) -> bool {
    &&& s.len() > 0
    &&& s[0] != '-'
    &&& s.last() != '-'
    &&& forall|i: int| 0 <= i < s.len() - 1 ==> !(#[trigger] s[i] == '-' && s[i + 1] == '-')
    &&& forall|i: int|
        0 <= i < s.len() ==> is_ascii_lower_char(#[trigger] s[i]) || is_ascii_digit_char(s[i])
            || s[i] == '-'
}

fn is_valid_name(s: &Vec<char>) -> (r: bool)
    ensures
        r == valid_name(s@),
{
    if s.len() == 0 || s[0] == '-' || s[s.len() - 1] == '-' {
        return false;
    }
    let mut i: usize = 0;
    while i < s.len()
        invariant
            i <= s.len(),
            s.len() > 0,
            forall|j: int| 0 <= j < i && j < s.len() - 1 ==> !(#[trigger] s@[j] == '-' && s@[j + 1]
                == '-'),
            forall|j: int|
                0 <= j < i ==> is_ascii_lower_char(#[trigger] s@[j]) || is_ascii_digit_char(s@[j])
                    || s@[j] == '-',
        decreases s.len() - i,
    {
        let c = s[i];
        if !(('a' <= c && c <= 'z') || ('0' <= c && c <= '9') || c == '-') {
            return false;
        }
        if i + 1 < s.len() && c == '-' && s[i + 1] == '-' {
            return false;
        }
        i = i + 1;
    }
    true
}

/// Check a name used in a file name or as a track: the error names its kind.
pub fn validate_name(kind: &'static str, name: &str) -> (r: Result<(), ProjectFileError>)
    ensures
        r is Ok <==> valid_name(name@),
        r matches Err(e) ==> e matches ProjectFileError::InvalidName { kind: k, name: n } && k
            == kind && n@ == name@,
{
    let n = chars_of(name);
    if is_valid_name(&n) {
        Ok(())
    } else {
        Err(ProjectFileError::InvalidName { kind, name: string_of(&n) })
    }
}

/// The check a new track's name passes: a valid name that does not start
/// with `.` or `_` (directories so named are not discovered as tracks).
pub fn check_track_name(name: &str) -> (r: Result<(), ProjectFileError>)
    ensures
        r is Ok <==> valid_name(name@) && !(name@.len() > 0 && (name@[0] == '.' || name@[0]
            == '_')),
        r matches Err(e) ==> e matches ProjectFileError::InvalidName { kind: k, name: n } && k
            == "track name" && n@ == name@,
{
    validate_name("track name", name)?;
    let n = chars_of(name);
    if n.len() > 0 && (n[0] == '.' || n[0] == '_') {
        return Err(ProjectFileError::InvalidName { kind: "track name", name: string_of(&n) });
    }
    Ok(())
}

// ---------------------------------------------------------------------------
// Slugs
// ---------------------------------------------------------------------------

/// The compatibility decomposition (NFKD) of a string, as the
/// `unicode-normalization` crate computes it.
pub uninterp spec fn nfkd(s: Seq<char>) -> Seq<char>;

/// The Unicode combining-mark property (`General_Category` M*), as the
/// `unicode-normalization` crate reports it.
pub uninterp spec fn combining_mark(c: char) -> bool;

/// Calls `UnicodeNormalization::nfkd` on `s` and collects the characters;
/// the result is named `nfkd`, a function of the characters of `s` alone.
#[verifier::external_body]
fn decompose_compatible(s: &str) -> (r: Vec<char>)
    ensures
        r@ == nfkd(s@),
{
    s.nfkd().collect()
}

/// Calls `unicode_normalization::char::is_combining_mark`; the result is
/// named `combining_mark`, a function of `c` alone.
#[verifier::external_body]
fn is_combining_mark(c: char) -> (r: bool)
    ensures
        r == combining_mark(c),
{
    unicode_normalization::char::is_combining_mark(c)
}

/// `char::to_ascii_lowercase`.
pub open spec fn ascii_lower(c: char) -> char {
    if 'A' <= c && c <= 'Z' {
        ((c as int) + 32) as char
    } else {
        c
    }
}

fn to_ascii_lower(c: char) -> (r: char)
    ensures
        r == ascii_lower(c),
{
    if 'A' <= c && c <= 'Z' {
        let b: u8 = (c as u8) + 32;
        b as char
    } else {
        c
    }
}

pub open spec fn is_slug_char(c: char) -> bool {
    is_ascii_lower_char(c) || is_ascii_digit_char(c)
}

/// One character of the slug loop: combining marks are dropped, ASCII letters
/// and digits are kept in lowercase, any other run becomes one hyphen.
pub open spec fn slug_step(state: (Seq<char>, bool), c: char) -> (Seq<char>, bool) {
    if combining_mark(c) {
        state
    } else {
        let l = ascii_lower(c);
        if is_slug_char(l) {
            (state.0.push(l), false)
        } else if !state.1 {
            (state.0.push('-'), true)
        } else {
            state
        }
    }
}

/// The slug built so far and whether it ends in a hyphen (or is empty).
pub open spec fn slug_state(cs: Seq<char>) -> (Seq<char>, bool)
    decreases cs.len(),
{
    if cs.len() == 0 {
        (Seq::empty(), true)
    } else {
        slug_step(slug_state(cs.drop_last()), cs.last())
    }
}

/// The slug of a title: its NFKD form without combining marks, lowercase
/// ASCII letters and digits kept, other runs collapsed into single hyphens,
/// no hyphen at either end.
pub open spec fn slug_of(input: Seq<char>) -> Seq<char> {
    let out = slug_state(nfkd(input)).0;
    if out.len() > 0 && out.last() == '-' {
        out.drop_last()
    } else {
        out
    }
}

/// Lowercase ASCII slug: keep `[a-z0-9]`, collapse other runs into `-`, trim.
/// Diacritics are folded first (NFKD decomposition with combining marks
/// dropped), so "Café résumé" becomes "cafe-resume".
pub fn slugify(input: &str) -> (r: String)
    ensures
        r@ == slug_of(input@),
{
    let cs = decompose_compatible(input);
    let mut out: Vec<char> = Vec::new();
    let mut prev_dash = true;
    let mut i: usize = 0;
    while i < cs.len()
        invariant
            i <= cs.len(),
            (out@, prev_dash) == slug_state(cs@.subrange(0, i as int)),
        decreases cs.len() - i,
    {
        let c = cs[i];
        assert(cs@.subrange(0, i + 1).drop_last() =~= cs@.subrange(0, i as int));
        if !is_combining_mark(c) {
            let l = to_ascii_lower(c);
            if ('a' <= l && l <= 'z') || ('0' <= l && l <= '9') {
                out.push(l);
                prev_dash = false;
            } else if !prev_dash {
                out.push('-');
                prev_dash = true;
            }
        }
        i = i + 1;
    }
    assert(cs@.subrange(0, cs.len() as int) =~= cs@);
    if out.len() > 0 && out[out.len() - 1] == '-' {
        out.pop();
    }
    string_of(&out)
}

/// What the slug loop keeps true: only slug characters and hyphens, no
/// leading hyphen, no two hyphens in a row, and the flag tells whether the
/// slug is empty or ends in a hyphen.
spec fn slug_state_ok(st: (Seq<char>, bool)) -> bool {
    let o = st.0;
    &&& st.1 <==> (o.len() == 0 || o.last() == '-')
    &&& o.len() > 0 ==> o[0] != '-'
    &&& forall|i: int| 0 <= i < o.len() - 1 ==> !(#[trigger] o[i] == '-' && o[i + 1] == '-')
    &&& forall|i: int| 0 <= i < o.len() ==> is_slug_char(#[trigger] o[i]) || o[i] == '-'
}

proof fn lemma_slug_state_ok(cs: Seq<char>)
    ensures
        slug_state_ok(slug_state(cs)),
    decreases cs.len(),
{
    if cs.len() > 0 {
        lemma_slug_state_ok(cs.drop_last());
        let st = slug_state(cs.drop_last());
        let c = cs.last();
        let nst = slug_step(st, c);
        if !combining_mark(c) {
            let l = ascii_lower(c);
            if is_slug_char(l) {
                assert(nst.0 == st.0.push(l));
                assert forall|i: int| 0 <= i < nst.0.len() - 1 implies !(#[trigger] nst.0[i] == '-'
                    && nst.0[i + 1] == '-') by {
                    if i + 1 == nst.0.len() - 1 {
                        assert(nst.0[i + 1] == l);
                    } else {
                        assert(nst.0[i] == st.0[i] && nst.0[i + 1] == st.0[i + 1]);
                    }
                }
                assert forall|i: int| 0 <= i < nst.0.len() implies is_slug_char(#[trigger] nst.0[i])
                    || nst.0[i] == '-' by {
                    if i < st.0.len() {
                        assert(nst.0[i] == st.0[i]);
                    }
                }
            } else if !st.1 {
                assert(nst.0 == st.0.push('-'));
                assert forall|i: int| 0 <= i < nst.0.len() - 1 implies !(#[trigger] nst.0[i] == '-'
                    && nst.0[i + 1] == '-') by {
                    if i + 1 == nst.0.len() - 1 {
                        assert(nst.0[i] == st.0.last());
                    } else {
                        assert(nst.0[i] == st.0[i] && nst.0[i + 1] == st.0[i + 1]);
                    }
                }
                assert forall|i: int| 0 <= i < nst.0.len() implies is_slug_char(#[trigger] nst.0[i])
                    || nst.0[i] == '-' by {
                    if i < st.0.len() {
                        assert(nst.0[i] == st.0[i]);
                    }
                }
            }
        }
    }
}

/// A slug that is not empty is a valid name.
pub proof fn lemma_slug_is_valid_name(input: Seq<char>)
    ensures
        slug_of(input).len() > 0 ==> valid_name(slug_of(input)),
{
    let st = slug_state(nfkd(input));
    lemma_slug_state_ok(nfkd(input));
    let o = st.0;
    let s = slug_of(input);
    if s.len() > 0 {
        if o.len() > 0 && o.last() == '-' {
            assert(s =~= o.drop_last());
            assert(s.last() == o[o.len() - 2]);
            assert(o[o.len() - 2] != '-' || !(o[o.len() - 1] == '-'));
            assert forall|i: int| 0 <= i < s.len() - 1 implies !(#[trigger] s[i] == '-' && s[i + 1]
                == '-') by {
                assert(s[i] == o[i] && s[i + 1] == o[i + 1]);
            }
            assert forall|i: int|
                0 <= i < s.len() implies is_ascii_lower_char(#[trigger] s[i]) || is_ascii_digit_char(
                s[i],
            ) || s[i] == '-' by {
                assert(s[i] == o[i]);
            }
        } else {
            assert(s == o);
            assert forall|i: int|
                0 <= i < s.len() implies is_ascii_lower_char(#[trigger] s[i]) || is_ascii_digit_char(
                s[i],
            ) || s[i] == '-' by {
                assert(is_slug_char(o[i]) || o[i] == '-');
            }
        }
    }
}

// ---------------------------------------------------------------------------
// File names
// ---------------------------------------------------------------------------

/// The `k`-th file name tried for `base`: `{base}.md`, then `{base}-2.md`, ...
pub open spec fn candidate_name(base: Seq<char>, k: nat) -> Seq<char> {
    if k == 1 {
        base + ".md"@
    } else {
        base + seq!['-'] + decimal(k) + ".md"@
    }
}

proof fn lemma_candidates_distinct(base: Seq<char>, a: nat, b: nat)
    requires
        a >= 1,
        b >= 1,
        candidate_name(base, a) == candidate_name(base, b),
    ensures
        a == b,
{
    reveal_strlit(".md");
    lemma_decimal_len(a);
    lemma_decimal_len(b);
    let ca = candidate_name(base, a);
    let cb = candidate_name(base, b);
    if a == 1 && b != 1 {
        assert(ca.len() != cb.len());
    } else if a != 1 && b == 1 {
        assert(ca.len() != cb.len());
    } else if a != 1 && b != 1 {
        let n: int = base.len() + 1int;
        assert(".md"@.len() == 3);
        assert(ca.len() == n + decimal(a).len() + 3);
        assert(cb.len() == n + decimal(b).len() + 3);
        assert(decimal(a).len() == decimal(b).len());
        assert(ca.subrange(n, n + decimal(a).len() as int) =~= decimal(a));
        assert(cb.subrange(n, n + decimal(b).len() as int) =~= decimal(b));
        lemma_decimal_injective(a, b);
    }
}

/// When the first `k - 1` candidates are all taken, there are at least that
/// many taken names.
proof fn lemma_taken_candidates(taken: Seq<Seq<char>>, base: Seq<char>, k: nat)
    requires
        k >= 1,
        forall|j: nat| 1 <= j < k ==> taken.contains(#[trigger] candidate_name(base, j)),
    ensures
        k - 1 <= taken.len(),
{
    let cands = Seq::new((k - 1) as nat, |i: int| candidate_name(base, (i + 1) as nat));
    assert forall|i: int, j: int| 0 <= i < cands.len() && 0 <= j < cands.len() && i != j implies
        cands[i] != cands[j] by {
        if cands[i] == cands[j] {
            lemma_candidates_distinct(base, (i + 1) as nat, (j + 1) as nat);
        }
    }
    assert(cands.no_duplicates());
    cands.unique_seq_to_set();
    assert forall|x: Seq<char>| cands.to_set().contains(x) implies taken.to_set().contains(x) by {
        let i = choose|i: int| 0 <= i < cands.len() && cands[i] == x;
        assert(taken.contains(candidate_name(base, (i + 1) as nat)));
    }
    taken.lemma_cardinality_of_set();
    vstd::set_lib::lemma_len_subset(cands.to_set(), taken.to_set());
}

fn contains_name(names: &Vec<Vec<char>>, name: &Vec<char>) -> (r: bool)
    ensures
        r == names@.map_values(|n: Vec<char>| n@).contains(name@),
{
    let ghost ns = names@.map_values(|n: Vec<char>| n@);
    let mut i: usize = 0;
    while i < names.len()
        invariant
            i <= names.len(),
            ns == names@.map_values(|n: Vec<char>| n@),
            forall|j: int| 0 <= j < i ==> ns[j] != name@,
        decreases names.len() - i,
    {
        if eq(&names[i], name) {
            assert(ns[i as int] == name@);
            return true;
        }
        i = i + 1;
    }
    false
}

/// `name` is the first of `{base}.md`, `{base}-2.md`, ... that is not taken.
pub open spec fn first_free(taken: Seq<Seq<char>>, base: Seq<char>, name: Seq<char>) -> bool {
    exists|k: nat|
        k >= 1 && name == candidate_name(base, k) && !taken.contains(name) && forall|j: nat|
            1 <= j < k ==> taken.contains(#[trigger] candidate_name(base, j))
}

/// The first of `{base}.md`, `{base}-2.md`, ... that is not among the
/// `taken` file names.
pub fn free_filename(taken: &Vec<String>, base: &Vec<char>) -> (r: String)
    ensures
        first_free(taken@.map_values(|t: String| t@), base@, r@),
{
    let ghost tv = taken@.map_values(|t: String| t@);
    let mut names: Vec<Vec<char>> = Vec::new();
    let mut i: usize = 0;
    while i < taken.len()
        invariant
            i <= taken.len(),
            tv == taken@.map_values(|t: String| t@),
            names@.map_values(|n: Vec<char>| n@) == tv.subrange(0, i as int),
        decreases taken.len() - i,
    {
        let ghost before = names@.map_values(|n: Vec<char>| n@);
        let c = chars_of(taken[i].as_str());
        names.push(c);
        assert(names@.map_values(|n: Vec<char>| n@) =~= before.push(c@));
        assert(tv.subrange(0, i + 1) =~= tv.subrange(0, i as int).push(c@));
        i = i + 1;
    }
    assert(tv.subrange(0, taken.len() as int) =~= tv);
    let ghost b = base@;
    let mut k: u128 = 1;
    loop
        invariant
            1 <= k,
            b == base@,
            tv == names@.map_values(|n: Vec<char>| n@),
            tv == taken@.map_values(|t: String| t@),
            forall|j: nat| 1 <= j < k ==> tv.contains(#[trigger] candidate_name(b, j)),
            k - 1 <= tv.len(),
            tv.len() == taken.len(),
        decreases tv.len() + 1 - k,
    {
        let mut cand = base.clone();
        assert(cand@ == base@);
        if k > 1 {
            cand.push('-');
            append(&mut cand, &decimal_chars(k));
        }
        let md = chars_of(".md");
        append(&mut cand, &md);
        assert(cand@ =~= candidate_name(b, k as nat));
        if !contains_name(&names, &cand) {
            return string_of(&cand);
        }
        proof {
            assert forall|j: nat| 1 <= j < k + 1 implies tv.contains(#[trigger] candidate_name(b, j)) by {
                if j < k {
                } else {
                    assert(j == k);
                }
            }
            lemma_taken_candidates(tv, b, (k + 1) as nat);
        }
        k = k + 1;
    }
}

/// The first of `{owner}-{slug}.md`, `{owner}-{slug}-2.md`, ... that is not
/// among the `taken` file names (those present in any track).
pub fn resolve_filename(taken: &Vec<String>, owner: &str, slug: &str) -> (r: String)
    ensures
        first_free(taken@.map_values(|t: String| t@), owner@ + seq!['-'] + slug@, r@),
{
    let mut base = chars_of(owner);
    base.push('-');
    append(&mut base, &chars_of(slug));
    assert(base@ =~= owner@ + seq!['-'] + slug@);
    free_filename(taken, &base)
}

// ---------------------------------------------------------------------------
// Paths and new files
// ---------------------------------------------------------------------------

/// A path inside the projects directory, as far as its text shows: it ends
/// in `.md`, is not absolute and has no `..` component.
pub open spec fn relative_markdown_path(file: Seq<char>) -> bool {
    &&& file.len() >= 3 && file.subrange(file.len() - 3, file.len() as int) == ".md"@
    &&& !(file.len() > 0 && file[0] == '/')
    &&& forall|i: int| 0 <= i < split_on(file, '/').len() ==> #[trigger] split_on(file, '/')[i] != ".."@
}

/// The part of the project-path check that the text decides: the path must
/// end in `.md`, be relative and have no `..` component.
pub fn check_project_path(file: &str) -> (r: Result<(), ProjectFileError>)
    ensures
        r is Ok <==> relative_markdown_path(file@),
        r matches Err(e) ==> e matches ProjectFileError::InvalidPath(f) && f@ == file@,
{
    proof {
        reveal_strlit(".md");
        reveal_strlit("..");
    }
    let f = chars_of(file);
    let n = f.len();
    if !(n >= 3 && f[n - 3] == '.' && f[n - 2] == 'm' && f[n - 1] == 'd') {
        assert(n < 3 || !(f@.subrange(n - 3, n as int) == ".md"@)) by {
            if n >= 3 && f@.subrange(n - 3, n as int) == ".md"@ {
                assert(f@.subrange(n - 3, n as int)[0] == f@[n - 3]);
                assert(f@.subrange(n - 3, n as int)[1] == f@[n - 2]);
                assert(f@.subrange(n - 3, n as int)[2] == f@[n - 1]);
            }
        }
        return Err(ProjectFileError::InvalidPath(string_of(&f)));
    }
    assert(f@.subrange(n - 3, n as int) =~= ".md"@);
    if f[0] == '/' {
        return Err(ProjectFileError::InvalidPath(string_of(&f)));
    }
    let parts = crate::text::split_char(&f, '/');
    let ghost pv = parts@.map_values(|p: Vec<char>| p@);
    let dots = vec!['.', '.'];
    assert(dots@ =~= ".."@);
    let mut i: usize = 0;
    while i < parts.len()
        invariant
            i <= parts.len(),
            pv == parts@.map_values(|p: Vec<char>| p@),
            pv == split_on(f@, '/'),
            dots@ == ".."@,
            f@ == file@,
            n == f.len(),
            n >= 3,
            f@.subrange(n - 3, n as int) == ".md"@,
            f@[0] != '/',
            forall|j: int| 0 <= j < i ==> #[trigger] pv[j] != ".."@,
        decreases parts.len() - i,
    {
        if eq(&parts[i], &dots) {
            assert(pv[i as int] == ".."@);
            return Err(ProjectFileError::InvalidPath(string_of(&f)));
        }
        i = i + 1;
    }
    Ok(())
}

/// The frontmatter of a new project: one `key: value` line per field with a
/// value, the value quoted where bare YAML would be ambiguous.
pub open spec fn new_frontmatter(fields: Seq<(Seq<char>, Seq<char>)>) -> Seq<char>
    decreases fields.len(),
{
    if fields.len() == 0 {
        Seq::empty()
    } else {
        let prev = new_frontmatter(fields.drop_last());
        let (k, v) = fields.last();
        if v.len() == 0 {
            prev
        } else {
            prev + k + ": "@ + formatted_value(v) + seq!['\n']
        }
    }
}

pub open spec fn fields_view(fields: Seq<(String, String)>) -> Seq<(Seq<char>, Seq<char>)> {
    fields.map_values(|f: (String, String)| (f.0@, f.1@))
}

/// The text of a new project file made of its frontmatter fields and body.
pub fn new_project_text(fields: &Vec<(String, String)>, body: &str) -> (r: String)
    ensures
        r@ == assembled(new_frontmatter(fields_view(fields@)), normalized_body(body@)),
{
    let ghost fv = fields_view(fields@);
    let mut fm: Vec<char> = Vec::new();
    let mut i: usize = 0;
    while i < fields.len()
        invariant
            i <= fields.len(),
            fv == fields_view(fields@),
            fm@ == new_frontmatter(fv.subrange(0, i as int)),
        decreases fields.len() - i,
    {
        assert(fv.subrange(0, i + 1).drop_last() =~= fv.subrange(0, i as int));
        let (k, v) = (&fields[i].0, &fields[i].1);
        let vc = chars_of(v.as_str());
        if vc.len() > 0 {
            append(&mut fm, &chars_of(k.as_str()));
            append(&mut fm, &chars_of(": "));
            append(&mut fm, &format_value_chars(&vc));
            fm.push('\n');
        }
        i = i + 1;
    }
    assert(fv.subrange(0, fields.len() as int) =~= fv);
    let doc = crate::project_file::assemble_new(&fm, &chars_of(body));
    string_of(&doc)
}

} // verus!
