//! Words and prefixed tokens (`@context`, `&person`, `!directive`) in action text.

use vstd::prelude::*;

use crate::text::{char_is_alphanumeric, char_is_whitespace, is_alphanumeric_char, is_white_space,
    lowercase, slice, to_lowercase, trim, trimmed,
};

use crate::routine::ascii_lowered;

verus! {

/// The first index at or after `k` that is not whitespace, or the length.
pub open spec fn skip_ws(s: Seq<char>, k: int) -> int
    decreases s.len() - k,
{
    if k < 0 || k >= s.len() {
        s.len() as int
    } else if is_white_space(s[k]) {
        skip_ws(s, k + 1)
    } else {
        k
    }
}

/// The first index at or after `k` that is whitespace, or the length.
pub open spec fn word_end(s: Seq<char>, k: int) -> int
    decreases s.len() - k,
{
    if k < 0 || k >= s.len() {
        s.len() as int
    } else if is_white_space(s[k]) {
        k
    } else {
        word_end(s, k + 1)
    }
}

pub proof fn lemma_skip_ws(s: Seq<char>, k: int)
    requires
        0 <= k <= s.len(),
    ensures
        k <= skip_ws(s, k) <= s.len(),
        skip_ws(s, k) < s.len() ==> !is_white_space(s[skip_ws(s, k)]),
        forall|j: int| k <= j < skip_ws(s, k) ==> is_white_space(s[j]),
    decreases s.len() - k,
{
    if k < s.len() && is_white_space(s[k]) {
        lemma_skip_ws(s, k + 1);
    }
}

pub proof fn lemma_word_end(s: Seq<char>, k: int)
    requires
        0 <= k <= s.len(),
    ensures
        k <= word_end(s, k) <= s.len(),
        word_end(s, k) < s.len() ==> is_white_space(s[word_end(s, k)]),
        forall|j: int| k <= j < word_end(s, k) ==> !is_white_space(s[j]),
    decreases s.len() - k,
{
    if k < s.len() && !is_white_space(s[k]) {
        lemma_word_end(s, k + 1);
    }
}

/// The whitespace-separated words of `s[k..]` (`str::split_whitespace`).
pub open spec fn words_from(s: Seq<char>, k: int) -> Seq<Seq<char>>
    decreases s.len() - k,
{
    if k < 0 || k > s.len() {
        Seq::empty()
    } else {
        let i = skip_ws(s, k);
        proof {
            lemma_skip_ws(s, k);
        }
        if i >= s.len() {
            Seq::empty()
        } else {
            let j = word_end(s, i);
            proof {
                lemma_word_end(s, i);
            }
            seq![s.subrange(i, j)] + words_from(s, j)
        }
    }
}

pub open spec fn words(s: Seq<char>) -> Seq<Seq<char>> {
    words_from(s, 0)
}

/// `str::split_whitespace`.
pub fn split_whitespace(s: &Vec<char>) -> (r: Vec<Vec<char>>)
    ensures
        r@.map_values(|w: Vec<char>| w@) == words(s@),
{
    let mut r: Vec<Vec<char>> = Vec::new();
    let mut k: usize = 0;
    loop
        invariant
            k <= s.len(),
            r@.map_values(|w: Vec<char>| w@) + words_from(s@, k as int) == words(s@),
        decreases s.len() - k,
    {
        let ghost before = r@.map_values(|w: Vec<char>| w@);
        let mut i = k;
        while i < s.len() && char_is_whitespace(s[i])
            invariant
                k <= i <= s.len(),
                skip_ws(s@, k as int) == skip_ws(s@, i as int),
            decreases s.len() - i,
        {
            i = i + 1;
        }
        if i == s.len() {
            assert(r@.map_values(|w: Vec<char>| w@) + Seq::<Seq<char>>::empty() =~= r@.map_values(
                |w: Vec<char>| w@,
            ));
            return r;
        }
        let mut j = i;
        while j < s.len() && !char_is_whitespace(s[j])
            invariant
                i <= j <= s.len(),
                word_end(s@, i as int) == word_end(s@, j as int),
            decreases s.len() - j,
        {
            j = j + 1;
        }
        let w = slice(s, i, j);
        r.push(w);
        assert(r@.map_values(|w: Vec<char>| w@) =~= before.push(w@));
        assert(before + words_from(s@, k as int) =~= before.push(w@) + words_from(s@, j as int));
        k = j;
    }
}

/// A character that may appear in a context, person or directive token.
pub open spec fn valid_token_char(c: char) -> bool {
    is_alphanumeric_char(c) || c == '-' || c == '_' || c == '.'
}

fn valid_token_character(c: char) -> (r: bool)
    ensures
        r == valid_token_char(c),
{
    char_is_alphanumeric(c) || c == '-' || c == '_' || c == '.'
}

pub open spec fn all_valid(s: Seq<char>) -> bool {
    forall|i: int| 0 <= i < s.len() ==> valid_token_char(#[trigger] s[i])
}

/// A query token before lowercasing: trimmed, one leading `prefix` dropped.
pub open spec fn token_body(value: Seq<char>, prefix: char) -> Seq<char> {
    let v = trim(value);
    if v.len() > 0 && v[0] == prefix {
        v.drop_first()
    } else {
        v
    }
}

/// Every character is ASCII.
pub open spec fn is_ascii_text(s: Seq<char>) -> bool {
    forall|i: int| 0 <= i < s.len() ==> (#[trigger] s[i] as u32) < 128
}

/// A query token normalized: trimmed, one leading `prefix` dropped, accepted
/// only when non-empty and made of token characters, then lowercased.
pub open spec fn normalized_token(value: Seq<char>, prefix: char) -> Option<Seq<char>> {
    let v2 = token_body(value, prefix);
    if v2.len() > 0 && all_valid(v2) {
        Some(lowercase(v2))
    } else {
        None
    }
}

pub fn normalize_token(value: &Vec<char>, prefix: char) -> (r: Option<Vec<char>>)
    ensures
        match r {
            Some(t) => normalized_token(value@, prefix) == Some(t@),
            None => normalized_token(value@, prefix) is None,
        },
        is_ascii_text(token_body(value@, prefix)) ==> (r matches Some(t) ==> t@ == ascii_lowered(
            token_body(value@, prefix),
        )),
{
    let v = trimmed(value);
    let v2 = if v.len() > 0 && v[0] == prefix {
        let d = slice(&v, 1, v.len());
        assert(d@ =~= v@.drop_first());
        d
    } else {
        v
    };
    assert(v2@ == (if trim(value@).len() > 0 && trim(value@)[0] == prefix {
        trim(value@).drop_first()
    } else {
        trim(value@)
    }));
    if v2.len() == 0 {
        return None;
    }
    let mut i: usize = 0;
    while i < v2.len()
        invariant
            i <= v2.len(),
            v2@ == (if trim(value@).len() > 0 && trim(value@)[0] == prefix {
                trim(value@).drop_first()
            } else {
                trim(value@)
            }),
            forall|j: int| 0 <= j < i ==> valid_token_char(#[trigger] v2@[j]),
        decreases v2.len() - i,
    {
        if !valid_token_character(v2[i]) {
            assert(!all_valid(v2@));
            return None;
        }
        i = i + 1;
    }
    Some(to_lowercase(&v2))
}

/// The length of the longest prefix made of token characters.
pub open spec fn valid_run(s: Seq<char>) -> int
    decreases s.len(),
{
    if s.len() > 0 && valid_token_char(s[0]) {
        1 + valid_run(s.drop_first())
    } else {
        0
    }
}

/// Leading and trailing dots removed (`str::trim_matches('.')`).
pub open spec fn trim_dots_start(s: Seq<char>) -> Seq<char>
    decreases s.len(),
{
    if s.len() > 0 && s[0] == '.' {
        trim_dots_start(s.drop_first())
    } else {
        s
    }
}

pub open spec fn trim_dots_end(s: Seq<char>) -> Seq<char>
    decreases s.len(),
{
    if s.len() > 0 && s.last() == '.' {
        trim_dots_end(s.drop_last())
    } else {
        s
    }
}

pub open spec fn trim_dots(s: Seq<char>) -> Seq<char> {
    trim_dots_end(trim_dots_start(s))
}

/// The token a word carries for `prefix`: the word starts with the prefix,
/// the token characters after it are taken, dots at both ends are dropped and
/// the result is normalized.
pub open spec fn word_token(w: Seq<char>, prefix: char) -> Option<Seq<char>> {
    if w.len() > 0 && w[0] == prefix {
        let body = w.drop_first();
        let captured = body.subrange(0, valid_run(body));
        normalized_token(trim_dots(captured), prefix)
    } else {
        None
    }
}

/// The tokens the words carry, in order, repeats included.
pub open spec fn word_tokens(ws: Seq<Seq<char>>, prefix: char) -> Seq<Seq<char>>
    decreases ws.len(),
{
    if ws.len() == 0 {
        Seq::empty()
    } else {
        match word_token(ws.last(), prefix) {
            Some(t) => word_tokens(ws.drop_last(), prefix).push(t),
            None => word_tokens(ws.drop_last(), prefix),
        }
    }
}

/// Repeats removed, first occurrences kept in order.
pub open spec fn dedup(s: Seq<Seq<char>>) -> Seq<Seq<char>>
    decreases s.len(),
{
    if s.len() == 0 {
        s
    } else if dedup(s.drop_last()).contains(s.last()) {
        dedup(s.drop_last())
    } else {
        dedup(s.drop_last()).push(s.last())
    }
}

/// The distinct tokens with `prefix` in a text, in order of first appearance.
pub open spec fn tokens_of(text: Seq<char>, prefix: char) -> Seq<Seq<char>> {
    dedup(word_tokens(words(text), prefix))
}

proof fn lemma_valid_run(s: Seq<char>)
    ensures
        0 <= valid_run(s) <= s.len(),
        forall|j: int| 0 <= j < valid_run(s) ==> valid_token_char(#[trigger] s[j]),
        valid_run(s) < s.len() ==> !valid_token_char(s[valid_run(s)]),
    decreases s.len(),
{
    if s.len() > 0 && valid_token_char(s[0]) {
        lemma_valid_run(s.drop_first());
        assert forall|j: int| 0 <= j < valid_run(s) implies valid_token_char(#[trigger] s[j]) by {
            if j > 0 {
                assert(s[j] == s.drop_first()[j - 1]);
            }
        }
    }
}

fn word_token_exec(w: &Vec<char>, prefix: char) -> (r: Option<Vec<char>>)
    ensures
        match r {
            Some(t) => word_token(w@, prefix) == Some(t@),
            None => word_token(w@, prefix) is None,
        },
{
    if w.len() == 0 || w[0] != prefix {
        return None;
    }
    let body = slice(w, 1, w.len());
    assert(body@ == w@.drop_first());
    let mut n: usize = 0;
    assert(body@.subrange(0, body.len() as int) =~= body@);
    while n < body.len() && valid_token_character(body[n])
        invariant
            n <= body.len(),
            valid_run(body@) == n + valid_run(body@.subrange(n as int, body.len() as int)),
        decreases body.len() - n,
    {
        assert(body@.subrange(n as int, body.len() as int).drop_first() =~= body@.subrange(
            n + 1,
            body.len() as int,
        ));
        n = n + 1;
    }
    proof {
        let t = body@.subrange(n as int, body.len() as int);
        if n < body.len() {
            assert(t[0] == body@[n as int]);
        }
        assert(body@.subrange(0, body.len() as int) =~= body@);
    }
    let captured = slice(&body, 0, n);
    let mut a: usize = 0;
    assert(captured@.subrange(0, captured.len() as int) =~= captured@);
    while a < captured.len() && captured[a] == '.'
        invariant
            a <= captured.len(),
            trim_dots_start(captured@) == trim_dots_start(
                captured@.subrange(a as int, captured.len() as int),
            ),
        decreases captured.len() - a,
    {
        assert(captured@.subrange(a as int, captured.len() as int).drop_first()
            =~= captured@.subrange(a + 1, captured.len() as int));
        a = a + 1;
    }
    let front = slice(&captured, a, captured.len());
    proof {
        if front.len() > 0 {
            assert(front@[0] == captured@[a as int]);
        }
    }
    let mut b: usize = front.len();
    assert(front@.subrange(0, front.len() as int) =~= front@);
    while b > 0 && front[b - 1] == '.'
        invariant
            b <= front.len(),
            trim_dots_end(front@) == trim_dots_end(front@.subrange(0, b as int)),
        decreases b,
    {
        assert(front@.subrange(0, b as int).drop_last() =~= front@.subrange(0, b - 1));
        b = b - 1;
    }
    proof {
        assert(front@.subrange(0, front.len() as int) =~= front@);
        if b > 0 {
            assert(front@.subrange(0, b as int).last() == front@[b - 1]);
        }
    }
    let token = slice(&front, 0, b);
    normalize_token(&token, prefix)
}

fn contains_token(list: &Vec<Vec<char>>, t: &Vec<char>) -> (r: bool)
    ensures
        r == list@.map_values(|w: Vec<char>| w@).contains(t@),
{
    let ghost lv = list@.map_values(|w: Vec<char>| w@);
    let mut i: usize = 0;
    while i < list.len()
        invariant
            i <= list.len(),
            lv == list@.map_values(|w: Vec<char>| w@),
            forall|j: int| 0 <= j < i ==> lv[j] != t@,
        decreases list.len() - i,
    {
        if crate::text::eq(&list[i], t) {
            assert(lv[i as int] == t@);
            return true;
        }
        i = i + 1;
    }
    false
}

/// The distinct tokens with `prefix` in a text, in order of first appearance.
pub fn prefixed_tokens(text: &Vec<char>, prefix: char) -> (r: Vec<Vec<char>>)
    ensures
        r@.map_values(|w: Vec<char>| w@) == tokens_of(text@, prefix),
{
    let ws = split_whitespace(text);
    let ghost wv = ws@.map_values(|w: Vec<char>| w@);
    let mut r: Vec<Vec<char>> = Vec::new();
    let mut i: usize = 0;
    while i < ws.len()
        invariant
            i <= ws.len(),
            wv == ws@.map_values(|w: Vec<char>| w@),
            wv == words(text@),
            r@.map_values(|w: Vec<char>| w@) == dedup(word_tokens(wv.subrange(0, i as int), prefix)),
        decreases ws.len() - i,
    {
        let ghost before = r@.map_values(|w: Vec<char>| w@);
        proof {
            assert(wv.subrange(0, i + 1).drop_last() =~= wv.subrange(0, i as int));
            assert(wv.subrange(0, i + 1).last() == wv[i as int]);
        }
        let ghost prev_tokens = word_tokens(wv.subrange(0, i as int), prefix);
        match word_token_exec(&ws[i], prefix) {
            Some(t) => {
                assert(word_tokens(wv.subrange(0, i + 1), prefix) == prev_tokens.push(t@));
                assert(prev_tokens.push(t@).drop_last() =~= prev_tokens);
                if !contains_token(&r, &t) {
                    r.push(t);
                    assert(r@.map_values(|w: Vec<char>| w@) =~= before.push(t@));
                }
            },
            None => {
                assert(word_tokens(wv.subrange(0, i + 1), prefix) == prev_tokens);
            },
        }
        i = i + 1;
    }
    assert(wv.subrange(0, ws.len() as int) =~= wv);
    r
}

} // verus!
