//! Reading a project document back after one of its frontmatter fields was
//! written: the field holds the value written and the other fields stay.

use vstd::prelude::*;

use crate::frontmatter::{
    closing_from, dashes, strip_bom, entries_map, entries_of_lines, fields_of, frontmatter_fields,
    is_closing_line, line_entry, split_document,
    trim_end_cr, value_of, SplitFailure,
};
use crate::mover::{moved_lines, reordered_priority};
use crate::naming::decimal;
use crate::project_file::{
    any_match, assembled, body_of, field_line, first_match, lemma_closing_from_bounds,
    lemma_split_frontmatter_normalized,
    escape_quoted, formatted_value, matches_field, normalized_frontmatter,
    replaced_lines, upserted, without_field,
};
use crate::text::{
    find_from, is_white_space, join, lemma_find_from_range, lemma_trim_end_skip,
    lemma_trim_start_skip, lines, lines_from, strip_cr, trim, trim_end, trim_start,
};

verus! {

/// Lines written one after another, each ended by a line feed.
pub open spec fn block(ls: Seq<Seq<char>>) -> Seq<char>
    decreases ls.len(),
{
    if ls.len() == 0 {
        Seq::empty()
    } else {
        block(ls.drop_last()) + ls.last() + seq!['\n']
    }
}

/// No line holds a line feed.
pub open spec fn single_lines(ls: Seq<Seq<char>>) -> bool {
    forall|i: int| 0 <= i < ls.len() ==> !(#[trigger] ls[i]).contains('\n')
}

proof fn lemma_join_block(ls: Seq<Seq<char>>)
    requires
        ls.len() >= 1,
    ensures
        join(ls, seq!['\n']) + seq!['\n'] == block(ls),
    decreases ls.len(),
{
    if ls.len() > 1 {
        lemma_join_block(ls.drop_last());
        assert(ls.drop_last().len() >= 1);
    } else {
        assert(block(ls.drop_last()) =~= Seq::<char>::empty());
    }
}

proof fn lemma_block_front(ls: Seq<Seq<char>>)
    requires
        ls.len() >= 1,
    ensures
        block(ls) == ls[0] + seq!['\n'] + block(ls.drop_first()),
    decreases ls.len(),
{
    if ls.len() == 1 {
        assert(ls.drop_first() =~= Seq::<Seq<char>>::empty());
        assert(block(ls.drop_last()) =~= Seq::<char>::empty());
    } else {
        lemma_block_front(ls.drop_last());
        assert(ls.drop_last().drop_first() =~= ls.drop_first().drop_last());
        assert(ls.drop_first().last() == ls.last());
    }
}

proof fn lemma_find_shift(p: Seq<char>, r: Seq<char>, c: char, j: int)
    requires
        0 <= j,
    ensures
        find_from(p + r, c, p.len() + j) == p.len() + find_from(r, c, j),
    decreases r.len() - j,
{
    if j < r.len() {
        assert((p + r)[p.len() + j] == r[j]);
        if r[j] != c {
            lemma_find_shift(p, r, c, j + 1);
        }
    }
}

proof fn lemma_lines_shift(p: Seq<char>, r: Seq<char>, j: int)
    requires
        0 <= j,
    ensures
        lines_from(p + r, p.len() + j) == lines_from(r, j),
    decreases r.len() - j,
{
    if j < r.len() {
        lemma_find_shift(p, r, '\n', j);
        lemma_find_from_range(r, '\n', j);
        let e = find_from(r, '\n', j);
        assert((p + r).subrange(p.len() + j, p.len() + e) =~= r.subrange(j, e));
        if e < r.len() {
            lemma_lines_shift(p, r, e + 1);
        } else {
            assert((p + r).subrange(p.len() + j, (p + r).len() as int) =~= r.subrange(j, r.len() as int));
        }
    }
}

/// Reading lines written as a block gives each of them back, without one
/// carriage return at its end.
proof fn lemma_lines_block(ls: Seq<Seq<char>>)
    requires
        single_lines(ls),
    ensures
        lines(block(ls)) == ls.map_values(|l: Seq<char>| strip_cr(l)),
    decreases ls.len(),
{
    if ls.len() == 0 {
        assert(lines(block(ls)) =~= Seq::<Seq<char>>::empty());
    } else {
        lemma_block_front(ls);
        let head = ls[0];
        let rest = block(ls.drop_first());
        let s = block(ls);
        let p = head + seq!['\n'];
        assert(s =~= p + rest);
        assert(!head.contains('\n'));
        lemma_find_shift(Seq::<char>::empty(), s, '\n', 0);
        lemma_find_from_range(s, '\n', 0);
        assert(s[head.len() as int] == '\n');
        assert forall|j: int| 0 <= j < head.len() implies s[j] != '\n' by {
            assert(s[j] == head[j]);
        }
        assert(find_from(s, '\n', 0) == head.len()) by {
            lemma_find_prefix_free(s, '\n', 0, head.len() as int);
        }
        assert(s.subrange(0, head.len() as int) =~= head);
        assert forall|i: int| 0 <= i < ls.drop_first().len() implies !(#[trigger] ls.drop_first()[i]).contains('\n') by {
            assert(ls.drop_first()[i] == ls[i + 1]);
        }
        lemma_lines_block(ls.drop_first());
        lemma_lines_shift(p, rest, 0);
        assert(lines_from(s, (head.len() + 1) as int) == lines_from(rest, 0));
        assert(lines(block(ls)) =~= seq![strip_cr(head)] + ls.drop_first().map_values(|l: Seq<char>| strip_cr(l)));
        assert(ls.map_values(|l: Seq<char>| strip_cr(l)) =~= seq![strip_cr(head)] + ls.drop_first().map_values(|l: Seq<char>| strip_cr(l)));
    }
}

proof fn lemma_find_prefix_free(s: Seq<char>, c: char, k: int, e: int)
    requires
        0 <= k <= e < s.len(),
        s[e] == c,
        forall|j: int| k <= j < e ==> s[j] != c,
    ensures
        find_from(s, c, k) == e,
    decreases e - k,
{
    if k < e {
        lemma_find_prefix_free(s, c, k + 1, e);
    }
}


proof fn lemma_closing_shift(p: Seq<char>, r: Seq<char>, j: int)
    requires
        0 <= j,
    ensures
        closing_from(p + r, p.len() + j) == match closing_from(r, j) {
            Some(x) => Some(x + p.len()),
            None => None,
        },
    decreases r.len() - j,
{
    if j < r.len() {
        lemma_find_shift(p, r, '\n', j);
        lemma_find_from_range(r, '\n', j);
        let e = find_from(r, '\n', j);
        assert((p + r).subrange(p.len() + j, p.len() + e) =~= r.subrange(j, e));
        if !is_closing_line(r.subrange(j, e)) && e < r.len() {
            lemma_closing_shift(p, r, e + 1);
        }
    }
}

/// In `---` followed by nothing or a line break, the first line break
/// after the start comes right after the dashes.
proof fn lemma_find_after_dashes(t: Seq<char>)
    requires
        t.len() >= 3,
        t[0] == '-' && t[1] == '-' && t[2] == '-',
        t.len() == 3 || t[3] == '\n',
    ensures
        find_from(t, '\n', 0) == 3,
{
    lemma_find_from_range(t, '\n', 0);
    if t.len() > 3 {
        lemma_find_prefix_free(t, '\n', 0, 3);
    } else {
        let e = find_from(t, '\n', 0);
        if e < 3 {
            assert(t[e] == '\n');
        }
    }
}

/// No line is a closing `---` line.
pub open spec fn no_closing_lines(ls: Seq<Seq<char>>) -> bool {
    forall|i: int| 0 <= i < ls.len() ==> !is_closing_line(#[trigger] ls[i])
}

/// Behind a block of lines none of which closes the frontmatter, the first
/// closing line is the `---` that follows the block.
proof fn lemma_closing_block(ls: Seq<Seq<char>>, nb: Seq<char>)
    requires
        single_lines(ls),
        no_closing_lines(ls),
        nb.len() == 0 || nb[0] == '\n',
    ensures
        closing_from(block(ls) + dashes() + nb, 0) == Some(block(ls).len() as int),
    decreases ls.len(),
{
    if ls.len() == 0 {
        let t = block(ls) + dashes() + nb;
        assert(block(ls) =~= Seq::<char>::empty());
        assert(t =~= dashes() + nb);
        lemma_find_after_dashes(t);
        assert(t.subrange(0, 3) =~= dashes());
        assert(trim_end_cr(dashes()) == dashes());
    } else {
        lemma_block_front(ls);
        let head = ls[0];
        let p = head + seq!['\n'];
        let rest = block(ls.drop_first()) + dashes() + nb;
        let t = block(ls) + dashes() + nb;
        assert(t =~= p + rest);
        assert(!head.contains('\n'));
        assert(t[head.len() as int] == '\n');
        assert forall|j: int| 0 <= j < head.len() implies t[j] != '\n' by {
            assert(t[j] == head[j]);
        }
        lemma_find_prefix_free(t, '\n', 0, head.len() as int);
        assert(t.subrange(0, head.len() as int) =~= head);
        assert(!is_closing_line(head));
        assert forall|i: int| 0 <= i < ls.drop_first().len() implies !(#[trigger] ls.drop_first()[i]).contains('\n') by {
            assert(ls.drop_first()[i] == ls[i + 1]);
        }
        assert forall|i: int| 0 <= i < ls.drop_first().len() implies !is_closing_line(#[trigger] ls.drop_first()[i]) by {
            assert(ls.drop_first()[i] == ls[i + 1]);
        }
        lemma_closing_block(ls.drop_first(), nb);
        lemma_closing_shift(p, rest, 0);
    }
}


proof fn lemma_trim_start_at(s: Seq<char>) -> (a: int)
    ensures
        0 <= a <= s.len(),
        trim_start(s) == s.subrange(a, s.len() as int),
        forall|j: int| 0 <= j < a ==> is_white_space(#[trigger] s[j]),
        a < s.len() ==> !is_white_space(s[a]),
    decreases s.len(),
{
    if s.len() > 0 && is_white_space(s[0]) {
        let a1 = lemma_trim_start_at(s.drop_first());
        assert(s.drop_first().subrange(a1, s.drop_first().len() as int) =~= s.subrange(a1 + 1, s.len() as int));
        assert forall|j: int| 0 <= j < a1 + 1 implies is_white_space(#[trigger] s[j]) by {
            if j > 0 {
                assert(s[j] == s.drop_first()[j - 1]);
            }
        }
        a1 + 1
    } else {
        assert(s.subrange(0, s.len() as int) =~= s);
        0
    }
}

proof fn lemma_trim_end_at(s: Seq<char>) -> (b: int)
    ensures
        0 <= b <= s.len(),
        trim_end(s) == s.subrange(0, b),
        forall|j: int| b <= j < s.len() ==> is_white_space(#[trigger] s[j]),
        b > 0 ==> !is_white_space(s[b - 1]),
    decreases s.len(),
{
    if s.len() > 0 && is_white_space(s.last()) {
        let b1 = lemma_trim_end_at(s.drop_last());
        assert(s.drop_last().subrange(0, b1) =~= s.subrange(0, b1));
        assert forall|j: int| b1 <= j < s.len() implies is_white_space(#[trigger] s[j]) by {
            if j < s.len() - 1 {
                assert(s[j] == s.drop_last()[j]);
            }
        }
        b1
    } else {
        assert(s.subrange(0, s.len() as int) =~= s);
        s.len() as int
    }
}

proof fn lemma_lines_single(s: Seq<char>, k: int)
    requires
        0 <= k,
    ensures
        single_lines(lines_from(s, k)),
    decreases s.len() - k,
{
    if k < s.len() {
        lemma_find_from_range(s, '\n', k);
        let e = find_from(s, '\n', k);
        let seg = s.subrange(k, e);
        assert(!seg.contains('\n')) by {
            assert forall|j: int| 0 <= j < seg.len() implies seg[j] != '\n' by {
                assert(seg[j] == s[k + j]);
            }
        }
        assert(!strip_cr(seg).contains('\n')) by {
            assert forall|j: int| 0 <= j < strip_cr(seg).len() implies strip_cr(seg)[j] != '\n' by {
                assert(strip_cr(seg)[j] == seg[j]);
            }
        }
        if e < s.len() {
            lemma_lines_single(s, e + 1);
            let rest = lines_from(s, e + 1);
            assert forall|i: int| 0 <= i < lines_from(s, k).len() implies !(#[trigger] lines_from(s, k)[i]).contains('\n') by {
                if i > 0 {
                    assert(lines_from(s, k)[i] == rest[i - 1]);
                }
            }
        } else {
            assert(s.subrange(k, s.len() as int) == seg);
        }
    }
}

/// The lines of a frontmatter that ends before its first closing line are
/// none of them closing lines.
proof fn lemma_lines_before_closing(fm: Seq<char>, rest: Seq<char>, k: int)
    requires
        0 <= k <= fm.len(),
        fm.len() <= rest.len(),
        fm.len() > 0,
        fm.last() == '\n',
        fm == rest.subrange(0, fm.len() as int),
        closing_from(rest, k) == Some(fm.len() as int),
    ensures
        no_closing_lines(lines_from(fm, k)),
    decreases fm.len() - k,
{
    if k < fm.len() {
        lemma_find_from_range(fm, '\n', k);
        let e = find_from(fm, '\n', k);
        if e >= fm.len() {
            assert(fm[fm.len() - 1] == '\n');
            assert(false);
        }
        assert(fm.subrange(k, e + 1) =~= rest.subrange(k, e + 1));
        lemma_find_from_agree_here(fm, rest, '\n', k);
        assert(fm.subrange(k, e) =~= rest.subrange(k, e));
        let seg = fm.subrange(k, e);
        assert(!is_closing_line(seg));
        assert(trim_end_cr(strip_cr(seg)) == trim_end_cr(seg));
        lemma_lines_before_closing(fm, rest, e + 1);
        let tail = lines_from(fm, e + 1);
        assert forall|i: int| 0 <= i < lines_from(fm, k).len() implies !is_closing_line(#[trigger] lines_from(fm, k)[i]) by {
            if i > 0 {
                assert(lines_from(fm, k)[i] == tail[i - 1]);
            }
        }
    }
}

proof fn lemma_find_from_agree_here(r1: Seq<char>, r2: Seq<char>, c: char, k: int)
    requires
        0 <= k,
        find_from(r1, c, k) < r1.len(),
        find_from(r1, c, k) < r2.len(),
        r1.subrange(k, find_from(r1, c, k) + 1) == r2.subrange(k, find_from(r1, c, k) + 1),
    ensures
        find_from(r2, c, k) == find_from(r1, c, k),
    decreases r1.len() - k,
{
    let e = find_from(r1, c, k);
    lemma_find_from_range(r1, c, k);
    assert(r1[k] == r1.subrange(k, e + 1)[0]);
    assert(r2[k] == r2.subrange(k, e + 1)[0]);
    if r1[k] != c {
        assert(r1.subrange(k + 1, e + 1) =~= r1.subrange(k, e + 1).subrange(1, e + 1 - k));
        assert(r2.subrange(k + 1, e + 1) =~= r2.subrange(k, e + 1).subrange(1, e + 1 - k));
        lemma_find_from_agree_here(r1, r2, c, k + 1);
    }
}

/// The first line of a frontmatter that starts with a line break is empty.
proof fn lemma_first_line_empty(fm: Seq<char>)
    requires
        fm.len() > 0,
        fm[0] == '\n' || (fm.len() >= 2 && fm[0] == '\r' && fm[1] == '\n'),
    ensures
        lines(fm).len() >= 1,
        lines(fm)[0] == Seq::<char>::empty(),
{
    if fm[0] == '\n' {
        lemma_find_prefix_free(fm, '\n', 0, 0);
        assert(fm.subrange(0, 0) =~= Seq::<char>::empty());
    } else {
        lemma_find_prefix_free(fm, '\n', 0, 1);
        assert(fm.subrange(0, 1) =~= seq!['\r']);
        assert(strip_cr(seq!['\r']) =~= Seq::<char>::empty());
    }
}


/// The lines of a rewritten frontmatter that reading finds: a final empty
/// line leaves no trace.
pub open spec fn kept_lines(ls: Seq<Seq<char>>) -> Seq<Seq<char>> {
    if ls.len() > 0 && ls.last().len() == 0 {
        ls.drop_last()
    } else {
        ls
    }
}

proof fn lemma_normalized_block(ls: Seq<Seq<char>>)
    requires
        single_lines(ls),
        ls.len() >= 2,
        ls[0].len() == 0,
    ensures
        normalized_frontmatter(join(ls, seq!['\n'])) == block(kept_lines(ls)),
        kept_lines(ls).len() >= 1,
        kept_lines(ls)[0].len() == 0,
{
    let j = join(ls, seq!['\n']);
    let d = ls.drop_last();
    lemma_join_block(d);
    lemma_block_front(d);
    assert(d[0] == ls[0]);
    assert(j == join(d, seq!['\n']) + seq!['\n'] + ls.last());
    let bd = block(d);
    assert(bd[0] == '\n');
    assert(j =~= bd + ls.last());
    assert(!ls.last().contains('\n'));
    if ls.last().len() == 0 {
        assert(j =~= bd);
        assert(j.last() == '\n');
        assert(normalized_frontmatter(j) =~= j);
    } else {
        assert(j.last() == ls.last().last());
        assert(ls.last().last() != '\n') by {
            assert(ls.last()[ls.last().len() - 1] == ls.last().last());
        }
        assert(normalized_frontmatter(j) =~= j + seq!['\n']);
        assert(block(ls) == bd + ls.last() + seq!['\n']);
    }
}

/// A document whose frontmatter was rewritten as lines splits into the block
/// of those lines and the body it was given.
#[verifier::spinoff_prover]
#[verifier::rlimit(60)]
proof fn lemma_rewritten_split(ls: Seq<Seq<char>>, nb: Seq<char>)
    requires
        single_lines(ls),
        no_closing_lines(ls),
        ls.len() >= 2,
        ls[0].len() == 0,
        nb.len() == 0 || nb[0] == '\n',
    ensures
        split_document(assembled(join(ls, seq!['\n']), nb)) == Ok::<_, SplitFailure>(
            (block(kept_lines(ls)), nb),
        ),
{
    lemma_normalized_block(ls);
    let ms = kept_lines(ls);
    let f = block(ms);
    assert(single_lines(ms) && no_closing_lines(ms)) by {
        assert forall|i: int| 0 <= i < ms.len() implies !(#[trigger] ms[i]).contains('\n') by {
            assert(ms[i] == ls[i]);
        }
        assert forall|i: int| 0 <= i < ms.len() implies !is_closing_line(#[trigger] ms[i]) by {
            assert(ms[i] == ls[i]);
        }
    }
    let x = dashes() + f + dashes() + nb;
    assert(split_document(x) == Ok::<_, SplitFailure>((f, nb))) by {
        lemma_closing_block(ms, nb);
        lemma_block_front(ms);
        let k = f.len() as int;
        assert(strip_bom(x) =~= x);
        assert(x.subrange(0, 3) =~= dashes());
        let rest = x.subrange(3, x.len() as int);
        assert(rest =~= f + dashes() + nb);
        assert(rest[0] == '\n');
        assert(rest.subrange(0, 1) =~= seq!['\n']);
        let tail = dashes() + nb;
        lemma_find_after_dashes(tail);
        lemma_find_shift(f, tail, '\n', 0);
        assert(rest =~= f + tail);
        assert(find_from(f + tail, '\n', k) == k + 3);
        assert(find_from(rest, '\n', k) == k + 3);
        assert(rest.subrange(0, k) =~= f);
        assert(rest.subrange(k + 3, rest.len() as int) =~= nb);
    }
    assert(assembled(join(ls, seq!['\n']), nb) == x);
}


proof fn lemma_trim_strip_cr(l: Seq<char>)
    ensures
        trim(strip_cr(l)) == trim(l),
{
    if l.len() > 0 && l.last() == '\r' {
        let d = l.drop_last();
        let a = lemma_trim_start_at(l);
        if a == l.len() {
            assert forall|j: int| 0 <= j < d.len() implies is_white_space(#[trigger] d[j]) by {
                assert(d[j] == l[j]);
            }
            lemma_trim_start_skip(d, d.len() as int);
            assert(d.subrange(d.len() as int, d.len() as int) =~= Seq::<char>::empty());
            assert(l.subrange(a, l.len() as int) =~= Seq::<char>::empty());
        } else {
            assert(a < d.len()) by {
                if a == l.len() - 1 {
                    assert(is_white_space(l[a]));
                }
            }
            assert forall|j: int| 0 <= j < a implies is_white_space(#[trigger] d[j]) by {
                assert(d[j] == l[j]);
            }
            lemma_trim_start_skip(d, a);
            let da = d.subrange(a, d.len() as int);
            assert(da[0] == l[a]);
            assert(trim_start(da) == da);
            let la = l.subrange(a, l.len() as int);
            assert(la.drop_last() =~= da);
            assert(la.last() == '\r');
            assert(trim_end(la) == trim_end(da));
        }
    }
}

proof fn lemma_entries_strip_cr(ls: Seq<Seq<char>>)
    ensures
        entries_of_lines(ls.map_values(|l: Seq<char>| strip_cr(l))) == entries_of_lines(ls),
    decreases ls.len(),
{
    if ls.len() > 0 {
        let m = ls.map_values(|l: Seq<char>| strip_cr(l));
        assert(m.drop_last() =~= ls.drop_last().map_values(|l: Seq<char>| strip_cr(l)));
        lemma_entries_strip_cr(ls.drop_last());
        lemma_trim_strip_cr(ls.last());
        assert(m.last() == strip_cr(ls.last()));
        assert(line_entry(m.last()) == line_entry(ls.last()));
    }
}

proof fn lemma_entries_kept(ls: Seq<Seq<char>>)
    ensures
        entries_of_lines(kept_lines(ls)) == entries_of_lines(ls),
{
    if ls.len() > 0 && ls.last().len() == 0 {
        assert(trim_start(ls.last()) =~= Seq::<char>::empty());
        assert(trim(ls.last()) =~= Seq::<char>::empty());
    }
}

/// A field name that reads back as written: not empty, no whitespace or
/// colon in it, and starting like neither a comment nor a closing line.
pub open spec fn plain_key(f: Seq<char>) -> bool {
    &&& f.len() > 0
    &&& f[0] != '#'
    &&& f[0] != '-'
    &&& forall|i: int| 0 <= i < f.len() ==> !is_white_space(#[trigger] f[i]) && f[i] != ':'
}

/// A line's entry has key `f` exactly when the line sets `f`.
pub open spec fn keyed(l: Seq<char>, f: Seq<char>) -> bool {
    match line_entry(l) {
        Some((k, _)) => (k == f <==> matches_field(l, f)),
        None => true,
    }
}

proof fn lemma_keyed(l: Seq<char>, f: Seq<char>)
    requires
        plain_key(f),
    ensures
        keyed(l, f),
{
    if let Some((k, w)) = line_entry(l) {
        let a = lemma_trim_start_at(l);
        let u = l.subrange(a, l.len() as int);
        let b = lemma_trim_end_at(u);
        let t = u.subrange(0, b);
        assert(trim(l) == t);
        assert(t.len() > 0);
        assert(!is_white_space(t[0])) by {
            assert(t[0] == u[0]);
            assert(u[0] == l[a]);
        }
        let i = find_from(t, ':', 0);
        lemma_find_from_range(t, ':', 0);
        assert(i < t.len());
        assert(t[i] == ':');
        assert(k == trim(t.subrange(0, i)));
        if matches_field(l, f) {
            let fl = f.len() as int;
            assert(u.subrange(0, fl) == f);
            let rest = u.subrange(fl, u.len() as int);
            let c = lemma_trim_start_at(rest);
            assert(trim_start(rest) == rest.subrange(c, rest.len() as int));
            assert(rest[c] == ':');
            assert(u[fl + c] == ':');
            assert(!is_white_space(':'));
            assert(b > fl + c);
            assert forall|j: int| 0 <= j < fl + c implies t[j] != ':' by {
                if j < fl {
                    assert(t[j] == f[j]);
                } else {
                    assert(t[j] == rest[j - fl]);
                    assert(is_white_space(rest[j - fl]));
                }
            }
            lemma_find_prefix_free(t, ':', 0, fl + c);
            let s0 = t.subrange(0, fl + c);
            assert(trim_start(s0) == s0) by {
                assert(s0[0] == f[0]);
            }
            assert forall|j: int| fl <= j < s0.len() implies is_white_space(#[trigger] s0[j]) by {
                assert(s0[j] == rest[j - fl]);
            }
            lemma_trim_end_skip(s0, fl);
            assert(s0.subrange(0, fl) =~= f);
            assert(f[fl - 1] == f.last());
            assert(trim_end(f) == f);
        }
        if k == f {
            assert(i > 0) by {
                if i == 0 {
                    assert(t.subrange(0, 0) =~= Seq::<char>::empty());
                    assert(trim_start(Seq::<char>::empty()) =~= Seq::<char>::empty());
                }
            }
            let s0 = t.subrange(0, i);
            assert(trim_start(s0) == s0) by {
                assert(s0[0] == t[0]);
            }
            let e = lemma_trim_end_at(s0);
            assert(s0.subrange(0, e) == f);
            let fl = f.len() as int;
            assert(e == fl);
            assert(u.subrange(0, fl) =~= f) by {
                assert forall|j: int| 0 <= j < fl implies u[j] == f[j] by {
                    assert(u[j] == t[j]);
                    assert(t[j] == s0[j]);
                    assert(s0.subrange(0, e)[j] == s0[j]);
                }
            }
            let rest = u.subrange(fl, u.len() as int);
            assert forall|j: int| 0 <= j < i - fl implies is_white_space(#[trigger] rest[j]) by {
                assert(rest[j] == u[fl + j]);
                assert(u[fl + j] == s0[fl + j]);
            }
            lemma_trim_start_skip(rest, i - fl);
            let ri = rest.subrange(i - fl, rest.len() as int);
            assert(ri[0] == ':') by {
                assert(ri[0] == u[i]);
                assert(u[i] == t[i]);
            }
            assert(trim_start(ri) == ri);
        }
    }
}


/// The fields that a sequence of frontmatter lines sets.
pub open spec fn fields_in(ls: Seq<Seq<char>>) -> Map<Seq<char>, Seq<char>> {
    entries_map(entries_of_lines(ls))
}

/// `m` with field `g` as the entry `e` leaves it: set, or gone.
pub open spec fn set_field(
    m: Map<Seq<char>, Seq<char>>,
    g: Seq<char>,
    e: Option<(Seq<char>, Seq<char>)>,
) -> Map<Seq<char>, Seq<char>> {
    match e {
        Some((_, x)) => m.insert(g, x),
        None => m.remove(g),
    }
}

proof fn lemma_fields_push(ls: Seq<Seq<char>>, l: Seq<char>)
    ensures
        fields_in(ls.push(l)) == match line_entry(l) {
            Some((k, w)) => fields_in(ls).insert(k, w),
            None => fields_in(ls),
        },
{
    let p = ls.push(l);
    assert(p.drop_last() =~= ls);
    assert(p.last() == l);
    let es = entries_of_lines(ls);
    assert(entries_of_lines(p) == match line_entry(l) {
        Some(e) => es.push(e),
        None => es,
    });
    match line_entry(l) {
        Some(e) => {
            assert(es.push(e).drop_last() =~= es);
            assert(es.push(e).last() == e);
        },
        None => {},
    }
}

proof fn lemma_fields_absent(ls: Seq<Seq<char>>, g: Seq<char>)
    requires
        plain_key(g),
        !any_match(ls, g),
    ensures
        !fields_in(ls).contains_key(g),
    decreases ls.len(),
{
    if ls.len() > 0 {
        let d = ls.drop_last();
        assert(!any_match(d, g)) by {
            if any_match(d, g) {
                let i = choose|i: int| 0 <= i < d.len() && #[trigger] matches_field(d[i], g);
                assert(matches_field(ls[i], g));
            }
        }
        lemma_fields_absent(d, g);
        lemma_keyed(ls.last(), g);
        assert(!matches_field(ls[ls.len() - 1], g));
        assert(ls =~= d.push(ls.last()));
        lemma_fields_push(d, ls.last());
    }
}

/// Every line that sets `g` replaced by `nl`, a line that sets `g`.
proof fn lemma_fields_replaced(ls: Seq<Seq<char>>, g: Seq<char>, nl: Seq<char>)
    requires
        plain_key(g),
        matches_field(nl, g),
    ensures
        fields_in(replaced_lines(ls, g, nl)) == if any_match(ls, g) {
            set_field(fields_in(ls), g, line_entry(nl))
        } else {
            fields_in(ls)
        },
    decreases ls.len(),
{
    lemma_keyed(nl, g);
    if ls.len() == 0 {
        assert(replaced_lines(ls, g, nl) =~= ls);
        assert(!any_match(ls, g));
    } else {
        let d = ls.drop_last();
        let l = ls.last();
        let r = replaced_lines(ls, g, nl);
        assert(r =~= replaced_lines(d, g, nl).push(r.last()));
        assert(ls =~= d.push(l));
        lemma_fields_replaced(d, g, nl);
        lemma_fields_push(d, l);
        lemma_fields_push(replaced_lines(d, g, nl), r.last());
        lemma_keyed(l, g);
        assert(any_match(ls, g) <==> (any_match(d, g) || matches_field(l, g))) by {
            if any_match(ls, g) {
                let i = choose|i: int| 0 <= i < ls.len() && #[trigger] matches_field(ls[i], g);
                if i < d.len() {
                    assert(matches_field(d[i], g));
                }
            }
            if any_match(d, g) {
                let i = choose|i: int| 0 <= i < d.len() && #[trigger] matches_field(d[i], g);
                assert(matches_field(ls[i], g));
            }
            if matches_field(l, g) {
                assert(matches_field(ls[ls.len() - 1], g));
            }
        }
        if !any_match(d, g) {
            lemma_fields_absent(d, g);
        }
        if matches_field(l, g) {
            assert(r.last() == nl);
            match line_entry(nl) {
                Some((k, x)) => {
                    assert(set_field(fields_in(ls), g, line_entry(nl)) =~= set_field(
                        fields_in(replaced_lines(d, g, nl)),
                        g,
                        line_entry(nl),
                    ));
                },
                None => {
                    assert(set_field(fields_in(ls), g, line_entry(nl)) =~= fields_in(
                        replaced_lines(d, g, nl),
                    ));
                },
            }
        } else {
            assert(r.last() == l);
            if any_match(d, g) {
                match line_entry(l) {
                    Some((k, w)) => {
                        assert(k != g);
                        assert(fields_in(r) =~= set_field(fields_in(ls), g, line_entry(nl)));
                    },
                    None => {},
                }
            }
        }
    }
}

/// `nl`, a line that sets `g`, put among lines that do not.
proof fn lemma_fields_inserted(ls: Seq<Seq<char>>, j: int, g: Seq<char>, nl: Seq<char>)
    requires
        plain_key(g),
        matches_field(nl, g),
        !any_match(ls, g),
        0 <= j <= ls.len(),
    ensures
        fields_in(ls.insert(j, nl)) == set_field(fields_in(ls), g, line_entry(nl)),
    decreases ls.len(),
{
    lemma_keyed(nl, g);
    lemma_fields_absent(ls, g);
    if j == ls.len() {
        assert(ls.insert(j, nl) =~= ls.push(nl));
        lemma_fields_push(ls, nl);
        if line_entry(nl) is None {
            assert(fields_in(ls).remove(g) =~= fields_in(ls));
        }
    } else {
        let d = ls.drop_last();
        let l = ls.last();
        assert(!any_match(d, g)) by {
            if any_match(d, g) {
                let i = choose|i: int| 0 <= i < d.len() && #[trigger] matches_field(d[i], g);
                assert(matches_field(ls[i], g));
            }
        }
        assert(!matches_field(l, g)) by {
            assert(l == ls[ls.len() - 1]);
        }
        lemma_fields_inserted(d, j, g, nl);
        assert(ls.insert(j, nl) =~= d.insert(j, nl).push(l));
        assert(ls =~= d.push(l));
        lemma_fields_push(d.insert(j, nl), l);
        lemma_fields_push(d, l);
        lemma_keyed(l, g);
        match line_entry(l) {
            Some((k, w)) => {
                assert(k != g);
                assert(fields_in(ls.insert(j, nl)) =~= set_field(fields_in(ls), g, line_entry(nl)));
            },
            None => {},
        }
    }
}

/// `g` set to `nl`, a line that sets it, as `upserted` writes it.
pub proof fn lemma_fields_upserted(ls: Seq<Seq<char>>, g: Seq<char>, nl: Seq<char>, anchor: Seq<char>)
    requires
        plain_key(g),
        matches_field(nl, g),
    ensures
        fields_in(upserted(ls, g, nl, anchor)) == set_field(fields_in(ls), g, line_entry(nl)),
{
    if any_match(ls, g) {
        lemma_fields_replaced(ls, g, nl);
    } else {
        let a = first_match(ls, anchor, 0);
        if a < ls.len() {
            lemma_first_match_range(ls, anchor, 0);
            lemma_fields_inserted(ls, a + 1, g, nl);
        } else {
            assert(ls.push(nl) =~= ls.insert(ls.len() as int, nl));
            lemma_fields_inserted(ls, ls.len() as int, g, nl);
        }
    }
}

proof fn lemma_first_match_range(ls: Seq<Seq<char>>, f: Seq<char>, k: int)
    requires
        0 <= k,
    ensures
        k <= first_match(ls, f, k) <= ls.len() || first_match(ls, f, k) == ls.len(),
    decreases ls.len() - k,
{
    if k < ls.len() && !matches_field(ls[k], f) {
        lemma_first_match_range(ls, f, k + 1);
    }
}

/// The lines that set `g` removed.
pub proof fn lemma_fields_without(ls: Seq<Seq<char>>, g: Seq<char>)
    requires
        plain_key(g),
    ensures
        fields_in(without_field(ls, g)) == fields_in(ls).remove(g),
    decreases ls.len(),
{
    if ls.len() == 0 {
        assert(fields_in(ls).remove(g) =~= fields_in(ls));
    } else {
        let d = ls.drop_last();
        let l = ls.last();
        lemma_fields_without(d, g);
        assert(ls =~= d.push(l));
        lemma_fields_push(d, l);
        lemma_keyed(l, g);
        if matches_field(l, g) {
            match line_entry(l) {
                Some((k, w)) => {
                    assert(fields_in(ls).remove(g) =~= fields_in(d).remove(g));
                },
                None => {},
            }
        } else {
            lemma_fields_push(without_field(d, g), l);
            match line_entry(l) {
                Some((k, w)) => {
                    assert(fields_in(without_field(ls, g)) =~= fields_in(ls).remove(g));
                },
                None => {},
            }
        }
    }
}


/// A value that reads back as written: not empty, no whitespace at either
/// end, on one line, and not wrapped in double quotes.
pub open spec fn plain_value(v: Seq<char>) -> bool {
    &&& v.len() > 0
    &&& !is_white_space(v[0])
    &&& !is_white_space(v.last())
    &&& !v.contains('\n')
    &&& !(v.len() >= 2 && v[0] == '"' && v.last() == '"')
}

proof fn lemma_trim_end_cr_keeps_start(s: Seq<char>)
    requires
        s.len() > 0,
        s[0] != '\r',
    ensures
        trim_end_cr(s).len() > 0,
        trim_end_cr(s)[0] == s[0],
    decreases s.len(),
{
    if s.last() == '\r' {
        assert(s.len() >= 2);
        assert(s.drop_last()[0] == s[0]);
        lemma_trim_end_cr_keeps_start(s.drop_last());
    }
}

/// What a line `f: x` is to a reader: it sets `f`, it does not close the
/// frontmatter, it stays one line when `x` does, and it reads as `x` when
/// `x` is plain.
proof fn lemma_field_line(f: Seq<char>, x: Seq<char>)
    requires
        plain_key(f),
    ensures
        matches_field(field_line(f, x), f),
        !is_closing_line(field_line(f, x)),
        !x.contains('\n') ==> !field_line(f, x).contains('\n'),
        plain_value(x) ==> line_entry(field_line(f, x)) == Some((f, x)),
{
    let nl = field_line(f, x);
    let fl = f.len() as int;
    assert(nl[0] == f[0]);
    assert(!is_white_space(f[0]));
    assert(trim_start(nl) == nl);
    assert(nl.subrange(0, fl) =~= f);
    let rest = nl.subrange(fl, nl.len() as int);
    assert(rest[0] == ':');
    assert(trim_start(rest) == rest);
    lemma_trim_end_cr_keeps_start(nl);
    assert(trim_end_cr(nl)[0] != dashes()[0]);
    if !x.contains('\n') {
        assert forall|j: int| 0 <= j < nl.len() implies nl[j] != '\n' by {
            if j < fl {
                assert(nl[j] == f[j]);
                assert(!is_white_space(f[j]));
            } else if j >= fl + 2 {
                assert(nl[j] == x[j - fl - 2]);
            }
        }
    }
    if plain_value(x) {
        assert(nl.last() == x.last());
        assert(trim_end(nl) == nl);
        assert(trim(nl) == nl);
        assert forall|j: int| 0 <= j < fl implies nl[j] != ':' by {
            assert(nl[j] == f[j]);
        }
        lemma_find_prefix_free(nl, ':', 0, fl);
        assert(trim_start(f) == f);
        assert(f[fl - 1] == f.last());
        assert(trim_end(f) == f);
        let raw = nl.subrange(fl + 1, nl.len() as int);
        assert(raw =~= seq![' '] + x);
        assert(raw.drop_first() =~= x);
        assert(trim_start(raw) == trim_start(x));
        assert(trim_start(x) == x);
        assert(trim_end(x) == x);
        assert(value_of(raw) == x);
    }
}

/// `upserted` keeps a frontmatter's lines one per line, none closing it,
/// its first line the empty one, and gives it at least two lines.
proof fn lemma_upserted_shape(ls: Seq<Seq<char>>, f: Seq<char>, nl: Seq<char>, anchor: Seq<char>)
    requires
        single_lines(ls),
        no_closing_lines(ls),
        ls.len() >= 1,
        ls[0].len() == 0,
        plain_key(f),
        !nl.contains('\n'),
        !is_closing_line(nl),
    ensures
        single_lines(upserted(ls, f, nl, anchor)),
        no_closing_lines(upserted(ls, f, nl, anchor)),
        upserted(ls, f, nl, anchor).len() >= 2,
        upserted(ls, f, nl, anchor)[0].len() == 0,
{
    let r = upserted(ls, f, nl, anchor);
    assert(!matches_field(ls[0], f)) by {
        assert(trim_start(ls[0]) =~= Seq::<char>::empty());
    }
    if any_match(ls, f) {
        let i = choose|i: int| 0 <= i < ls.len() && #[trigger] matches_field(ls[i], f);
        assert(i >= 1);
        assert(r == replaced_lines(ls, f, nl));
        assert(r[0] == ls[0]);
    } else {
        let a = first_match(ls, anchor, 0);
        lemma_first_match_range(ls, anchor, 0);
        if a < ls.len() {
            assert(r =~= ls.insert(a + 1, nl));
            assert(r[0] == ls[0]);
            assert forall|i: int| 0 <= i < r.len() implies !(#[trigger] r[i]).contains('\n') && !is_closing_line(r[i]) by {
                if i <= a {
                    assert(r[i] == ls[i]);
                } else if i > a + 1 {
                    assert(r[i] == ls[i - 1]);
                }
            }
        } else {
            assert(r =~= ls.push(nl));
            assert(r[0] == ls[0]);
            assert forall|i: int| 0 <= i < r.len() implies !(#[trigger] r[i]).contains('\n') && !is_closing_line(r[i]) by {
                if i < ls.len() {
                    assert(r[i] == ls[i]);
                }
            }
        }
    }
}

/// Deferring a project writes its `deferred_until` field: read back, the
/// frontmatter holds the deferral, every other field as it was, and the
/// body is unchanged. (This is the text `defer_project` returns.)
pub proof fn lemma_defer_then_read(text: Seq<char>, until: Seq<char>)
    requires
        split_document(text) is Ok,
        plain_value(until),
    ensures
        match split_document(text) {
            Ok((fm, bs)) => {
                let written = assembled(
                    join(
                        upserted(
                            lines(fm),
                            "deferred_until"@,
                            field_line("deferred_until"@, until),
                            "status"@,
                        ),
                        seq!['\n'],
                    ),
                    bs,
                );
                &&& frontmatter_fields(written) == Some(fields_of(fm).insert("deferred_until"@, until))
                &&& body_of(written) == body_of(text)
            },
            Err(_) => true,
        },
{
    reveal_strlit("deferred_until");
    let f = "deferred_until"@;
    assert(plain_key(f));
    lemma_write_field_then_read(text, f, until, "status"@);
}

/// The frontmatter lines of a document that was split, as a reader takes
/// them, and the body section after them.
proof fn lemma_split_lines(text: Seq<char>)
    requires
        split_document(text) is Ok,
    ensures
        frontmatter_shape(lines(split_document(text)->Ok_0.0)),
        split_document(text)->Ok_0.1.len() == 0 || split_document(text)->Ok_0.1[0] == '\n',
        fields_of(split_document(text)->Ok_0.0) == fields_in(lines(split_document(text)->Ok_0.0)),
{
    lemma_split_frontmatter_normalized(text);
    let fm = split_document(text)->Ok_0.0;
    let bs = split_document(text)->Ok_0.1;
    let t = strip_bom(text);
    let rest0 = t.subrange(3, t.len() as int);
    lemma_closing_from_bounds(rest0, 0, fm.len() as int);
    lemma_lines_single(fm, 0);
    lemma_lines_before_closing(fm, rest0, 0);
    lemma_first_line_empty(fm);
    let k = closing_from(rest0, 0)->0;
    lemma_find_from_range(rest0, '\n', k);
    assert(bs =~= rest0.subrange(find_from(rest0, '\n', k), rest0.len() as int));
}

/// A document whose frontmatter lines were rewritten reads back as the
/// fields those lines set, with the body it had.
proof fn lemma_read_rewritten(ls: Seq<Seq<char>>, x: Seq<char>, bs: Seq<char>)
    requires
        frontmatter_shape(ls),
        holds_after_first(ls, x),
        bs.len() == 0 || bs[0] == '\n',
    ensures
        frontmatter_fields(assembled(join(ls, seq!['\n']), bs)) == Some(fields_in(ls)),
        split_document(assembled(join(ls, seq!['\n']), bs)) matches Ok((_, b)) && b == bs,
{
    lemma_rewritten_split(ls, bs);
    let ms = kept_lines(ls);
    assert(single_lines(ms)) by {
        assert forall|i: int| 0 <= i < ms.len() implies !(#[trigger] ms[i]).contains('\n') by {
            assert(ms[i] == ls[i]);
        }
    }
    lemma_lines_block(ms);
    lemma_entries_strip_cr(ms);
    lemma_entries_kept(ls);
    assert(fields_of(block(ms)) == fields_in(ls));
}

/// Writing one field with `upserted` and reading the document back.
proof fn lemma_write_field_then_read(text: Seq<char>, f: Seq<char>, v: Seq<char>, anchor: Seq<char>)
    requires
        split_document(text) is Ok,
        plain_key(f),
        plain_value(v),
    ensures
        match split_document(text) {
            Ok((fm, bs)) => {
                let written = assembled(
                    join(upserted(lines(fm), f, field_line(f, v), anchor), seq!['\n']),
                    bs,
                );
                &&& frontmatter_fields(written) == Some(fields_of(fm).insert(f, v))
                &&& body_of(written) == body_of(text)
            },
            Err(_) => true,
        },
{
    lemma_split_lines(text);
    let fm = split_document(text)->Ok_0.0;
    let bs = split_document(text)->Ok_0.1;
    let l0 = lines(fm);
    let nl = field_line(f, v);
    lemma_field_line(f, v);
    lemma_upserted_shape(l0, f, nl, anchor);
    let l2 = upserted(l0, f, nl, anchor);
    assert(holds_after_first(l2, l2[1]));
    lemma_read_rewritten(l2, l2[1], bs);
    lemma_fields_upserted(l0, f, nl, anchor);
}


/// The lines of a frontmatter as a reader takes them: one per line, none
/// closing it, the first one the empty line after the opening `---`.
pub open spec fn frontmatter_shape(ls: Seq<Seq<char>>) -> bool {
    &&& single_lines(ls)
    &&& no_closing_lines(ls)
    &&& ls.len() >= 1
    &&& ls[0].len() == 0
}

/// `x` is one of the lines after the first.
pub open spec fn holds_after_first(ls: Seq<Seq<char>>, x: Seq<char>) -> bool {
    exists|i: int| 1 <= i < ls.len() && ls[i] == x
}

proof fn lemma_first_line_sets_nothing(ls: Seq<Seq<char>>, g: Seq<char>)
    requires
        frontmatter_shape(ls),
        plain_key(g),
    ensures
        !matches_field(ls[0], g),
{
    assert(trim_start(ls[0]) =~= Seq::<char>::empty());
}

proof fn lemma_replaced_shape(ls: Seq<Seq<char>>, g: Seq<char>, nl: Seq<char>, x: Seq<char>)
    requires
        frontmatter_shape(ls),
        plain_key(g),
        !nl.contains('\n'),
        !is_closing_line(nl),
    ensures
        frontmatter_shape(replaced_lines(ls, g, nl)),
        any_match(ls, g) ==> holds_after_first(replaced_lines(ls, g, nl), nl),
        holds_after_first(ls, x) && !matches_field(x, g) ==> holds_after_first(replaced_lines(ls, g, nl), x),
{
    let r = replaced_lines(ls, g, nl);
    lemma_first_line_sets_nothing(ls, g);
    assert(r[0] == ls[0]);
    assert forall|i: int| 0 <= i < r.len() implies !(#[trigger] r[i]).contains('\n') && !is_closing_line(r[i]) by {
        assert(r[i] == if matches_field(ls[i], g) { nl } else { ls[i] });
    }
    if any_match(ls, g) {
        let i = choose|i: int| 0 <= i < ls.len() && #[trigger] matches_field(ls[i], g);
        assert(r[i] == nl);
    }
    if holds_after_first(ls, x) && !matches_field(x, g) {
        let i = choose|i: int| 1 <= i < ls.len() && ls[i] == x;
        assert(r[i] == x);
    }
}

proof fn lemma_upserted_keeps(ls: Seq<Seq<char>>, g: Seq<char>, nl: Seq<char>, anchor: Seq<char>, x: Seq<char>)
    requires
        frontmatter_shape(ls),
        plain_key(g),
        !nl.contains('\n'),
        !is_closing_line(nl),
        holds_after_first(ls, x),
        !matches_field(x, g),
    ensures
        frontmatter_shape(upserted(ls, g, nl, anchor)),
        holds_after_first(upserted(ls, g, nl, anchor), x),
{
    lemma_upserted_shape(ls, g, nl, anchor);
    let r = upserted(ls, g, nl, anchor);
    let i = choose|i: int| 1 <= i < ls.len() && ls[i] == x;
    if any_match(ls, g) {
        lemma_replaced_shape(ls, g, nl, x);
    } else {
        let a = first_match(ls, anchor, 0);
        lemma_first_match_range(ls, anchor, 0);
        if a < ls.len() {
            assert(r =~= ls.insert(a + 1, nl));
            if i <= a {
                assert(r[i] == x);
            } else {
                assert(r[i + 1] == x);
            }
        } else {
            assert(r =~= ls.push(nl));
            assert(r[i] == x);
        }
    }
}

proof fn lemma_without_keeps(ls: Seq<Seq<char>>, g: Seq<char>, x: Seq<char>)
    requires
        frontmatter_shape(ls),
        plain_key(g),
        holds_after_first(ls, x),
        !matches_field(x, g),
    ensures
        frontmatter_shape(without_field(ls, g)),
        holds_after_first(without_field(ls, g), x),
        without_field(ls, g).len() >= 1,
    decreases ls.len(),
{
    lemma_first_line_sets_nothing(ls, g);
    let d = ls.drop_last();
    let r = without_field(ls, g);
    lemma_without_subset(ls, g);
    if ls.len() == 2 {
        assert(ls[1] == x);
        assert(d =~= seq![ls[0]]);
        assert(without_field(d, g) =~= seq![ls[0]]) by {
            assert(d.drop_last() =~= Seq::<Seq<char>>::empty());
            assert(without_field(d.drop_last(), g) =~= Seq::<Seq<char>>::empty());
            assert(d.last() == ls[0]);
            assert(!matches_field(d.last(), g));
        }
        assert(r =~= seq![ls[0], x]);
    } else {
        let i = choose|i: int| 1 <= i < ls.len() && ls[i] == x;
        if i == ls.len() - 1 {
            assert(ls.last() == x);
            lemma_without_first(d, g);
            assert(r == without_field(d, g).push(x));
            assert(r[r.len() - 1] == x);
        } else {
            assert(d[0] == ls[0]);
            assert(d[i] == x);
            lemma_without_keeps(d, g, x);
            let wd = without_field(d, g);
            let j = choose|j: int| 1 <= j < wd.len() && wd[j] == x;
            if matches_field(ls.last(), g) {
                assert(r == wd);
            } else {
                assert(r == wd.push(ls.last()));
                assert(r[j] == x);
            }
        }
    }
}

proof fn lemma_without_first(ls: Seq<Seq<char>>, g: Seq<char>)
    requires
        frontmatter_shape(ls),
        plain_key(g),
    ensures
        without_field(ls, g).len() >= 1,
        without_field(ls, g)[0] == ls[0],
    decreases ls.len(),
{
    lemma_first_line_sets_nothing(ls, g);
    if ls.len() == 1 {
        assert(ls.drop_last() =~= Seq::<Seq<char>>::empty());
        assert(without_field(ls.drop_last(), g) =~= Seq::<Seq<char>>::empty());
        assert(ls.last() == ls[0]);
        assert(!matches_field(ls.last(), g));
        assert(without_field(ls, g) =~= seq![ls[0]]);
    } else {
        let d = ls.drop_last();
        assert(d[0] == ls[0]);
        lemma_without_first(d, g);
    }
}

proof fn lemma_without_subset(ls: Seq<Seq<char>>, g: Seq<char>)
    requires
        single_lines(ls),
        no_closing_lines(ls),
    ensures
        single_lines(without_field(ls, g)),
        no_closing_lines(without_field(ls, g)),
    decreases ls.len(),
{
    if ls.len() > 0 {
        let d = ls.drop_last();
        assert(single_lines(d) && no_closing_lines(d)) by {
            assert forall|i: int| 0 <= i < d.len() implies !(#[trigger] d[i]).contains('\n') && !is_closing_line(d[i]) by {
                assert(d[i] == ls[i]);
            }
        }
        lemma_without_subset(d, g);
        let wd = without_field(d, g);
        if !matches_field(ls.last(), g) {
            let r = wd.push(ls.last());
            assert forall|i: int| 0 <= i < r.len() implies !(#[trigger] r[i]).contains('\n') && !is_closing_line(r[i]) by {
                if i < wd.len() {
                    assert(r[i] == wd[i]);
                } else {
                    assert(r[i] == ls[ls.len() - 1]);
                }
            }
        }
    }
}

proof fn lemma_field_line_sets_only_its_field(f: Seq<char>, x: Seq<char>, g: Seq<char>)
    requires
        plain_key(f),
        plain_key(g),
        f[0] != g[0],
    ensures
        !matches_field(field_line(f, x), g),
{
    let nl = field_line(f, x);
    assert(nl[0] == f[0]);
    assert(trim_start(nl) == nl);
    if matches_field(nl, g) {
        assert(nl.subrange(0, g.len() as int)[0] == g[0]);
    }
}


proof fn lemma_escape_single(v: Seq<char>)
    requires
        !v.contains('\n'),
    ensures
        !escape_quoted(v).contains('\n'),
    decreases v.len(),
{
    if v.len() > 0 {
        let d = v.drop_last();
        assert(!d.contains('\n')) by {
            assert forall|j: int| 0 <= j < d.len() implies d[j] != '\n' by {
                assert(d[j] == v[j]);
            }
        }
        lemma_escape_single(d);
        assert(v.last() == v[v.len() - 1]);
        let e = escape_quoted(v);
        let ed = escape_quoted(d);
        assert forall|j: int| 0 <= j < e.len() implies e[j] != '\n' by {
            if j < ed.len() {
                assert(e[j] == ed[j]);
            }
        }
    }
}

proof fn lemma_formatted_single(v: Seq<char>)
    requires
        !v.contains('\n'),
    ensures
        !formatted_value(v).contains('\n'),
{
    lemma_escape_single(v);
    let e = escape_quoted(v);
    if formatted_value(v) != v {
        let q = seq!['"'] + e + seq!['"'];
        assert forall|j: int| 0 <= j < q.len() implies q[j] != '\n' by {
            if 0 < j < q.len() - 1 {
                assert(q[j] == e[j - 1]);
            }
        }
    }
}

/// What a reader finds after a status move: the new status, the priority
/// written, `waiting_since` set on entering `waiting` and both waiting fields
/// gone on leaving it, and every other field as it was.
pub open spec fn moved_fields_read(
    before: Map<Seq<char>, Seq<char>>,
    m: Map<Seq<char>, Seq<char>>,
    to_status: Seq<char>,
    priority: Option<(Seq<char>, bool)>,
    waiting: Option<Seq<char>>,
    leaving: bool,
    today: Seq<char>,
) -> bool {
    &&& m.contains_key("status"@) && m["status"@] == to_status
    &&& forall|k: Seq<char>|
        !(k == "status"@ || k == "priority"@ || k == "waiting_on"@ || k == "waiting_since"@) ==> (
        m.contains_key(k) == before.contains_key(k) && (m.contains_key(k) ==> m[k] == before[k]))
    &&& match priority {
        Some((p, is_default)) => (!is_default && plain_value(p)) ==> (m.contains_key("priority"@)
            && m["priority"@] == p),
        None => true,
    }
    &&& (waiting is Some && plain_value(today)) ==> (m.contains_key("waiting_since"@)
        && m["waiting_since"@] == today)
    &&& (waiting is None && leaving) ==> (!m.contains_key("waiting_on"@) && !m.contains_key(
        "waiting_since"@,
    ))
}

/// Moving a project to another status and reading it back: the status is
/// the one moved to, the priority and waiting fields are as the move wrote
/// them, every other field is as it was, and the body is unchanged. (This is
/// the text `move_project` returns.)
pub proof fn lemma_move_then_read(
    text: Seq<char>,
    to_status: Seq<char>,
    priority: Option<(Seq<char>, bool)>,
    waiting: Option<Seq<char>>,
    leaving: bool,
    today: Seq<char>,
)
    requires
        split_document(text) is Ok,
        any_match(lines(split_document(text)->Ok_0.0), "status"@),
        plain_value(to_status),
        priority matches Some((p, _)) ==> !p.contains('\n'),
        waiting matches Some(w) ==> !w.contains('\n'),
        !today.contains('\n'),
    ensures
        match split_document(text) {
            Ok((fm, bs)) => {
                let written = assembled(
                    join(moved_lines(lines(fm), to_status, priority, waiting, leaving, today), seq!['\n']),
                    bs,
                );
                &&& frontmatter_fields(written) is Some
                &&& moved_fields_read(
                    fields_of(fm),
                    frontmatter_fields(written)->0,
                    to_status,
                    priority,
                    waiting,
                    leaving,
                    today,
                )
                &&& body_of(written) == body_of(text)
            },
            Err(_) => true,
        },
{
    reveal_strlit("status");
    reveal_strlit("priority");
    reveal_strlit("waiting_on");
    reveal_strlit("waiting_since");
    let st = "status"@;
    let pr = "priority"@;
    let wo = "waiting_on"@;
    let ws = "waiting_since"@;
    assert(plain_key(st) && plain_key(pr) && plain_key(wo) && plain_key(ws));
    assert(st != pr && st != wo && st != ws && pr != wo && pr != ws && wo != ws) by {
        assert(st[0] != pr[0] && st[0] != wo[0] && pr[0] != wo[0]);
        assert(wo.len() != ws.len());
    }
    lemma_split_lines(text);
    let fm = split_document(text)->Ok_0.0;
    let bs = split_document(text)->Ok_0.1;
    let l0 = lines(fm);
    let before = fields_of(fm);
    let ns = field_line(st, to_status);
    lemma_field_line(st, to_status);
    lemma_replaced_shape(l0, st, ns, ns);
    lemma_fields_replaced(l0, st, ns);
    let l1 = replaced_lines(l0, st, ns);
    let m1 = fields_in(l1);
    assert(m1 == before.insert(st, to_status));
    let l2 = match priority {
        Some((t, d)) => if d {
            replaced_lines(l1, pr, field_line(pr, t))
        } else {
            upserted(l1, pr, field_line(pr, t), st)
        },
        None => l1,
    };
    match priority {
        Some((t, d)) => {
            let np = field_line(pr, t);
            lemma_field_line(pr, t);
            lemma_field_line_sets_only_its_field(st, to_status, pr);
            if d {
                lemma_replaced_shape(l1, pr, np, ns);
                lemma_fields_replaced(l1, pr, np);
            } else {
                lemma_upserted_keeps(l1, pr, np, st, ns);
                lemma_fields_upserted(l1, pr, np, st);
            }
        },
        None => {},
    }
    assert(frontmatter_shape(l2) && holds_after_first(l2, ns));
    let m2 = fields_in(l2);
    assert(m2.contains_key(st) && m2[st] == to_status);
    assert(forall|k: Seq<char>| k != pr ==> (m2.contains_key(k) == m1.contains_key(k) && (m2.contains_key(k) ==> m2[k] == m1[k])));
    let l3 = moved_lines(l0, to_status, priority, waiting, leaving, today);
    lemma_field_line_sets_only_its_field(st, to_status, wo);
    lemma_field_line_sets_only_its_field(st, to_status, ws);
    match waiting {
        Some(w) => {
            let nw = field_line(wo, formatted_value(w));
            let nd = field_line(ws, today);
            lemma_formatted_single(w);
            lemma_field_line(wo, formatted_value(w));
            lemma_field_line(ws, today);
            let la = upserted(l2, wo, nw, st);
            lemma_upserted_keeps(l2, wo, nw, st, ns);
            lemma_fields_upserted(l2, wo, nw, st);
            lemma_upserted_keeps(la, ws, nd, wo, ns);
            lemma_fields_upserted(la, ws, nd, wo);
            assert(l3 == upserted(la, ws, nd, wo));
        },
        None => {
            if leaving {
                let la = without_field(l2, wo);
                lemma_without_keeps(l2, wo, ns);
                lemma_fields_without(l2, wo);
                lemma_without_keeps(la, ws, ns);
                lemma_fields_without(la, ws);
                assert(l3 == without_field(la, ws));
            } else {
                assert(l3 == l2);
            }
        },
    }
    assert(frontmatter_shape(l3) && holds_after_first(l3, ns));
    lemma_read_rewritten(l3, ns, bs);
    let m = fields_in(l3);
    assert(forall|k: Seq<char>| k != wo && k != ws ==> (m.contains_key(k) == m2.contains_key(k) && (m.contains_key(k) ==> m[k] == m2[k])));
    match priority {
        Some((t, d)) => {
            if !d && plain_value(t) {
                assert(m2.contains_key(pr) && m2[pr] == t);
            }
        },
        None => {},
    }
}

proof fn lemma_decimal_digits(n: nat)
    ensures
        decimal(n).len() >= 1,
        forall|i: int| 0 <= i < decimal(n).len() ==> '0' <= #[trigger] decimal(n)[i] <= '9',
    decreases n,
{
    if n >= 10 {
        lemma_decimal_digits(n / 10);
        let d = decimal(n / 10);
        assert forall|i: int| 0 <= i < decimal(n).len() implies '0' <= #[trigger] decimal(n)[i] <= '9' by {
            if i < d.len() {
                assert(decimal(n)[i] == d[i]);
            }
        }
    }
}

/// A document given the `i`-th of `n` places by a reorder reads back with
/// the priority `(n - i) * 10` set and every other field and the body as
/// they were.
pub proof fn lemma_reorder_then_read(text: Seq<char>, n: int, i: int)
    requires
        split_document(text) is Ok,
        0 <= i < n,
    ensures
        match split_document(text) {
            Ok((fm, bs)) => {
                let written = assembled(
                    join(
                        upserted(
                            lines(fm),
                            "priority"@,
                            field_line("priority"@, reordered_priority(n, i)),
                            "status"@,
                        ),
                        seq!['\n'],
                    ),
                    bs,
                );
                &&& frontmatter_fields(written) == Some(fields_of(fm).insert("priority"@, reordered_priority(n, i)))
                &&& body_of(written) == body_of(text)
            },
            Err(_) => true,
        },
{
    reveal_strlit("priority");
    let f = "priority"@;
    assert(plain_key(f));
    let v = reordered_priority(n, i);
    lemma_decimal_digits(((n - i) * 10) as nat);
    assert(!is_white_space(v[0]));
    assert(!is_white_space(v.last()));
    assert(!v.contains('\n'));
    assert(plain_value(v));
    lemma_write_field_then_read(text, f, v, "status"@);
}

} // verus!
