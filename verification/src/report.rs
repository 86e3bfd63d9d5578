//! The text reports of the command line: the projects on my plate, those
//! waiting on others, the stale ones, a summary per track and everything by
//! status.
//!
//! A project's priority is a float, which this library does not hold: each
//! report takes, beside the projects, one rank per project that orders them
//! as their priorities do (a higher rank for a higher priority, equal ranks
//! for equal priorities).

use vstd::prelude::*;

use crate::commands::{ordered_key_list, ordered_keys};
use crate::naming::{decimal, decimal_chars};
use crate::action::Action;
use crate::project::{deferred_days, real_next_step, Project};
use crate::tokens::normalized_token;
use crate::text::{append, chars_of, eq, join, join_with, lex_less, lex_lt, string_of, trim};
use crate::timeline::{insert_by, lemma_insert_by_at, lemma_sort_by_keeps, sort_by};

verus! {

/// The upper-case form of a text, as `str::to_uppercase` maps it.
pub uninterp spec fn uppercase(s: Seq<char>) -> Seq<char>;

/// Calls `str::to_uppercase`; the result is named `uppercase`, a function of
/// the characters alone (what Unicode makes of each is left unstated).
#[verifier::external_body]
fn to_uppercase(s: &str) -> (r: String)
    ensures
        r@ == uppercase(s@),
{
    s.to_uppercase()
}

// ---------------------------------------------------------------------------
// Order of projects
// ---------------------------------------------------------------------------

/// Higher rank first, then by title, then by file.
pub open spec fn ranked_before(ps: Seq<Project>, rs: Seq<u64>, a: int, b: int) -> bool {
    rs[a] > rs[b] || (rs[a] == rs[b] && (lex_lt(ps[a].title@, ps[b].title@) || (ps[a].title@
        == ps[b].title@ && lex_lt(ps[a].file@, ps[b].file@))))
}

pub open spec fn project_order(ps: Seq<Project>, rs: Seq<u64>) -> spec_fn(int, int) -> bool {
    |a: int, b: int| ranked_before(ps, rs, a, b)
}

pub open spec fn idx(v: Seq<usize>) -> Seq<int> {
    v.map_values(|i: usize| i as int)
}

pub open spec fn in_range(v: Seq<usize>, n: int) -> bool {
    forall|i: int| 0 <= i < v.len() ==> (#[trigger] v[i]) < n
}

fn before_in_order(ps: &Vec<Project>, rs: &Vec<u64>, a: usize, b: usize) -> (r: bool)
    requires
        a < ps.len(),
        b < ps.len(),
        ps.len() == rs.len(),
    ensures
        r == ranked_before(ps@, rs@, a as int, b as int),
{
    if rs[a] != rs[b] {
        return rs[a] > rs[b];
    }
    let (ta, tb) = (chars_of(ps[a].title.as_str()), chars_of(ps[b].title.as_str()));
    if lex_less(&ta, &tb) {
        return true;
    }
    if !eq(&ta, &tb) {
        return false;
    }
    lex_less(&chars_of(ps[a].file.as_str()), &chars_of(ps[b].file.as_str()))
}

/// Sort project positions by rank (highest first), title and file, keeping
/// the given order of ties.
pub fn sort_positions(ps: &Vec<Project>, rs: &Vec<u64>, v: &Vec<usize>) -> (r: Vec<usize>)
    requires
        ps.len() == rs.len(),
        in_range(v@, ps@.len() as int),
    ensures
        idx(r@) == sort_by(idx(v@), project_order(ps@, rs@)),
        in_range(r@, ps@.len() as int),
{
    let mut r: Vec<usize> = Vec::new();
    let mut i: usize = 0;
    while i < v.len()
        invariant
            i <= v.len(),
            ps.len() == rs.len(),
            in_range(v@, ps@.len() as int),
            in_range(r@, ps@.len() as int),
            idx(r@) == sort_by(idx(v@).take(i as int), project_order(ps@, rs@)),
        decreases v.len() - i,
    {
        let x = v[i];
        let ghost s = idx(r@);
        let mut k: usize = 0;
        while k < r.len() && !before_in_order(ps, rs, x, r[k])
            invariant
                k <= r.len(),
                ps.len() == rs.len(),
                x < ps.len(),
                in_range(r@, ps@.len() as int),
                s == idx(r@),
                forall|j: int| 0 <= j < k ==> !ranked_before(ps@, rs@, x as int, #[trigger] s[j]),
            decreases r.len() - k,
        {
            k = k + 1;
        }
        proof {
            lemma_insert_by_at(s, x as int, project_order(ps@, rs@), k as int);
        }
        r.insert(k, x);
        assert(idx(r@) =~= s.take(k as int).push(x as int) + s.skip(k as int));
        assert(idx(v@).take(i + 1).drop_last() =~= idx(v@).take(i as int));
        assert(idx(v@).take(i + 1).last() == x as int);
        i = i + 1;
    }
    assert(idx(v@).take(i as int) =~= idx(v@));
    r
}

// ---------------------------------------------------------------------------
// Groups
// ---------------------------------------------------------------------------

/// The key a report groups a project by: its track or its status.
pub open spec fn key_of(p: Project, by_track: bool) -> Seq<char> {
    if by_track {
        p.track@
    } else {
        p.status@
    }
}

/// The keys of the selected projects, in selection order.
pub open spec fn keys_of(ps: Seq<Project>, sel: Seq<int>, by_track: bool) -> Seq<Seq<char>> {
    sel.map_values(|i: int| key_of(ps[i], by_track))
}

pub open spec fn key_order() -> spec_fn(Seq<char>, Seq<char>) -> bool {
    |a: Seq<char>, b: Seq<char>| lex_lt(a, b)
}

/// Each run of equal neighbours kept once.
pub open spec fn dedup_adjacent(s: Seq<Seq<char>>) -> Seq<Seq<char>>
    decreases s.len(),
{
    if s.len() == 0 {
        s
    } else {
        let r = dedup_adjacent(s.drop_last());
        if r.len() > 0 && r.last() == s.last() {
            r
        } else {
            r.push(s.last())
        }
    }
}

/// The keys present, sorted, each once.
pub open spec fn sorted_keys(ps: Seq<Project>, sel: Seq<int>, by_track: bool) -> Seq<Seq<char>> {
    dedup_adjacent(sort_by(keys_of(ps, sel, by_track), key_order()))
}

/// The selected projects with a key, in selection order.
pub open spec fn members(ps: Seq<Project>, sel: Seq<int>, by_track: bool, k: Seq<char>) -> Seq<int>
    decreases sel.len(),
{
    if sel.len() == 0 {
        seq![]
    } else {
        let r = members(ps, sel.drop_last(), by_track, k);
        if key_of(ps[sel.last()], by_track) == k {
            r.push(sel.last())
        } else {
            r
        }
    }
}

/// The keys of groups, in order.
pub open spec fn group_keys(gs: Seq<(Seq<char>, Seq<int>)>) -> Seq<Seq<char>> {
    gs.map_values(|g: (Seq<char>, Seq<int>)| g.0)
}

/// The groups in the order of `order`: each key that has projects, once, with
/// its projects sorted.
pub open spec fn groups_in(
    ps: Seq<Project>,
    rs: Seq<u64>,
    sel: Seq<int>,
    by_track: bool,
    order: Seq<Seq<char>>,
) -> Seq<(Seq<char>, Seq<int>)>
    decreases order.len(),
{
    if order.len() == 0 {
        seq![]
    } else {
        let prev = groups_in(ps, rs, sel, by_track, order.drop_last());
        let k = order.last();
        if members(ps, sel, by_track, k).len() > 0 && !group_keys(prev).contains(k) {
            prev.push((k, sort_by(members(ps, sel, by_track, k), project_order(ps, rs))))
        } else {
            prev
        }
    }
}

/// The selected projects grouped by key: configured keys first, in their
/// order, then the other keys present in sorted order; the projects of a
/// group by rank, title and file.
pub open spec fn grouped(
    ps: Seq<Project>,
    rs: Seq<u64>,
    sel: Seq<int>,
    by_track: bool,
    configured: Seq<Seq<char>>,
) -> Seq<(Seq<char>, Seq<int>)> {
    groups_in(ps, rs, sel, by_track, ordered_key_list(configured, sorted_keys(ps, sel, by_track)))
}

pub struct Group {
    pub key: String,
    pub members: Vec<usize>,
}

pub open spec fn group_views(v: Seq<Group>) -> Seq<(Seq<char>, Seq<int>)> {
    v.map_values(|g: Group| (g.key@, idx(g.members@)))
}

fn key_text(p: &Project, by_track: bool) -> (r: Vec<char>)
    ensures
        r@ == key_of(*p, by_track),
{
    if by_track {
        chars_of(p.track.as_str())
    } else {
        chars_of(p.status.as_str())
    }
}

fn sorted_present_keys(ps: &Vec<Project>, sel: &Vec<usize>, by_track: bool) -> (r: Vec<String>)
    requires
        in_range(sel@, ps@.len() as int),
    ensures
        r@.map_values(|s: String| s@) == sorted_keys(ps@, idx(sel@), by_track),
{
    let ghost ks = keys_of(ps@, idx(sel@), by_track);
    let mut sorted: Vec<Vec<char>> = Vec::new();
    let mut i: usize = 0;
    while i < sel.len()
        invariant
            i <= sel.len(),
            in_range(sel@, ps@.len() as int),
            ks == keys_of(ps@, idx(sel@), by_track),
            sorted@.map_values(|e: Vec<char>| e@) == sort_by(ks.take(i as int), key_order()),
        decreases sel.len() - i,
    {
        let x = key_text(&ps[sel[i]], by_track);
        let ghost xv = x@;
        assert(xv == ks[i as int]);
        let ghost s = sorted@.map_values(|e: Vec<char>| e@);
        let mut k: usize = 0;
        while k < sorted.len() && !lex_less(&x, &sorted[k])
            invariant
                k <= sorted.len(),
                s == sorted@.map_values(|e: Vec<char>| e@),
                x@ == xv,
                forall|j: int| 0 <= j < k ==> !lex_lt(xv, #[trigger] s[j]),
            decreases sorted.len() - k,
        {
            k = k + 1;
        }
        proof {
            lemma_insert_by_at(s, xv, key_order(), k as int);
        }
        sorted.insert(k, x);
        assert(sorted@.map_values(|e: Vec<char>| e@) =~= s.take(k as int).push(xv) + s.skip(k as int));
        assert(ks.take(i + 1).drop_last() =~= ks.take(i as int));
        assert(ks.take(i + 1).last() == xv);
        i = i + 1;
    }
    assert(ks.take(i as int) =~= ks);
    let ghost ss = sorted@.map_values(|e: Vec<char>| e@);
    let mut r: Vec<String> = Vec::new();
    let mut j: usize = 0;
    while j < sorted.len()
        invariant
            j <= sorted.len(),
            ss == sorted@.map_values(|e: Vec<char>| e@),
            r@.map_values(|s: String| s@) == dedup_adjacent(ss.take(j as int)),
        decreases sorted.len() - j,
    {
        assert(ss.take(j + 1).drop_last() =~= ss.take(j as int));
        assert(ss.take(j + 1).last() == sorted@[j as int]@);
        let n = r.len();
        let ghost before = r@.map_values(|s: String| s@);
        if n > 0 && eq(&chars_of(r[n - 1].as_str()), &sorted[j]) {
            assert(before.last() == r@[n - 1]@);
        } else {
            proof {
                if n > 0 {
                    assert(before.last() == r@[n - 1]@);
                }
            }
            r.push(string_of(&sorted[j]));
            assert(r@.map_values(|s: String| s@) =~= before.push(ss[j as int]));
        }
        j = j + 1;
    }
    assert(ss.take(j as int) =~= ss);
    r
}

fn members_of(ps: &Vec<Project>, sel: &Vec<usize>, by_track: bool, k: &Vec<char>) -> (r: Vec<usize>)
    requires
        in_range(sel@, ps@.len() as int),
    ensures
        idx(r@) == members(ps@, idx(sel@), by_track, k@),
        in_range(r@, ps@.len() as int),
{
    let ghost sv = idx(sel@);
    let mut r: Vec<usize> = Vec::new();
    let mut i: usize = 0;
    while i < sel.len()
        invariant
            i <= sel.len(),
            sv == idx(sel@),
            in_range(sel@, ps@.len() as int),
            in_range(r@, ps@.len() as int),
            idx(r@) == members(ps@, sv.take(i as int), by_track, k@),
        decreases sel.len() - i,
    {
        assert(sv.take(i + 1).drop_last() =~= sv.take(i as int));
        assert(sv.take(i + 1).last() == sel@[i as int] as int);
        let p = sel[i];
        if eq(&key_text(&ps[p], by_track), k) {
            let ghost before = idx(r@);
            r.push(p);
            assert(idx(r@) =~= before.push(p as int));
        }
        i = i + 1;
    }
    assert(sv.take(i as int) =~= sv);
    r
}

/// Group the selected projects by track or status, in the configured order
/// and then the others sorted; each group's projects by rank, title and file.
pub fn group_projects(
    ps: &Vec<Project>,
    rs: &Vec<u64>,
    sel: &Vec<usize>,
    by_track: bool,
    configured: &Vec<String>,
) -> (r: Vec<Group>)
    requires
        ps.len() == rs.len(),
        in_range(sel@, ps@.len() as int),
    ensures
        group_views(r@) == grouped(ps@, rs@, idx(sel@), by_track, configured@.map_values(|s: String| s@)),
        forall|g: int| 0 <= g < r@.len() ==> in_range(#[trigger] r@[g].members@, ps@.len() as int),
{
    let present = sorted_present_keys(ps, sel, by_track);
    let order = ordered_keys(configured, &present);
    let ghost ov = order@.map_values(|s: String| s@);
    let mut r: Vec<Group> = Vec::new();
    let mut i: usize = 0;
    while i < order.len()
        invariant
            i <= order.len(),
            ps.len() == rs.len(),
            in_range(sel@, ps@.len() as int),
            ov == order@.map_values(|s: String| s@),
            group_views(r@) == groups_in(ps@, rs@, idx(sel@), by_track, ov.take(i as int)),
            forall|g: int| 0 <= g < r@.len() ==> in_range(#[trigger] r@[g].members@, ps@.len() as int),
        decreases order.len() - i,
    {
        assert(ov.take(i + 1).drop_last() =~= ov.take(i as int));
        assert(ov.take(i + 1).last() == order@[i as int]@);
        let k = chars_of(order[i].as_str());
        let ghost prev = group_views(r@);
        let mut seen = false;
        let mut j: usize = 0;
        while j < r.len()
            invariant
                j <= r.len(),
                prev == group_views(r@),
                seen ==> group_keys(prev).contains(k@),
                !seen ==> forall|m: int| 0 <= m < j ==> #[trigger] prev[m].0 != k@,
            decreases r.len() - j,
        {
            if eq(&chars_of(r[j].key.as_str()), &k) {
                assert(group_keys(prev)[j as int] == k@);
                seen = true;
            }
            j = j + 1;
        }
        proof {
            if !seen {
                assert forall|m: int| 0 <= m < prev.len() implies #[trigger] group_keys(prev)[m] != k@ by {
                    assert(group_keys(prev)[m] == prev[m].0);
                }
            }
        }
        if !seen {
            let ms = members_of(ps, sel, by_track, &k);
            if ms.len() > 0 {
                let sorted = sort_positions(ps, rs, &ms);
                let ghost gv = (k@, idx(sorted@));
                r.push(Group { key: string_of(&k), members: sorted });
                assert(group_views(r@) =~= prev.push(gv));
            }
        }
        i = i + 1;
    }
    assert(ov.take(i as int) =~= ov);
    r
}

// ---------------------------------------------------------------------------
// Lines
// ---------------------------------------------------------------------------

/// ` → <step>` where the project has a real next step.
pub open spec fn next_suffix(p: Project) -> Seq<char> {
    if real_next_step(p.my_next@) {
        " \u{2192} "@ + trim(p.my_next@)
    } else {
        seq![]
    }
}

/// ` [due <deadline>]` where there is a deadline.
pub open spec fn deadline_suffix(p: Project) -> Seq<char> {
    match p.deadline {
        Some(d) => " [due "@ + d@ + "]"@,
        None => seq![],
    }
}

/// ` (<n>d)` where the project has waited a known number of days.
pub open spec fn waiting_suffix(p: Project, today: i32) -> Seq<char> {
    match p.waiting_since {
        Some(d) => if today - d >= 0 {
            " ("@ + decimal((today - d) as nat) + "d)"@
        } else {
            seq![]
        },
        None => seq![],
    }
}

fn next_suffix_text(p: &Project) -> (r: Vec<char>)
    ensures
        r@ == next_suffix(*p),
{
    match p.actionable_next_step() {
        Some(step) => {
            let mut r = chars_of(" \u{2192} ");
            append(&mut r, &chars_of(step.as_str()));
            r
        },
        None => {
            let r: Vec<char> = Vec::new();
            assert(r@ =~= Seq::<char>::empty());
            r
        },
    }
}

fn deadline_suffix_text(p: &Project) -> (r: Vec<char>)
    ensures
        r@ == deadline_suffix(*p),
{
    match &p.deadline {
        Some(d) => {
            let mut r = chars_of(" [due ");
            append(&mut r, &chars_of(d.as_str()));
            append(&mut r, &chars_of("]"));
            r
        },
        None => {
            let r: Vec<char> = Vec::new();
            assert(r@ =~= Seq::<char>::empty());
            r
        },
    }
}

fn waiting_suffix_text(p: &Project, today: i32) -> (r: Vec<char>)
    ensures
        r@ == waiting_suffix(*p, today),
{
    match p.waiting_days(today) {
        Some(days) => {
            let mut r = chars_of(" (");
            append(&mut r, &decimal_chars(days as u128));
            append(&mut r, &chars_of("d)"));
            r
        },
        None => {
            let r: Vec<char> = Vec::new();
            assert(r@ =~= Seq::<char>::empty());
            r
        },
    }
}

// ---------------------------------------------------------------------------
// My plate
// ---------------------------------------------------------------------------

pub open spec fn with_status(ps: Seq<Project>, status: Seq<char>) -> Seq<int>
    decreases ps.len(),
{
    if ps.len() == 0 {
        seq![]
    } else if ps.last().status@ == status {
        with_status(ps.drop_last(), status).push(ps.len() - 1)
    } else {
        with_status(ps.drop_last(), status)
    }
}

fn positions_with_status(ps: &Vec<Project>, status: &str) -> (r: Vec<usize>)
    ensures
        idx(r@) == with_status(ps@, status@),
        in_range(r@, ps@.len() as int),
{
    let s = chars_of(status);
    let mut r: Vec<usize> = Vec::new();
    let mut i: usize = 0;
    while i < ps.len()
        invariant
            i <= ps.len(),
            s@ == status@,
            in_range(r@, ps@.len() as int),
            idx(r@) == with_status(ps@.take(i as int), status@),
        decreases ps.len() - i,
    {
        assert(ps@.take(i + 1).drop_last() =~= ps@.take(i as int));
        assert(ps@.take(i + 1).last() == ps@[i as int]);
        if eq(&chars_of(ps[i].status.as_str()), &s) {
            let ghost before = idx(r@);
            r.push(i);
            assert(idx(r@) =~= before.push(i as int));
        }
        i = i + 1;
    }
    assert(ps@.take(i as int) =~= ps@);
    r
}

pub open spec fn plate_project_lines(ps: Seq<Project>, ms: Seq<int>) -> Seq<char>
    decreases ms.len(),
{
    if ms.len() == 0 {
        seq![]
    } else {
        let p = ps[ms.last()];
        plate_project_lines(ps, ms.drop_last()) + "    "@ + p.title@ + next_suffix(p) + deadline_suffix(p)
            + "\n"@
    }
}

pub open spec fn plate_groups(ps: Seq<Project>, gs: Seq<(Seq<char>, Seq<int>)>) -> Seq<char>
    decreases gs.len(),
{
    if gs.len() == 0 {
        seq![]
    } else {
        plate_groups(ps, gs.drop_last()) + "  ["@ + gs.last().0 + "]\n"@ + plate_project_lines(
            ps,
            gs.last().1,
        ) + "\n"@
    }
}

/// The `my-plate` report: how many projects are on my plate, then per track
/// (configured order first) each project's title with its next step and deadline.
pub open spec fn my_plate_text(ps: Seq<Project>, rs: Seq<u64>, tracks: Seq<Seq<char>>) -> Seq<char> {
    let sel = with_status(ps, "my-plate"@);
    "My plate ("@ + decimal(sel.len()) + "):\n\n"@ + plate_groups(ps, grouped(ps, rs, sel, true, tracks))
}

pub fn render_my_plate(projects: &Vec<Project>, ranks: &Vec<u64>, tracks: &Vec<String>) -> (r: String)
    requires
        projects.len() == ranks.len(),
    ensures
        r@ == my_plate_text(projects@, ranks@, tracks@.map_values(|s: String| s@)),
{
    let sel = positions_with_status(projects, "my-plate");
    let groups = group_projects(projects, ranks, &sel, true, tracks);
    let ghost gv = group_views(groups@);
    let mut out = chars_of("My plate (");
    append(&mut out, &decimal_chars(sel.len() as u128));
    append(&mut out, &chars_of("):\n\n"));
    let ghost head = out@;
    let mut g: usize = 0;
    while g < groups.len()
        invariant
            g <= groups.len(),
            gv == group_views(groups@),
            forall|x: int| 0 <= x < groups@.len() ==> in_range(#[trigger] groups@[x].members@, projects@.len() as int),
            out@ == head + plate_groups(projects@, gv.take(g as int)),
        decreases groups.len() - g,
    {
        assert(gv.take(g + 1).drop_last() =~= gv.take(g as int));
        assert(gv.take(g + 1).last() == gv[g as int]);
        let group = &groups[g];
        assert(gv[g as int] == (group.key@, idx(group.members@)));
        append(&mut out, &chars_of("  ["));
        append(&mut out, &chars_of(group.key.as_str()));
        append(&mut out, &chars_of("]\n"));
        let ghost mid = out@;
        let ms = &group.members;
        assert(in_range(ms@, projects@.len() as int));
        let mut m: usize = 0;
        while m < ms.len()
            invariant
                m <= ms.len(),
                in_range(ms@, projects@.len() as int),
                out@ == mid + plate_project_lines(projects@, idx(ms@).take(m as int)),
            decreases ms.len() - m,
        {
            assert(idx(ms@).take(m + 1).drop_last() =~= idx(ms@).take(m as int));
            assert(idx(ms@).take(m + 1).last() == ms@[m as int] as int);
            let p = &projects[ms[m]];
            append(&mut out, &chars_of("    "));
            append(&mut out, &chars_of(p.title.as_str()));
            append(&mut out, &next_suffix_text(p));
            append(&mut out, &deadline_suffix_text(p));
            append(&mut out, &chars_of("\n"));
            m = m + 1;
        }
        assert(idx(ms@).take(m as int) =~= idx(ms@));
        append(&mut out, &chars_of("\n"));
        g = g + 1;
    }
    assert(gv.take(g as int) =~= gv);
    string_of(&out)
}

// ---------------------------------------------------------------------------
// Waiting and stale
// ---------------------------------------------------------------------------

pub open spec fn waiting_like(p: Project) -> bool {
    p.status@ == "waiting"@ || p.status@ == "submitted"@
}

pub open spec fn waiting_positions(ps: Seq<Project>) -> Seq<int>
    decreases ps.len(),
{
    if ps.len() == 0 {
        seq![]
    } else if waiting_like(ps.last()) {
        waiting_positions(ps.drop_last()).push(ps.len() - 1)
    } else {
        waiting_positions(ps.drop_last())
    }
}

fn waiting_like_positions(ps: &Vec<Project>) -> (r: Vec<usize>)
    ensures
        idx(r@) == waiting_positions(ps@),
        in_range(r@, ps@.len() as int),
{
    let mut r: Vec<usize> = Vec::new();
    let mut i: usize = 0;
    while i < ps.len()
        invariant
            i <= ps.len(),
            in_range(r@, ps@.len() as int),
            idx(r@) == waiting_positions(ps@.take(i as int)),
        decreases ps.len() - i,
    {
        assert(ps@.take(i + 1).drop_last() =~= ps@.take(i as int));
        assert(ps@.take(i + 1).last() == ps@[i as int]);
        if ps[i].is_waiting_like() {
            let ghost before = idx(r@);
            r.push(i);
            assert(idx(r@) =~= before.push(i as int));
        }
        i = i + 1;
    }
    assert(ps@.take(i as int) =~= ps@);
    r
}

pub open spec fn waiting_lines(ps: Seq<Project>, ms: Seq<int>, today: i32) -> Seq<char>
    decreases ms.len(),
{
    if ms.len() == 0 {
        seq![]
    } else {
        let p = ps[ms.last()];
        waiting_lines(ps, ms.drop_last(), today) + "  ["@ + p.track@ + "] "@ + p.title@
            + " \u{2014} "@ + p.waiting_on@ + waiting_suffix(p, today) + deadline_suffix(p) + "\n"@
    }
}

/// The `waiting` report: the projects waiting or submitted, by rank, title
/// and file, each with whom it waits on, for how long, and its deadline.
pub open spec fn waiting_text(ps: Seq<Project>, rs: Seq<u64>, today: i32) -> Seq<char> {
    let ms = sort_by(waiting_positions(ps), project_order(ps, rs));
    "Waiting/submitted ("@ + decimal(ms.len()) + "):\n\n"@ + waiting_lines(ps, ms, today)
}

pub fn render_waiting(projects: &Vec<Project>, ranks: &Vec<u64>, today: i32) -> (r: String)
    requires
        projects.len() == ranks.len(),
    ensures
        r@ == waiting_text(projects@, ranks@, today),
{
    let sel = waiting_like_positions(projects);
    let ms = sort_positions(projects, ranks, &sel);
    let mut out = chars_of("Waiting/submitted (");
    append(&mut out, &decimal_chars(ms.len() as u128));
    append(&mut out, &chars_of("):\n\n"));
    let ghost head = out@;
    let mut m: usize = 0;
    while m < ms.len()
        invariant
            m <= ms.len(),
            in_range(ms@, projects@.len() as int),
            out@ == head + waiting_lines(projects@, idx(ms@).take(m as int), today),
        decreases ms.len() - m,
    {
        assert(idx(ms@).take(m + 1).drop_last() =~= idx(ms@).take(m as int));
        assert(idx(ms@).take(m + 1).last() == ms@[m as int] as int);
        let p = &projects[ms[m]];
        append(&mut out, &chars_of("  ["));
        append(&mut out, &chars_of(p.track.as_str()));
        append(&mut out, &chars_of("] "));
        append(&mut out, &chars_of(p.title.as_str()));
        append(&mut out, &chars_of(" \u{2014} "));
        append(&mut out, &chars_of(p.waiting_on.as_str()));
        append(&mut out, &waiting_suffix_text(p, today));
        append(&mut out, &deadline_suffix_text(p));
        append(&mut out, &chars_of("\n"));
        m = m + 1;
    }
    assert(idx(ms@).take(m as int) =~= idx(ms@));
    assert(idx(ms@).len() == ms@.len());
    string_of(&out)
}

/// The decimal text of an integer, with a minus sign when negative.
pub open spec fn signed_decimal(n: int) -> Seq<char> {
    if n < 0 {
        "-"@ + decimal((-n) as nat)
    } else {
        decimal(n as nat)
    }
}

fn signed_decimal_chars(n: i64) -> (r: Vec<char>)
    ensures
        r@ == signed_decimal(n as int),
{
    if n < 0 {
        let m: i128 = -(n as i128);
        let mut r = chars_of("-");
        append(&mut r, &decimal_chars(m as u128));
        r
    } else {
        decimal_chars(n as u128)
    }
}

/// The projects waiting longer than the threshold with their days, in
/// project order.
pub open spec fn stale_entries(ps: Seq<Project>, today: i32, threshold: i64) -> Seq<(int, int)>
    decreases ps.len(),
{
    if ps.len() == 0 {
        seq![]
    } else {
        let r = stale_entries(ps.drop_last(), today, threshold);
        let p = ps.last();
        match p.waiting_since {
            Some(d) => if waiting_like(p) && today - d >= 0 && today - d > threshold {
                r.push((ps.len() - 1, today - d))
            } else {
                r
            },
            None => r,
        }
    }
}

pub open spec fn longer_first() -> spec_fn((int, int), (int, int)) -> bool {
    |a: (int, int), b: (int, int)| a.1 > b.1
}

pub open spec fn stale_lines(ps: Seq<Project>, es: Seq<(int, int)>) -> Seq<char>
    decreases es.len(),
{
    if es.len() == 0 {
        seq![]
    } else {
        let (i, days) = es.last();
        let p = ps[i];
        stale_lines(ps, es.drop_last()) + "  ["@ + p.track@ + "] "@ + p.title@ + " \u{2014} "@
            + decimal(days as nat) + "d \u{2014} "@ + p.waiting_on@ + "\n"@
    }
}

/// The `stale` report: the projects waiting longer than the threshold, the
/// longest first (ties in project order).
pub open spec fn stale_text(ps: Seq<Project>, today: i32, threshold: i64) -> Seq<char> {
    let es = sort_by(stale_entries(ps, today, threshold), longer_first());
    if es.len() == 0 {
        "No projects waiting >"@ + signed_decimal(threshold as int)
            + " days (or no 'since' dates recorded yet).\n"@
    } else {
        "Stale (waiting >"@ + signed_decimal(threshold as int) + " days): "@ + decimal(es.len())
            + "\n\n"@ + stale_lines(ps, es)
    }
}

pub open spec fn entry_views(v: Seq<(usize, i64)>) -> Seq<(int, int)> {
    v.map_values(|e: (usize, i64)| (e.0 as int, e.1 as int))
}

/// Stable insertion sort of `(position, days)` entries, the most days first.
fn sort_longer_first(found: &Vec<(usize, i64)>, n: usize) -> (es: Vec<(usize, i64)>)
    requires
        forall|j: int| 0 <= j < found@.len() ==> (#[trigger] found@[j]).0 < n && found@[j].1 >= 0,
    ensures
        entry_views(es@) == sort_by(entry_views(found@), longer_first()),
        forall|j: int| 0 <= j < es@.len() ==> (#[trigger] es@[j]).0 < n && es@[j].1 >= 0,
{
    let ghost fv = entry_views(found@);
    let mut es: Vec<(usize, i64)> = Vec::new();
    let mut k: usize = 0;
    while k < found.len()
        invariant
            k <= found.len(),
            fv == entry_views(found@),
            forall|j: int| 0 <= j < found@.len() ==> (#[trigger] found@[j]).0 < n && found@[j].1 >= 0,
            forall|j: int| 0 <= j < es@.len() ==> (#[trigger] es@[j]).0 < n && es@[j].1 >= 0,
            entry_views(es@) == sort_by(fv.take(k as int), longer_first()),
        decreases found.len() - k,
    {
        let x = found[k];
        let ghost xv = (x.0 as int, x.1 as int);
        let ghost s = entry_views(es@);
        let mut m: usize = 0;
        while m < es.len() && !(x.1 > es[m].1)
            invariant
                m <= es.len(),
                s == entry_views(es@),
                xv == (x.0 as int, x.1 as int),
                forall|j: int| 0 <= j < m ==> !(xv.1 > (#[trigger] s[j]).1),
            decreases es.len() - m,
        {
            m = m + 1;
        }
        proof {
            lemma_insert_by_at(s, xv, longer_first(), m as int);
        }
        es.insert(m, x);
        assert(entry_views(es@) =~= s.take(m as int).push(xv) + s.skip(m as int));
        assert(fv.take(k + 1).drop_last() =~= fv.take(k as int));
        assert(fv.take(k + 1).last() == xv);
        k = k + 1;
    }
    assert(fv.take(k as int) =~= fv);
    es
}

pub fn render_stale(projects: &Vec<Project>, today: i32, threshold: i64) -> (r: String)
    ensures
        r@ == stale_text(projects@, today, threshold),
{
    let mut found: Vec<(usize, i64)> = Vec::new();
    let mut i: usize = 0;
    while i < projects.len()
        invariant
            i <= projects.len(),
            forall|j: int| 0 <= j < found@.len() ==> (#[trigger] found@[j]).0 < projects@.len() && found@[j].1 >= 0,
            entry_views(found@) == stale_entries(projects@.take(i as int), today, threshold),
        decreases projects.len() - i,
    {
        assert(projects@.take(i + 1).drop_last() =~= projects@.take(i as int));
        assert(projects@.take(i + 1).last() == projects@[i as int]);
        let p = &projects[i];
        if p.is_waiting_like() {
            match p.waiting_days(today) {
                Some(days) => {
                    if days > threshold {
                        let ghost before = entry_views(found@);
                        found.push((i, days));
                        assert(entry_views(found@) =~= before.push((i as int, days as int)));
                    }
                },
                None => {},
            }
        }
        i = i + 1;
    }
    assert(projects@.take(i as int) =~= projects@);
    let es = sort_longer_first(&found, projects.len());
    let t = signed_decimal_chars(threshold);
    if es.len() == 0 {
        let mut out = chars_of("No projects waiting >");
        append(&mut out, &t);
        append(&mut out, &chars_of(" days (or no 'since' dates recorded yet).\n"));
        return string_of(&out);
    }
    let mut out = chars_of("Stale (waiting >");
    append(&mut out, &t);
    append(&mut out, &chars_of(" days): "));
    append(&mut out, &decimal_chars(es.len() as u128));
    append(&mut out, &chars_of("\n\n"));
    let ghost head = out@;
    let ghost ev = entry_views(es@);
    let mut m: usize = 0;
    while m < es.len()
        invariant
            m <= es.len(),
            ev == entry_views(es@),
            forall|j: int| 0 <= j < es@.len() ==> (#[trigger] es@[j]).0 < projects@.len() && es@[j].1 >= 0,
            out@ == head + stale_lines(projects@, ev.take(m as int)),
        decreases es.len() - m,
    {
        assert(ev.take(m + 1).drop_last() =~= ev.take(m as int));
        assert(ev.take(m + 1).last() == ev[m as int]);
        let (pi, days) = es[m];
        let p = &projects[pi];
        append(&mut out, &chars_of("  ["));
        append(&mut out, &chars_of(p.track.as_str()));
        append(&mut out, &chars_of("] "));
        append(&mut out, &chars_of(p.title.as_str()));
        append(&mut out, &chars_of(" \u{2014} "));
        append(&mut out, &decimal_chars(days as u128));
        append(&mut out, &chars_of("d \u{2014} "));
        append(&mut out, &chars_of(p.waiting_on.as_str()));
        append(&mut out, &chars_of("\n"));
        m = m + 1;
    }
    assert(ev.take(m as int) =~= ev);
    string_of(&out)
}

/// The deferred projects whose deferral date has been reached, with the
/// days since that date, in project order.
pub open spec fn ready_entries(ps: Seq<Project>, today: i32) -> Seq<(int, int)>
    decreases ps.len(),
{
    if ps.len() == 0 {
        seq![]
    } else {
        let r = ready_entries(ps.drop_last(), today);
        let p = ps.last();
        match deferred_days(p, today) {
            Some(days) => if p.status@ == "deferred"@ {
                r.push((ps.len() - 1, days))
            } else {
                r
            },
            None => r,
        }
    }
}

/// `today`, or `<n>d ago`.
pub open spec fn age_text(days: int) -> Seq<char> {
    if days == 0 {
        "today"@
    } else {
        decimal(days as nat) + "d ago"@
    }
}

/// `    → <step>` on a line of its own where the project has a real next step.
pub open spec fn next_step_line(p: Project) -> Seq<char> {
    if real_next_step(p.my_next@) {
        "    \u{2192} "@ + trim(p.my_next@) + "\n"@
    } else {
        seq![]
    }
}

/// A project's entry in the `undefer` report.
pub open spec fn undefer_entry(p: Project, days: int) -> Seq<char> {
    let until = match p.deferred_until {
        Some(u) => u@,
        None => seq![],
    };
    "  ["@ + p.track@ + "] "@ + p.title@ + " (deferred until "@ + until + ", "@ + age_text(days)
        + ")\n"@ + next_step_line(p) + "    "@ + p.file@ + "\n"@
}

pub open spec fn undefer_lines(ps: Seq<Project>, es: Seq<(int, int)>) -> Seq<char>
    decreases es.len(),
{
    if es.len() == 0 {
        seq![]
    } else {
        let (i, days) = es.last();
        undefer_lines(ps, es.drop_last()) + undefer_entry(ps[i], days)
    }
}

fn undefer_entry_text(p: &Project, days: i64) -> (r: Vec<char>)
    requires
        days >= 0,
    ensures
        r@ == undefer_entry(*p, days as int),
{
    let mut out = chars_of("  [");
    append(&mut out, &chars_of(p.track.as_str()));
    append(&mut out, &chars_of("] "));
    append(&mut out, &chars_of(p.title.as_str()));
    append(&mut out, &chars_of(" (deferred until "));
    match &p.deferred_until {
        Some(u) => append(&mut out, &chars_of(u.as_str())),
        None => {},
    }
    append(&mut out, &chars_of(", "));
    if days == 0 {
        append(&mut out, &chars_of("today"));
    } else {
        append(&mut out, &decimal_chars(days as u128));
        append(&mut out, &chars_of("d ago"));
    }
    append(&mut out, &chars_of(")\n"));
    append(&mut out, &next_step_line_text(p));
    append(&mut out, &chars_of("    "));
    append(&mut out, &chars_of(p.file.as_str()));
    append(&mut out, &chars_of("\n"));
    out
}

/// The `undefer` report: the deferred projects whose date has come, the
/// longest past first (ties in project order), each with its next step and file.
pub open spec fn undefer_text(ps: Seq<Project>, today: i32) -> Seq<char> {
    let es = sort_by(ready_entries(ps, today), longer_first());
    if es.len() == 0 {
        "No deferred projects ready to resume.\n"@
    } else {
        "Deferred projects ready to resume ("@ + decimal(es.len()) + "):\n\n"@ + undefer_lines(ps, es)
    }
}

fn next_step_line_text(p: &Project) -> (r: Vec<char>)
    ensures
        r@ == next_step_line(*p),
{
    match p.actionable_next_step() {
        Some(step) => {
            let mut r = chars_of("    \u{2192} ");
            append(&mut r, &chars_of(step.as_str()));
            append(&mut r, &chars_of("\n"));
            r
        },
        None => {
            let r: Vec<char> = Vec::new();
            assert(r@ =~= Seq::<char>::empty());
            r
        },
    }
}

pub fn render_undefer(projects: &Vec<Project>, today: i32) -> (r: String)
    ensures
        r@ == undefer_text(projects@, today),
{
    let mut found: Vec<(usize, i64)> = Vec::new();
    let mut i: usize = 0;
    while i < projects.len()
        invariant
            i <= projects.len(),
            forall|j: int| 0 <= j < found@.len() ==> (#[trigger] found@[j]).0 < projects@.len() && found@[j].1 >= 0,
            entry_views(found@) == ready_entries(projects@.take(i as int), today),
        decreases projects.len() - i,
    {
        assert(projects@.take(i + 1).drop_last() =~= projects@.take(i as int));
        assert(projects@.take(i + 1).last() == projects@[i as int]);
        let p = &projects[i];
        match p.deferred_days_past(today) {
            Some(days) => {
                if eq(&chars_of(p.status.as_str()), &chars_of("deferred")) {
                    let ghost before = entry_views(found@);
                    found.push((i, days));
                    assert(entry_views(found@) =~= before.push((i as int, days as int)));
                }
            },
            None => {},
        }
        i = i + 1;
    }
    assert(projects@.take(i as int) =~= projects@);
    let es = sort_longer_first(&found, projects.len());
    if es.len() == 0 {
        return string_of(&chars_of("No deferred projects ready to resume.\n"));
    }
    let mut out = chars_of("Deferred projects ready to resume (");
    append(&mut out, &decimal_chars(es.len() as u128));
    append(&mut out, &chars_of("):\n\n"));
    let ghost head = out@;
    let ghost ev = entry_views(es@);
    let mut m: usize = 0;
    while m < es.len()
        invariant
            m <= es.len(),
            ev == entry_views(es@),
            forall|j: int| 0 <= j < es@.len() ==> (#[trigger] es@[j]).0 < projects@.len() && es@[j].1 >= 0,
            out@ == head + undefer_lines(projects@, ev.take(m as int)),
        decreases es.len() - m,
    {
        assert(ev.take(m + 1).drop_last() =~= ev.take(m as int));
        assert(ev.take(m + 1).last() == ev[m as int]);
        let (pi, days) = es[m];
        append(&mut out, &undefer_entry_text(&projects[pi], days));
        m = m + 1;
    }
    assert(ev.take(m as int) =~= ev);
    string_of(&out)
}

// ---------------------------------------------------------------------------
// Summary and everything
// ---------------------------------------------------------------------------

pub open spec fn all_positions(n: int) -> Seq<int> {
    Seq::new(n as nat, |i: int| i)
}

fn every_position(n: usize) -> (r: Vec<usize>)
    ensures
        idx(r@) == all_positions(n as int),
        in_range(r@, n as int),
{
    let mut r: Vec<usize> = Vec::new();
    let mut i: usize = 0;
    while i < n
        invariant
            i <= n,
            in_range(r@, n as int),
            idx(r@) == all_positions(i as int),
        decreases n - i,
    {
        let ghost before = idx(r@);
        r.push(i);
        assert(idx(r@) =~= all_positions(i + 1)) by {
            assert(idx(r@) =~= before.push(i as int));
        }
        i = i + 1;
    }
    r
}

/// The `status: count` parts of a track's summary: the configured statuses
/// that occur, then the others in sorted order.
pub open spec fn count_parts(ps: Seq<Project>, ms: Seq<int>, order: Seq<Seq<char>>) -> Seq<Seq<char>>
    decreases order.len(),
{
    if order.len() == 0 {
        seq![]
    } else {
        let prev = count_parts(ps, ms, order.drop_last());
        let n = members(ps, ms, false, order.last()).len();
        if n > 0 {
            prev.push(order.last() + ": "@ + decimal(n))
        } else {
            prev
        }
    }
}

pub open spec fn summary_lines(ps: Seq<Project>, gs: Seq<(Seq<char>, Seq<int>)>, statuses: Seq<Seq<char>>) -> Seq<char>
    decreases gs.len(),
{
    if gs.len() == 0 {
        seq![]
    } else {
        let (track, ms) = gs.last();
        summary_lines(ps, gs.drop_last(), statuses) + "  "@ + track + " ("@ + decimal(ms.len())
            + "): "@ + join(count_parts(ps, ms, ordered_key_list(statuses, sorted_keys(ps, ms, false))), ", "@)
            + "\n"@
    }
}

/// The `summary` report: per track (configured order first) its number of
/// projects and the count of each status.
pub open spec fn summary_text(ps: Seq<Project>, rs: Seq<u64>, tracks: Seq<Seq<char>>, statuses: Seq<Seq<char>>) -> Seq<char> {
    "Summary:\n\n"@ + summary_lines(ps, grouped(ps, rs, all_positions(ps.len() as int), true, tracks), statuses)
}

pub fn render_summary(projects: &Vec<Project>, ranks: &Vec<u64>, tracks: &Vec<String>, statuses: &Vec<String>) -> (r: String)
    requires
        projects.len() == ranks.len(),
    ensures
        r@ == summary_text(projects@, ranks@, tracks@.map_values(|s: String| s@), statuses@.map_values(|s: String| s@)),
{
    let ghost sv = statuses@.map_values(|s: String| s@);
    let every = every_position(projects.len());
    let groups = group_projects(projects, ranks, &every, true, tracks);
    let ghost gv = group_views(groups@);
    let mut out = chars_of("Summary:\n\n");
    let ghost head = out@;
    let mut g: usize = 0;
    while g < groups.len()
        invariant
            g <= groups.len(),
            gv == group_views(groups@),
            sv == statuses@.map_values(|s: String| s@),
            forall|x: int| 0 <= x < groups@.len() ==> in_range(#[trigger] groups@[x].members@, projects@.len() as int),
            out@ == head + summary_lines(projects@, gv.take(g as int), sv),
        decreases groups.len() - g,
    {
        assert(gv.take(g + 1).drop_last() =~= gv.take(g as int));
        assert(gv.take(g + 1).last() == gv[g as int]);
        let group = &groups[g];
        assert(gv[g as int] == (group.key@, idx(group.members@)));
        let ms = &group.members;
        assert(in_range(ms@, projects@.len() as int));
        let present = sorted_present_keys(projects, ms, false);
        let order = ordered_keys(statuses, &present);
        let ghost ov = order@.map_values(|s: String| s@);
        let mut parts: Vec<Vec<char>> = Vec::new();
        let mut k: usize = 0;
        while k < order.len()
            invariant
                k <= order.len(),
                in_range(ms@, projects@.len() as int),
                ov == order@.map_values(|s: String| s@),
                parts@.map_values(|l: Vec<char>| l@) == count_parts(projects@, idx(ms@), ov.take(k as int)),
            decreases order.len() - k,
        {
            assert(ov.take(k + 1).drop_last() =~= ov.take(k as int));
            assert(ov.take(k + 1).last() == order@[k as int]@);
            let status = chars_of(order[k].as_str());
            let count = members_of(projects, ms, false, &status).len();
            if count > 0 {
                let ghost before = parts@.map_values(|l: Vec<char>| l@);
                let mut part = status.clone();
                append(&mut part, &chars_of(": "));
                append(&mut part, &decimal_chars(count as u128));
                parts.push(part);
                assert(parts@.map_values(|l: Vec<char>| l@) =~= before.push(status@ + ": "@ + decimal(count as nat)));
            }
            k = k + 1;
        }
        assert(ov.take(k as int) =~= ov);
        append(&mut out, &chars_of("  "));
        append(&mut out, &chars_of(group.key.as_str()));
        append(&mut out, &chars_of(" ("));
        append(&mut out, &decimal_chars(ms.len() as u128));
        append(&mut out, &chars_of("): "));
        append(&mut out, &join_with(&parts, &chars_of(", ")));
        append(&mut out, &chars_of("\n"));
        assert(idx(ms@).len() == ms@.len());
        g = g + 1;
    }
    assert(gv.take(g as int) =~= gv);
    string_of(&out)
}

pub open spec fn all_project_lines(ps: Seq<Project>, ms: Seq<int>) -> Seq<char>
    decreases ms.len(),
{
    if ms.len() == 0 {
        seq![]
    } else {
        let p = ps[ms.last()];
        all_project_lines(ps, ms.drop_last()) + "  ["@ + p.track@ + "] "@ + p.title@ + "\n"@
    }
}

pub open spec fn all_groups(ps: Seq<Project>, gs: Seq<(Seq<char>, Seq<int>)>) -> Seq<char>
    decreases gs.len(),
{
    if gs.len() == 0 {
        seq![]
    } else {
        all_groups(ps, gs.drop_last()) + "\n"@ + uppercase(gs.last().0) + " ("@ + decimal(
            gs.last().1.len(),
        ) + "):\n"@ + all_project_lines(ps, gs.last().1)
    }
}

/// The `all` report: every project by status (configured order first), the
/// status in capitals with its count, then each project's track and title.
pub open spec fn all_text(ps: Seq<Project>, rs: Seq<u64>, statuses: Seq<Seq<char>>) -> Seq<char> {
    all_groups(ps, grouped(ps, rs, all_positions(ps.len() as int), false, statuses))
}

pub fn render_all(projects: &Vec<Project>, ranks: &Vec<u64>, statuses: &Vec<String>) -> (r: String)
    requires
        projects.len() == ranks.len(),
    ensures
        r@ == all_text(projects@, ranks@, statuses@.map_values(|s: String| s@)),
{
    let every = every_position(projects.len());
    let groups = group_projects(projects, ranks, &every, false, statuses);
    let ghost gv = group_views(groups@);
    let mut out: Vec<char> = Vec::new();
    assert(out@ =~= Seq::<char>::empty());
    let mut g: usize = 0;
    while g < groups.len()
        invariant
            g <= groups.len(),
            gv == group_views(groups@),
            forall|x: int| 0 <= x < groups@.len() ==> in_range(#[trigger] groups@[x].members@, projects@.len() as int),
            out@ == all_groups(projects@, gv.take(g as int)),
        decreases groups.len() - g,
    {
        assert(gv.take(g + 1).drop_last() =~= gv.take(g as int));
        assert(gv.take(g + 1).last() == gv[g as int]);
        let group = &groups[g];
        assert(gv[g as int] == (group.key@, idx(group.members@)));
        let ms = &group.members;
        assert(in_range(ms@, projects@.len() as int));
        append(&mut out, &chars_of("\n"));
        append(&mut out, &chars_of(to_uppercase(group.key.as_str()).as_str()));
        append(&mut out, &chars_of(" ("));
        append(&mut out, &decimal_chars(ms.len() as u128));
        append(&mut out, &chars_of("):\n"));
        let ghost mid = out@;
        let mut m: usize = 0;
        while m < ms.len()
            invariant
                m <= ms.len(),
                in_range(ms@, projects@.len() as int),
                out@ == mid + all_project_lines(projects@, idx(ms@).take(m as int)),
            decreases ms.len() - m,
        {
            assert(idx(ms@).take(m + 1).drop_last() =~= idx(ms@).take(m as int));
            assert(idx(ms@).take(m + 1).last() == ms@[m as int] as int);
            let p = &projects[ms[m]];
            append(&mut out, &chars_of("  ["));
            append(&mut out, &chars_of(p.track.as_str()));
            append(&mut out, &chars_of("] "));
            append(&mut out, &chars_of(p.title.as_str()));
            append(&mut out, &chars_of("\n"));
            m = m + 1;
        }
        assert(idx(ms@).take(m as int) =~= idx(ms@));
        assert(idx(ms@).len() == ms@.len());
        g = g + 1;
    }
    assert(gv.take(g as int) =~= gv);
    string_of(&out)
}

// ---------------------------------------------------------------------------
// Actions by context or person
// ---------------------------------------------------------------------------

/// An action is listed for a name: it is available and carries the name,
/// as a context (`@`) or as a person (`&`).
pub open spec fn listed_for(a: Action, name: Seq<char>, person: bool) -> bool {
    a.available && match normalized_token(name, if person { '&' } else { '@' }) {
        Some(t) => if person {
            a@.people.contains(t)
        } else {
            a@.contexts.contains(t)
        },
        None => false,
    }
}

pub open spec fn action_lines_of(p: Project, acts: Seq<Action>, name: Seq<char>, person: bool) -> Seq<Seq<char>>
    decreases acts.len(),
{
    if acts.len() == 0 {
        seq![]
    } else {
        let r = action_lines_of(p, acts.drop_last(), name, person);
        if listed_for(acts.last(), name, person) {
            r.push("  ["@ + p.track@ + "] "@ + p.title@ + " \u{2014} "@ + acts.last().text@)
        } else {
            r
        }
    }
}

/// One line per listed action, project by project.
pub open spec fn action_lines(ps: Seq<Project>, name: Seq<char>, person: bool) -> Seq<Seq<char>>
    decreases ps.len(),
{
    if ps.len() == 0 {
        seq![]
    } else {
        action_lines(ps.drop_last(), name, person) + action_lines_of(ps.last(), ps.last().actions@, name, person)
    }
}

/// The name as the report shows it: normalized, else as given.
pub open spec fn shown_name(name: Seq<char>, person: bool) -> Seq<char> {
    match normalized_token(name, if person { '&' } else { '@' }) {
        Some(t) => t,
        None => name,
    }
}

/// The `context` and `person` reports: the available actions that carry
/// the context or person, or a line saying there are none.
pub open spec fn actions_text(ps: Seq<Project>, name: Seq<char>, person: bool) -> Seq<char> {
    let marker = if person { "&"@ } else { "@"@ };
    let ls = action_lines(ps, name, person);
    if ls.len() == 0 {
        "No available actions for "@ + marker + shown_name(name, person) + ".\n"@
    } else {
        "Available actions for "@ + marker + shown_name(name, person) + " ("@ + decimal(ls.len())
            + "):\n\n"@ + join(ls, "\n"@) + "\n"@
    }
}

pub fn render_actions(projects: &Vec<Project>, name: &str, person: bool) -> (r: String)
    ensures
        r@ == actions_text(projects@, name@, person),
{
    let mut lines: Vec<Vec<char>> = Vec::new();
    let mut i: usize = 0;
    while i < projects.len()
        invariant
            i <= projects.len(),
            lines@.map_values(|l: Vec<char>| l@) == action_lines(projects@.take(i as int), name@, person),
        decreases projects.len() - i,
    {
        assert(projects@.take(i + 1).drop_last() =~= projects@.take(i as int));
        assert(projects@.take(i + 1).last() == projects@[i as int]);
        let p = &projects[i];
        let ghost base = lines@.map_values(|l: Vec<char>| l@);
        let mut j: usize = 0;
        assert(p.actions@.take(0) =~= Seq::<Action>::empty());
        assert(base + Seq::<Seq<char>>::empty() =~= base);
        while j < p.actions.len()
            invariant
                j <= p.actions.len(),
                lines@.map_values(|l: Vec<char>| l@) == base + action_lines_of(*p, p.actions@.take(j as int), name@, person),
            decreases p.actions.len() - j,
        {
            assert(p.actions@.take(j + 1).drop_last() =~= p.actions@.take(j as int));
            assert(p.actions@.take(j + 1).last() == p.actions@[j as int]);
            let a = &p.actions[j];
            let carries = if person {
                a.has_person(name)
            } else {
                a.has_context(name)
            };
            if a.available && carries {
                let ghost before = lines@.map_values(|l: Vec<char>| l@);
                let mut line = chars_of("  [");
                append(&mut line, &chars_of(p.track.as_str()));
                append(&mut line, &chars_of("] "));
                append(&mut line, &chars_of(p.title.as_str()));
                append(&mut line, &chars_of(" \u{2014} "));
                append(&mut line, &chars_of(a.text.as_str()));
                lines.push(line);
                assert(lines@.map_values(|l: Vec<char>| l@) =~= before.push(
                    "  ["@ + p.track@ + "] "@ + p.title@ + " \u{2014} "@ + a.text@,
                ));
            }
            j = j + 1;
        }
        assert(p.actions@.take(j as int) =~= p.actions@);
        i = i + 1;
    }
    assert(projects@.take(i as int) =~= projects@);
    let normalized = if person {
        crate::action::normalize_person(name)
    } else {
        crate::action::normalize_context(name)
    };
    let shown = match normalized {
        Some(t) => chars_of(t.as_str()),
        None => chars_of(name),
    };
    let marker = if person {
        chars_of("&")
    } else {
        chars_of("@")
    };
    if lines.len() == 0 {
        let mut out = chars_of("No available actions for ");
        append(&mut out, &marker);
        append(&mut out, &shown);
        append(&mut out, &chars_of(".\n"));
        return string_of(&out);
    }
    let mut out = chars_of("Available actions for ");
    append(&mut out, &marker);
    append(&mut out, &shown);
    append(&mut out, &chars_of(" ("));
    append(&mut out, &decimal_chars(lines.len() as u128));
    append(&mut out, &chars_of("):\n\n"));
    append(&mut out, &join_with(&lines, &chars_of("\n")));
    append(&mut out, &chars_of("\n"));
    string_of(&out)
}

/// The line of the context or person report for an action of a project.
pub open spec fn action_report_line(p: Project, a: Action) -> Seq<char> {
    "  ["@ + p.track@ + "] "@ + p.title@ + " \u{2014} "@ + a.text@
}

/// The action carries the (normalized) context or person `name`.
pub open spec fn carries_name(a: Action, name: Seq<char>, person: bool) -> bool {
    match normalized_token(name, if person { '&' } else { '@' }) {
        Some(t) => if person {
            a@.people.contains(t)
        } else {
            a@.contexts.contains(t)
        },
        None => false,
    }
}

/// The `j`-th action of the `i`-th project is available, carries the name
/// and gives the line `line`.
pub open spec fn listed_source(ps: Seq<Project>, name: Seq<char>, person: bool, i: int, j: int, line: Seq<char>) -> bool {
    &&& 0 <= i < ps.len()
    &&& 0 <= j < ps[i].actions@.len()
    &&& ps[i].actions@[j].available
    &&& carries_name(ps[i].actions@[j], name, person)
    &&& line == action_report_line(ps[i], ps[i].actions@[j])
}

proof fn lemma_action_lines_of_sources(p: Project, acts: Seq<Action>, name: Seq<char>, person: bool) -> (src: Seq<int>)
    ensures
        src.len() == action_lines_of(p, acts, name, person).len(),
        forall|k: int|
            0 <= k < src.len() ==> 0 <= #[trigger] src[k] < acts.len() && acts[src[k]].available && carries_name(
                acts[src[k]],
                name,
                person,
            ) && action_lines_of(p, acts, name, person)[k] == action_report_line(p, acts[src[k]]),
    decreases acts.len(),
{
    if acts.len() == 0 {
        Seq::empty()
    } else {
        let d = acts.drop_last();
        let prev = lemma_action_lines_of_sources(p, d, name, person);
        if listed_for(acts.last(), name, person) {
            let src = prev.push(acts.len() - 1);
            assert forall|k: int| 0 <= k < src.len() implies 0 <= #[trigger] src[k] < acts.len()
                && acts[src[k]].available && carries_name(acts[src[k]], name, person) && action_lines_of(
                p,
                acts,
                name,
                person,
            )[k] == action_report_line(p, acts[src[k]]) by {
                if k < prev.len() {
                    assert(src[k] == prev[k]);
                    assert(acts[prev[k]] == d[prev[k]]);
                }
            }
            src
        } else {
            assert forall|k: int| 0 <= k < prev.len() implies 0 <= #[trigger] prev[k] < acts.len()
                && acts[prev[k]].available && carries_name(acts[prev[k]], name, person) && action_lines_of(
                p,
                acts,
                name,
                person,
            )[k] == action_report_line(p, acts[prev[k]]) by {
                assert(acts[prev[k]] == d[prev[k]]);
            }
            prev
        }
    }
}

/// Every line of the context or person report comes from an action that is
/// available and carries the name (the `k`-th line from the action
/// `src[k]`, as project and action positions): unavailable and completed
/// actions are never listed.
pub proof fn lemma_action_lines_sources(ps: Seq<Project>, name: Seq<char>, person: bool) -> (src: Seq<(int, int)>)
    ensures
        src.len() == action_lines(ps, name, person).len(),
        forall|k: int|
            0 <= k < src.len() ==> listed_source(ps, name, person, (#[trigger] src[k]).0, src[k].1, action_lines(ps, name, person)[k]),
    decreases ps.len(),
{
    if ps.len() == 0 {
        Seq::empty()
    } else {
        let d = ps.drop_last();
        let head = lemma_action_lines_sources(d, name, person);
        let last = ps.last();
        let tail = lemma_action_lines_of_sources(last, last.actions@, name, person);
        let n = ps.len() - 1;
        let src = head + tail.map_values(|j: int| (n, j));
        let ls = action_lines(ps, name, person);
        let hl = action_lines(d, name, person);
        assert forall|k: int| 0 <= k < src.len() implies listed_source(ps, name, person, (#[trigger] src[k]).0, src[k].1, ls[k]) by {
            if k < head.len() {
                assert(src[k] == head[k]);
                assert(ps[head[k].0] == d[head[k].0]);
                assert(ls[k] == hl[k]);
            } else {
                assert(src[k] == (n, tail[k - head.len()]));
                assert(ps[n] == last);
                assert(ls[k] == action_lines_of(last, last.actions@, name, person)[k - head.len()]);
            }
        }
        src
    }
}

/// The number of projects in a track.
pub open spec fn projects_in(ps: Seq<Project>, track: Seq<char>) -> nat
    decreases ps.len(),
{
    if ps.len() == 0 {
        0
    } else {
        projects_in(ps.drop_last(), track) + if ps.last().track@ == track {
            1nat
        } else {
            0nat
        }
    }
}

proof fn lemma_track_members_count(ps: Seq<Project>, n: int, track: Seq<char>)
    requires
        0 <= n <= ps.len(),
    ensures
        members(ps, all_positions(n), true, track).len() == projects_in(ps.take(n), track),
    decreases n,
{
    if n > 0 {
        lemma_track_members_count(ps, n - 1, track);
        assert(all_positions(n).drop_last() =~= all_positions(n - 1));
        assert(all_positions(n).last() == n - 1);
        assert(ps.take(n).drop_last() =~= ps.take(n - 1));
        assert(ps.take(n).last() == ps[n - 1]);
    } else {
        assert(ps.take(0).len() == 0);
    }
}

proof fn lemma_groups_members(ps: Seq<Project>, rs: Seq<u64>, sel: Seq<int>, by_track: bool, order: Seq<Seq<char>>)
    ensures
        forall|g: int|
            0 <= g < groups_in(ps, rs, sel, by_track, order).len() ==> (#[trigger] groups_in(ps, rs, sel, by_track, order)[g]).1.len()
                == members(ps, sel, by_track, groups_in(ps, rs, sel, by_track, order)[g].0).len(),
    decreases order.len(),
{
    if order.len() > 0 {
        lemma_groups_members(ps, rs, sel, by_track, order.drop_last());
        let prev = groups_in(ps, rs, sel, by_track, order.drop_last());
        let gs = groups_in(ps, rs, sel, by_track, order);
        let k = order.last();
        lemma_sort_by_keeps(members(ps, sel, by_track, k), project_order(ps, rs), |x: int| x);
        assert forall|g: int| 0 <= g < gs.len() implies (#[trigger] gs[g]).1.len() == members(ps, sel, by_track, gs[g].0).len() by {
            if g < prev.len() {
                assert(gs[g] == prev[g]);
            }
        }
    }
}

/// In the summary, the line of each track starts, right after the lines of
/// the tracks before it, with the track's name and, in brackets, its number
/// of projects.
pub proof fn lemma_summary_track_counts(ps: Seq<Project>, rs: Seq<u64>, tracks: Seq<Seq<char>>, statuses: Seq<Seq<char>>, g: int)
    requires
        0 <= g < grouped(ps, rs, all_positions(ps.len() as int), true, tracks).len(),
    ensures
        ({
            let gs = grouped(ps, rs, all_positions(ps.len() as int), true, tracks);
            let track = gs[g].0;
            exists|rest: Seq<char>|
                #[trigger] summary_lines(ps, gs.take(g + 1), statuses) == summary_lines(ps, gs.take(g), statuses)
                    + "  "@ + track + " ("@ + decimal(projects_in(ps, track)) + "): "@ + rest
        }),
{
    let gs = grouped(ps, rs, all_positions(ps.len() as int), true, tracks);
    let (track, ms) = gs[g];
    let sel = all_positions(ps.len() as int);
    lemma_groups_members(ps, rs, sel, true, ordered_key_list(tracks, sorted_keys(ps, sel, true)));
    assert(ms.len() == members(ps, sel, true, track).len());
    lemma_track_members_count(ps, ps.len() as int, track);
    assert(ps.take(ps.len() as int) =~= ps);
    let t = gs.take(g + 1);
    assert(t.drop_last() =~= gs.take(g));
    assert(t.last() == gs[g]);
    let rest = join(count_parts(ps, ms, ordered_key_list(statuses, sorted_keys(ps, ms, false))), ", "@) + "\n"@;
    assert(summary_lines(ps, t, statuses) =~= summary_lines(ps, gs.take(g), statuses) + "  "@ + track + " ("@
        + decimal(projects_in(ps, track)) + "): "@ + rest);
}

proof fn lemma_action_lines_of_complete(p: Project, acts: Seq<Action>, name: Seq<char>, person: bool, j: int)
    requires
        0 <= j < acts.len(),
        acts[j].available,
        carries_name(acts[j], name, person),
    ensures
        action_lines_of(p, acts, name, person).contains(action_report_line(p, acts[j])),
    decreases acts.len(),
{
    let d = acts.drop_last();
    let ls = action_lines_of(p, acts, name, person);
    let prev = action_lines_of(p, d, name, person);
    if j < acts.len() - 1 {
        assert(d[j] == acts[j]);
        lemma_action_lines_of_complete(p, d, name, person, j);
        let k = choose|k: int| 0 <= k < prev.len() && prev[k] == action_report_line(p, acts[j]);
        assert(ls[k] == prev[k]);
    } else {
        assert(listed_for(acts.last(), name, person));
        assert(ls[prev.len() as int] == action_report_line(p, acts[j]));
    }
}

/// Every available action that carries the name is listed in the context or
/// person report.
pub proof fn lemma_action_lines_complete(ps: Seq<Project>, name: Seq<char>, person: bool, i: int, j: int)
    requires
        0 <= i < ps.len(),
        0 <= j < ps[i].actions@.len(),
        ps[i].actions@[j].available,
        carries_name(ps[i].actions@[j], name, person),
    ensures
        action_lines(ps, name, person).contains(action_report_line(ps[i], ps[i].actions@[j])),
    decreases ps.len(),
{
    let d = ps.drop_last();
    let head = action_lines(d, name, person);
    let tail = action_lines_of(ps.last(), ps.last().actions@, name, person);
    let ls = action_lines(ps, name, person);
    assert(ls == head + tail);
    let line = action_report_line(ps[i], ps[i].actions@[j]);
    if i < ps.len() - 1 {
        assert(d[i] == ps[i]);
        lemma_action_lines_complete(d, name, person, i, j);
        let k = choose|k: int| 0 <= k < head.len() && head[k] == line;
        assert(ls[k] == head[k]);
    } else {
        lemma_action_lines_of_complete(ps.last(), ps.last().actions@, name, person, j);
        let k = choose|k: int| 0 <= k < tail.len() && tail[k] == line;
        assert(ls[head.len() + k] == tail[k]);
    }
}

} // verus!
