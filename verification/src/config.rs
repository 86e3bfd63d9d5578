//! The configuration of an HQ directory: its tracks, the files to skip, the
//! threshold for stale waiting projects, the order of statuses, the default
//! owner of new projects and the tracks with their own submission series.

use vstd::prelude::*;

use crate::text::{chars_of, eq, split_on, string_of};

verus! {

/// Days a project may wait before it is stale.
pub const DEFAULT_STALE_DAYS: i64 = 30;

/// The configuration in effect.
#[derive(Debug)]
pub struct Config {
    pub tracks: Vec<String>,
    pub skip_files: Vec<String>,
    pub stale_days: i64,
    pub statuses: Vec<String>,
    pub default_owner: Option<String>,
    pub pulse_tracks: Vec<String>,
}

/// What `hq.toml` may set; every entry is optional.
#[derive(Debug, Clone)]
pub struct ConfigFile {
    pub tracks: Option<Vec<String>>,
    pub skip_tracks: Option<Vec<String>>,
    pub skip_files: Option<Vec<String>>,
    pub stale_days: Option<i64>,
    pub statuses: Option<Vec<String>>,
    pub default_owner: Option<String>,
    pub pulse_tracks: Option<Vec<String>>,
}

pub open spec fn strs(v: Seq<String>) -> Seq<Seq<char>> {
    v.map_values(|s: String| s@)
}

/// The statuses in board order, `my-plate` first.
pub open spec fn default_status_list() -> Seq<Seq<char>> {
    seq![
        "my-plate"@,
        "active"@,
        "waiting"@,
        "deferred"@,
        "submitted"@,
        "done"@,
        "dropped"@,
    ]
}

/// Directories never taken for tracks unless configured otherwise.
pub open spec fn default_skip_list() -> Seq<Seq<char>> {
    seq!["node_modules"@, "target"@, "vendor"@, "dist"@, "build"@, "out"@]
}

fn strings(items: &[&str]) -> (r: Vec<String>)
    ensures
        strs(r@) == items@.map_values(|s: &str| s@),
{
    let mut r: Vec<String> = Vec::new();
    let mut i: usize = 0;
    while i < items.len()
        invariant
            i <= items.len(),
            strs(r@) == items@.map_values(|s: &str| s@).subrange(0, i as int),
        decreases items.len() - i,
    {
        let ghost before = strs(r@);
        let s = string_of(&chars_of(items[i]));
        r.push(s);
        assert(strs(r@) =~= before.push(s@));
        assert(items@.map_values(|s: &str| s@).subrange(0, i + 1) =~= items@.map_values(
            |s: &str| s@,
        ).subrange(0, i as int).push(s@));
        i = i + 1;
    }
    assert(items@.map_values(|s: &str| s@).subrange(0, items.len() as int) =~= items@.map_values(
        |s: &str| s@,
    ));
    r
}

/// The default statuses.
pub fn default_statuses() -> (r: Vec<String>)
    ensures
        strs(r@) == default_status_list(),
{
    let items = ["my-plate", "active", "waiting", "deferred", "submitted", "done", "dropped"];
    let r = strings(&items);
    assert(items@.map_values(|s: &str| s@) =~= default_status_list());
    r
}

/// The directories skipped when discovering tracks.
pub fn default_skip_tracks() -> (r: Vec<String>)
    ensures
        strs(r@) == default_skip_list(),
{
    let items = ["node_modules", "target", "vendor", "dist", "build", "out"];
    let r = strings(&items);
    assert(items@.map_values(|s: &str| s@) =~= default_skip_list());
    r
}

/// A directory name that discovery passes over: hidden, `_`-prefixed, or skipped.
pub open spec fn skipped_dir(name: Seq<char>, skip: Seq<Seq<char>>) -> bool {
    (name.len() > 0 && (name[0] == '.' || name[0] == '_')) || skip.contains(name)
}

/// Whether discovery passes over a directory.
pub fn is_skipped_dir(name: &str, skip_tracks: &Vec<String>) -> (r: bool)
    ensures
        r == skipped_dir(name@, strs(skip_tracks@)),
{
    let n = chars_of(name);
    if n.len() > 0 && (n[0] == '.' || n[0] == '_') {
        return true;
    }
    let ghost sv = strs(skip_tracks@);
    let mut i: usize = 0;
    while i < skip_tracks.len()
        invariant
            i <= skip_tracks.len(),
            sv == strs(skip_tracks@),
            n@ == name@,
            forall|j: int| 0 <= j < i ==> sv[j] != name@,
        decreases skip_tracks.len() - i,
    {
        if eq(&chars_of(skip_tracks[i].as_str()), &n) {
            assert(sv[i as int] == name@);
            return true;
        }
        i = i + 1;
    }
    false
}

/// A configured track whose path stays inside the directory as written: not
/// empty, relative, no `..` component and no leading `.`.
pub open spec fn track_lexically_safe(track: Seq<char>) -> bool {
    let parts = split_on(track, '/');
    &&& track.len() > 0
    &&& track[0] != '/'
    &&& parts[0] != "."@
    &&& forall|i: int| 0 <= i < parts.len() ==> #[trigger] parts[i] != ".."@
}

/// Whether a configured track is safe as written.
pub fn is_lexically_safe_track(track: &str) -> (r: bool)
    ensures
        r == track_lexically_safe(track@),
{
    proof {
        reveal_strlit(".");
        reveal_strlit("..");
    }
    let t = chars_of(track);
    if t.len() == 0 || t[0] == '/' {
        return false;
    }
    let parts = crate::text::split_char(&t, '/');
    let ghost pv = parts@.map_values(|p: Vec<char>| p@);
    let dot = vec!['.'];
    let dots = vec!['.', '.'];
    assert(dot@ =~= "."@);
    assert(dots@ =~= ".."@);
    if eq(&parts[0], &dot) {
        assert(pv[0] == "."@);
        return false;
    }
    let mut i: usize = 0;
    while i < parts.len()
        invariant
            i <= parts.len(),
            pv == parts@.map_values(|p: Vec<char>| p@),
            pv == split_on(t@, '/'),
            t@ == track@,
            dots@ == ".."@,
            forall|j: int| 0 <= j < i ==> #[trigger] pv[j] != ".."@,
        decreases parts.len() - i,
    {
        if eq(&parts[i], &dots) {
            assert(pv[i as int] == ".."@);
            return false;
        }
        i = i + 1;
    }
    true
}

impl Config {
    /// The configuration without `hq.toml`: the discovered tracks and defaults.
    pub fn with_defaults(discovered: Vec<String>) -> (r: Self)
        ensures
            r.tracks@ == discovered@,
            r.skip_files@.len() == 0,
            r.stale_days == DEFAULT_STALE_DAYS,
            strs(r.statuses@) == default_status_list(),
            r.default_owner is None,
            r.pulse_tracks@.len() == 0,
    {
        Config {
            tracks: discovered,
            skip_files: Vec::new(),
            stale_days: DEFAULT_STALE_DAYS,
            statuses: default_statuses(),
            default_owner: None,
            pulse_tracks: Vec::new(),
        }
    }

    /// The configuration from `hq.toml`: configured tracks are kept when
    /// they are safe as written and `inside[i]` says track `i` resolves
    /// inside the directory; without configured tracks, the discovered ones.
    pub fn from_file(file: ConfigFile, discovered: Vec<String>, inside: &Vec<bool>) -> (r: Self)
        requires
            file.tracks matches Some(ts) ==> inside@.len() == ts@.len(),
        ensures
            file.tracks is None ==> r.tracks@ == discovered@,
            match file.skip_files {
                Some(s) => r.skip_files@ == s@,
                None => r.skip_files@.len() == 0,
            },
            r.stale_days == match file.stale_days {
                Some(d) => d,
                None => DEFAULT_STALE_DAYS,
            },
            match file.statuses {
                Some(s) => r.statuses@ == s@,
                None => strs(r.statuses@) == default_status_list(),
            },
            file.tracks matches Some(ts) ==> kept_tracks(strs(ts@), inside@) == strs(r.tracks@),
            r.default_owner == file.default_owner,
            match file.pulse_tracks {
                Some(p) => r.pulse_tracks@ == p@,
                None => r.pulse_tracks@.len() == 0,
            },
    {
        let tracks = match file.tracks {
            Some(ts) => {
                let mut kept: Vec<String> = Vec::new();
                let mut i: usize = 0;
                let ghost tv = strs(ts@);
                while i < ts.len()
                    invariant
                        i <= ts.len(),
                        tv == strs(ts@),
                        inside@.len() == ts@.len(),
                        strs(kept@) == kept_tracks(tv.subrange(0, i as int), inside@),
                    decreases ts.len() - i,
                {
                    let ghost before = strs(kept@);
                    assert(tv.subrange(0, i + 1).drop_last() =~= tv.subrange(0, i as int));
                    if is_lexically_safe_track(ts[i].as_str()) && inside[i] {
                        let s = string_of(&chars_of(ts[i].as_str()));
                        kept.push(s);
                        assert(strs(kept@) =~= before.push(s@));
                    }
                    i = i + 1;
                }
                assert(tv.subrange(0, ts.len() as int) =~= tv);
                kept
            },
            None => discovered,
        };
        Config {
            tracks,
            skip_files: match file.skip_files {
                Some(s) => s,
                None => Vec::new(),
            },
            stale_days: match file.stale_days {
                Some(d) => d,
                None => DEFAULT_STALE_DAYS,
            },
            statuses: match file.statuses {
                Some(s) => s,
                None => default_statuses(),
            },
            default_owner: file.default_owner,
            pulse_tracks: match file.pulse_tracks {
                Some(p) => p,
                None => Vec::new(),
            },
        }
    }
}

/// The configured tracks kept: safe as written and inside the directory.
pub open spec fn kept_tracks(ts: Seq<Seq<char>>, inside: Seq<bool>) -> Seq<Seq<char>>
    decreases ts.len(),
{
    if ts.len() == 0 {
        Seq::empty()
    } else {
        let prev = kept_tracks(ts.drop_last(), inside);
        if track_lexically_safe(ts.last()) && inside[ts.len() - 1] {
            prev.push(ts.last())
        } else {
            prev
        }
    }
}

/// Discovery passes over every directory that `skip_tracks` lists, and over
/// every hidden or `_`-prefixed one; any other directory is a track.
pub proof fn lemma_skipped_dirs(name: Seq<char>, skip: Seq<Seq<char>>)
    ensures
        skip.contains(name) ==> skipped_dir(name, skip),
        name.len() > 0 && (name[0] == '.' || name[0] == '_') ==> skipped_dir(name, skip),
        !skip.contains(name) && !(name.len() > 0 && (name[0] == '.' || name[0] == '_')) ==> !skipped_dir(
            name,
            skip,
        ),
{
}

} // verus!
