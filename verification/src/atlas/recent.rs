use vstd::prelude::*;

use crate::atlas::scanner::white_space;
use crate::atlas::text::{chars_eq, chars_of, string_from_chars};

verus! {

broadcast use vstd::string::group_string_axioms;

// ---------------------------------------------------------------------------
// Project files
// ---------------------------------------------------------------------------

/// The version a project file without one is read as.
pub fn default_project_version() -> (v: u32)
    ensures
        v == 1,
{
    1
}

/// Whether sprite bounds are shown, for a project file that does not say.
pub fn default_show_bounds() -> (b: bool)
    ensures
        b,
{
    true
}

// ---------------------------------------------------------------------------
// Display names
// ---------------------------------------------------------------------------

/// What `Path::file_stem` gives for the path, as text: its file name
/// without the extension, if it has a file name.
pub uninterp spec fn path_file_stem(path: Seq<char>) -> Option<Seq<char>>;

/// What `Path::file_name` gives for the path, as text: its last component,
/// if that is a normal one.
pub uninterp spec fn path_file_name(path: Seq<char>) -> Option<Seq<char>>;

/// `std::path::Path::file_stem`, taken as UTF-8 (a part of a `&str` always is).
#[verifier::external_body]
fn file_stem_of(path: &str) -> (r: Option<String>)
    ensures
        match r {
            Some(s) => path_file_stem(path@) == Some(s@),
            None => path_file_stem(path@) is None,
        },
{
    std::path::Path::new(path).file_stem().and_then(|s| s.to_str()).map(|s| s.to_string())
}

/// `std::path::Path::file_name`, taken as UTF-8 (a part of a `&str` always is).
#[verifier::external_body]
fn file_name_of(path: &str) -> (r: Option<String>)
    ensures
        match r {
            Some(s) => path_file_name(path@) == Some(s@),
            None => path_file_name(path@) is None,
        },
{
    std::path::Path::new(path).file_name().and_then(|s| s.to_str()).map(|s| s.to_string())
}

/// The name a project is listed under: the stem of its file name, else its
/// file name, else the path itself.
pub open spec fn display_name(path: Seq<char>) -> Seq<char> {
    match path_file_stem(path) {
        Some(stem) => stem,
        None => match path_file_name(path) {
            Some(name) => name,
            None => path,
        },
    }
}

/// The name a project file is listed under.
pub fn project_display_name(path: &str) -> (name: String)
    ensures
        name@ == display_name(path@),
{
    match file_stem_of(path) {
        Some(stem) => stem,
        None => match file_name_of(path) {
            Some(name) => name,
            None => path.to_string(),
        },
    }
}

// ---------------------------------------------------------------------------
// Trimming
// ---------------------------------------------------------------------------

/// `t` is `s` without the white space at either end (what `str::trim` gives).
pub open spec fn is_trim_of(t: Seq<char>, s: Seq<char>) -> bool {
    exists|a: int, b: int|
        {
            &&& 0 <= a <= b <= s.len()
            &&& t == s.subrange(a, b)
            &&& forall|k: int| 0 <= k < a ==> white_space(#[trigger] s[k])
            &&& forall|k: int| b <= k < s.len() ==> white_space(#[trigger] s[k])
            &&& a < b ==> !white_space(s[a]) && !white_space(s[b - 1])
        }
}

/// Two texts that are both `s` trimmed are the same.
pub proof fn lemma_trim_unique(t1: Seq<char>, t2: Seq<char>, s: Seq<char>)
    requires
        is_trim_of(t1, s),
        is_trim_of(t2, s),
    ensures
        t1 == t2,
{
    let (a1, b1) = choose|a: int, b: int|
        {
            &&& 0 <= a <= b <= s.len()
            &&& t1 == s.subrange(a, b)
            &&& forall|k: int| 0 <= k < a ==> white_space(#[trigger] s[k])
            &&& forall|k: int| b <= k < s.len() ==> white_space(#[trigger] s[k])
            &&& a < b ==> !white_space(s[a]) && !white_space(s[b - 1])
        };
    let (a2, b2) = choose|a: int, b: int|
        {
            &&& 0 <= a <= b <= s.len()
            &&& t2 == s.subrange(a, b)
            &&& forall|k: int| 0 <= k < a ==> white_space(#[trigger] s[k])
            &&& forall|k: int| b <= k < s.len() ==> white_space(#[trigger] s[k])
            &&& a < b ==> !white_space(s[a]) && !white_space(s[b - 1])
        };
    if a1 < b1 {
        assert(!white_space(s[a1]));
        assert(!white_space(s[b1 - 1]));
        if a2 < b2 {
            assert(!white_space(s[a2]));
            assert(!white_space(s[b2 - 1]));
            assert(a1 == a2);
            assert(b1 == b2);
        } else {
            assert(false) by {
                if a1 < a2 {
                    assert(white_space(s[a1]));
                } else {
                    assert(b2 <= a1);
                    assert(white_space(s[a1]));
                }
            }
        }
    } else if a2 < b2 {
        assert(!white_space(s[a2]));
        assert(false) by {
            if a2 < a1 {
                assert(white_space(s[a2]));
            } else {
                assert(b1 <= a2);
                assert(white_space(s[a2]));
            }
        }
    }
    assert(t1 =~= t2);
}

/// The text without white space at either end.
pub fn trim_text(s: &str) -> (t: Vec<char>)
    ensures
        is_trim_of(t@, s@),
{
    let chars = chars_of(s);
    let n = chars.len();
    let mut a: usize = 0;
    while a < n && white_space_char(chars[a])
        invariant
            a <= n == chars@.len(),
            forall|k: int| 0 <= k < a ==> white_space(#[trigger] chars@[k]),
        decreases n - a,
    {
        a += 1;
    }
    let mut b: usize = n;
    while b > a && white_space_char(chars[b - 1])
        invariant
            a <= b <= n == chars@.len(),
            forall|k: int| b <= k < n ==> white_space(#[trigger] chars@[k]),
        decreases b - a,
    {
        b -= 1;
    }
    let mut t: Vec<char> = Vec::new();
    let mut i: usize = a;
    while i < b
        invariant
            a <= i <= b <= n == chars@.len(),
            t@ == chars@.subrange(a as int, i as int),
        decreases b - i,
    {
        t.push(chars[i]);
        i += 1;
    }
    proof {
        if a < b {
            assert(a < n);
        }
        assert(is_trim_of(t@, s@)) by {
            assert(chars@ == s@);
        }
    }
    t
}

/// `char::is_whitespace`.
fn white_space_char(c: char) -> (r: bool)
    ensures
        r == white_space(c),
{
    ('\t' <= c && c <= '\r') || c == ' ' || c == '\u{85}' || c == '\u{A0}' || c == '\u{1680}' || ('\u{2000}' <= c
        && c <= '\u{200A}') || c == '\u{2028}' || c == '\u{2029}' || c == '\u{202F}' || c == '\u{205F}' || c
        == '\u{3000}'
}

// ---------------------------------------------------------------------------
// The list of recent projects
// ---------------------------------------------------------------------------

/// How many projects the recent list keeps.
pub const RECENT_PROJECTS_LIMIT: usize = 12;

/// A project in the recent list as it is saved.
pub struct PersistedRecentProject {
    pub path: String,
    pub name: String,
    pub last_opened_at: u64,
}

/// The projects whose path is not `path`, in their order.
pub open spec fn without_path(projects: Seq<PersistedRecentProject>, path: Seq<char>) -> Seq<
    PersistedRecentProject,
>
    decreases projects.len(),
{
    if projects.len() == 0 {
        Seq::empty()
    } else {
        let rest = without_path(projects.drop_last(), path);
        if projects.last().path@ == path {
            rest
        } else {
            rest.push(projects.last())
        }
    }
}

/// The list after `path` was opened at `now`: unchanged when the path is
/// blank; else the project first, named after its file, then the others
/// with another path, at most `RECENT_PROJECTS_LIMIT` of them.
pub open spec fn recorded(
    projects: Seq<PersistedRecentProject>,
    path: Seq<char>,
    now: u64,
    r: Seq<PersistedRecentProject>,
) -> bool {
    exists|t: Seq<char>|
        {
            &&& #[trigger] is_trim_of(t, path)
            &&& t.len() == 0 ==> r == projects
            &&& t.len() > 0 ==> {
                let listed = without_path(projects, t);
                let all_len: int = listed.len() + 1int;
                let keep = if all_len <= RECENT_PROJECTS_LIMIT {
                    all_len
                } else {
                    RECENT_PROJECTS_LIMIT as int
                };
                &&& r.len() == keep
                &&& r[0].path@ == t
                &&& r[0].name@ == display_name(t)
                &&& r[0].last_opened_at == now
                &&& r.skip(1) == listed.take(keep - 1)
            }
        }
}

/// No project left by `without_path` has that path.
pub proof fn lemma_without_path(projects: Seq<PersistedRecentProject>, path: Seq<char>)
    ensures
        forall|k: int|
            0 <= k < without_path(projects, path).len() ==> (#[trigger] without_path(projects, path)[k]).path@
                != path,
        without_path(projects, path).len() <= projects.len(),
    decreases projects.len(),
{
    if projects.len() > 0 {
        lemma_without_path(projects.drop_last(), path);
    }
}

/// Once a project is recorded under a path that is not blank, it heads the
/// list and no other entry has its path.
pub proof fn lemma_recorded_once(
    projects: Seq<PersistedRecentProject>,
    path: Seq<char>,
    now: u64,
    r: Seq<PersistedRecentProject>,
    trimmed: Seq<char>,
)
    requires
        recorded(projects, path, now, r),
        is_trim_of(trimmed, path),
        trimmed.len() > 0,
    ensures
        r.len() >= 1,
        r[0].path@ == trimmed,
        r[0].last_opened_at == now,
        forall|k: int| 1 <= k < r.len() ==> (#[trigger] r[k]).path@ != trimmed,
{
    let t = choose|t: Seq<char>|
        {
            &&& #[trigger] is_trim_of(t, path)
            &&& t.len() == 0 ==> r == projects
            &&& t.len() > 0 ==> {
                let listed = without_path(projects, t);
                let all_len: int = listed.len() + 1int;
                let keep = if all_len <= RECENT_PROJECTS_LIMIT {
                    all_len
                } else {
                    RECENT_PROJECTS_LIMIT as int
                };
                &&& r.len() == keep
                &&& r[0].path@ == t
                &&& r[0].name@ == display_name(t)
                &&& r[0].last_opened_at == now
                &&& r.skip(1) == listed.take(keep - 1)
            }
        };
    lemma_trim_unique(t, trimmed, path);
    lemma_without_path(projects, t);
    assert forall|k: int| 1 <= k < r.len() implies (#[trigger] r[k]).path@ != trimmed by {
        assert(r[k] == r.skip(1)[k - 1]);
    }
}

/// Records that the project at `path` was opened at `now`: it moves to the
/// front of the list (once), and the list keeps at most
/// `RECENT_PROJECTS_LIMIT` projects. A blank path leaves the list as it is.
pub fn record_recent_project(projects: Vec<PersistedRecentProject>, path: &str, now: u64) -> (r: Vec<
    PersistedRecentProject,
>)
    ensures
        recorded(projects@, path@, now, r@),
{
    let ghost start = projects@;
    let t = trim_text(path);
    if t.len() == 0 {
        return projects;
    }
    let mut rest = projects;
    let mut kept: Vec<PersistedRecentProject> = Vec::new();
    let ghost mut i: int = 0;
    while rest.len() > 0
        invariant
            0 <= i <= start.len(),
            rest@ == start.skip(i),
            kept@ == without_path(start.take(i), t@),
        decreases rest@.len(),
    {
        let p = rest.remove(0);
        proof {
            assert(start.take(i + 1).drop_last() == start.take(i));
            assert(start.skip(i)[0] == start[i]);
            assert(start.take(i + 1).last() == start[i]);
            assert(start.skip(i + 1) == start.skip(i).remove(0));
            i = i + 1;
        }
        let same = chars_eq(&chars_of(p.path.as_str()), &t);
        if !same {
            kept.push(p);
        }
    }
    proof {
        assert(start.skip(i).len() == 0);
        assert(start.take(i) == start);
    }
    let text = string_from_chars(&t);
    let name = project_display_name(text.as_str());
    let entry = PersistedRecentProject { path: text, name, last_opened_at: now };
    kept.insert(0, entry);
    let ghost full = kept@;
    kept.truncate(RECENT_PROJECTS_LIMIT);
    proof {
        let listed = without_path(start, t@);
        assert(full == seq![entry] + listed);
        assert(kept@.skip(1) =~= listed.take(kept@.len() - 1));
        assert(is_trim_of(t@, path@));
    }
    kept
}

} // verus!
