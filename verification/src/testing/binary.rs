//! Where the `nb` executable is looked for.

use crate::error;
use crate::git;
use crate::paths;
use crate::paths::join;
use crate::text;
use vstd::prelude::*;

verus! {

/// The directories that a child process always has on its path.
pub const SAFE_PATH_DIRS: [&'static str; 8] = [
    "/opt/homebrew/bin",
    "/opt/homebrew/sbin",
    "/usr/local/bin",
    "/usr/local/sbin",
    "/usr/bin",
    "/bin",
    "/usr/sbin",
    "/sbin",
];

/// The directories that a child process always has on its path.
pub open spec fn safe_dirs() -> Seq<Seq<char>> {
    seq![
        "/opt/homebrew/bin"@,
        "/opt/homebrew/sbin"@,
        "/usr/local/bin"@,
        "/usr/local/sbin"@,
        "/usr/bin"@,
        "/bin"@,
        "/usr/sbin"@,
        "/sbin"@,
    ]
}

/// The directories that a child process always has on its path.
pub fn safe_path_dirs() -> (r: Vec<String>)
    ensures
        text::texts(r@) == safe_dirs(),
{
    let mut out = text::no_texts();
    text::push_text(&mut out, "/opt/homebrew/bin");
    text::push_text(&mut out, "/opt/homebrew/sbin");
    text::push_text(&mut out, "/usr/local/bin");
    text::push_text(&mut out, "/usr/local/sbin");
    text::push_text(&mut out, "/usr/bin");
    text::push_text(&mut out, "/bin");
    text::push_text(&mut out, "/usr/sbin");
    text::push_text(&mut out, "/sbin");
    assert(text::texts(out@) =~= safe_dirs());
    out
}

/// The executable at a path, given whether the platform calls the path absolute, and its form
/// with links resolved where there is one. A relative path is none.
pub fn canonicalize_executable(absolute: bool, found: Option<String>) -> (r: Option<String>)
    ensures
        r == (if absolute {
            found
        } else {
            None
        }),
{
    if !absolute {
        return None;
    }
    found
}

/// The executable that was asked for, or why it cannot be used, given whether the platform
/// calls the path absolute.
pub fn resolve_nb_override(path: &str, absolute: bool, found: Option<String>) -> (r: Result<
    String,
    String,
>)
    ensures
        match r {
            Ok(p) => absolute && found == Some(p),
            Err(reason) => if !absolute {
                reason@ == "path must be absolute (got relative "@ + text::debug_path_text(path@)
                    + "); relative overrides break after fixture current_dir changes"@
            } else {
                found is None && reason@
                    == "path is not an executable file after canonicalize: "@ + text::debug_path_text(
                    path@,
                )
            },
        },
{
    let quoted = text::debug_path(path);
    if !absolute {
        return Err(
            text::cat3(
                "path must be absolute (got relative ",
                quoted.as_str(),
                "); relative overrides break after fixture current_dir changes",
            ),
        );
    }
    match canonicalize_executable(absolute, found) {
        Some(p) => Ok(p),
        None => Err(
            text::cat2("path is not an executable file after canonicalize: ", quoted.as_str()),
        ),
    }
}

/// A directory that a test put on the path to mislead.
pub open spec fn poisoned(dir: Seq<char>) -> bool {
    text::find_text(dir, "poisoned"@, 0) is Some || text::find_text(dir, "nb-shim-"@, 0) is Some
        || "/nonexistent"@.is_prefix_of(dir)
}

/// Whether a directory was put on the path to mislead.
pub fn path_dir_looks_poisoned(dir: &str) -> (r: bool)
    ensures
        r == poisoned(dir@),
{
    text::find_text_in(dir, "poisoned").is_some() || text::find_text_in(dir, "nb-shim-").is_some()
        || text::starts_with(dir, "/nonexistent")
}

/// A directory of the path, and whether the platform calls it absolute.
#[derive(Debug, Clone, PartialEq, Eq)]
pub struct PathDir {
    pub path: String,
    pub absolute: bool,
}

/// The directories of the path.
pub open spec fn path_dirs(dirs: Seq<PathDir>) -> Seq<(Seq<char>, bool)> {
    Seq::new(dirs.len(), |i: int| (dirs[i].path@, dirs[i].absolute))
}

/// The directories among the first `n` that are absolute and do not mislead.
pub open spec fn trusted_dirs(dirs: Seq<(Seq<char>, bool)>, n: int) -> Seq<Seq<char>>
    decreases n,
{
    if n <= 0 {
        Seq::empty()
    } else if poisoned(dirs[n - 1].0) || !dirs[n - 1].1 {
        trusted_dirs(dirs, n - 1)
    } else {
        trusted_dirs(dirs, n - 1).push(dirs[n - 1].0)
    }
}

/// The directories that are searched: the fixed ones, that in the home, and those of the path.
pub open spec fn search_dirs(
    home: Option<Seq<char>>,
    path: Seq<(Seq<char>, bool)>,
    separator: char,
) -> Seq<Seq<char>> {
    let own = match home {
        Some(h) => safe_dirs().push(paths::joined(h, ".local/bin"@, separator)),
        None => safe_dirs(),
    };
    own + trusted_dirs(path, path.len() as int)
}

/// The candidates for the executable, in the order in which they are tried.
pub open spec fn candidates_of(
    names: Seq<Seq<char>>,
    home: Option<Seq<char>>,
    path: Seq<(Seq<char>, bool)>,
    separator: char,
) -> Seq<Seq<char>> {
    let dirs = search_dirs(home, path, separator);
    paths::names_in_all(dirs, names, dirs.len() as int, separator)
}

/// The directories that are searched.
fn directories(home: Option<String>, path: &Vec<PathDir>, separator: char) -> (r: Vec<String>)
    ensures
        text::texts(r@) == search_dirs(error::opt_text(home), path_dirs(path@), separator),
{
    let mut out = safe_path_dirs();
    if let Some(h) = &home {
        let local = join(h.as_str(), ".local/bin", separator);
        text::push_text(&mut out, local.as_str());
    }
    let ghost own = text::texts(out@);
    let ghost all = path_dirs(path@);
    let mut i: usize = 0;
    assert(own + trusted_dirs(all, 0) =~= own);
    while i < path.len()
        invariant
            i <= path.len(),
            all == path_dirs(path@),
            text::texts(out@) == own + trusted_dirs(all, i as int),
        decreases path.len() - i,
    {
        assert(all[i as int] == (path@[i as int].path@, path@[i as int].absolute));
        if !path_dir_looks_poisoned(path[i].path.as_str()) && path[i].absolute {
            text::push_text(&mut out, path[i].path.as_str());
        }
        assert(text::texts(out@) =~= own + trusted_dirs(all, i + 1));
        i += 1;
    }
    assert(all.len() == path@.len());
    out
}

/// The candidates for the executable, in the order in which they are tried.
pub fn candidates(
    names: &Vec<String>,
    home: Option<String>,
    path: &Vec<PathDir>,
    separator: char,
) -> (r: Vec<String>)
    ensures
        text::texts(r@) == candidates_of(
            text::texts(names@),
            error::opt_text(home),
            path_dirs(path@),
            separator,
        ),
{
    let dirs = directories(home, path, separator);
    paths::join_names(&dirs, names, separator)
}

/// The directories on the path of a child process: that of `nb`, and the safe ones.
pub open spec fn child_dirs(parent: Option<Seq<char>>) -> Seq<Seq<char>> {
    match parent {
        Some(p) => git::joined_new(seq![p], safe_dirs(), 8),
        None => git::joined_new(Seq::empty(), safe_dirs(), 8),
    }
}

/// The directories on the path of a child process, given the folder that the platform says
/// holds `nb`.
pub fn fixture_child_path(parent: Option<String>) -> (r: Vec<String>)
    ensures
        text::texts(r@) == child_dirs(error::opt_text(parent)),
{
    let mut out = text::no_texts();
    if let Some(p) = &parent {
        text::push_text(&mut out, p.as_str());
        assert(text::texts(out@) =~= seq![p@]);
    }
    let ghost start = text::texts(out@);
    let safe = safe_path_dirs();
    let ghost all = text::texts(safe@);
    let mut i: usize = 0;
    assert(all.len() == safe@.len());
    while i < safe.len()
        invariant
            i <= safe.len(),
            all == text::texts(safe@),
            all == safe_dirs(),
            all.len() == safe@.len(),
            text::texts(out@) == git::joined_new(start, all, i as int),
        decreases safe.len() - i,
    {
        assert(all[i as int] == safe@[i as int]@);
        if !text::list_contains(&out, safe[i].as_str()) {
            text::push_text(&mut out, safe[i].as_str());
        }
        i += 1;
    }
    out
}

/// A directory of the path that is searched is one that is absolute and does not mislead.
proof fn lemma_trusted_dirs(dirs: Seq<(Seq<char>, bool)>, n: int, k: int) -> (i: int)
    requires
        0 <= n <= dirs.len(),
        0 <= k < trusted_dirs(dirs, n).len(),
    ensures
        0 <= i < n,
        dirs[i] == (trusted_dirs(dirs, n)[k], true),
        !poisoned(dirs[i].0),
    decreases n,
{
    if k < trusted_dirs(dirs, n - 1).len() {
        lemma_trusted_dirs(dirs, n - 1, k)
    } else {
        n - 1
    }
}

/// Every candidate is one of the names in one of the fixed directories, in that of the home, or
/// in a directory of the path that is absolute and does not mislead: no relative directory is
/// ever searched, whatever is on the path.
pub proof fn law_candidates_are_absolute(
    names: Seq<Seq<char>>,
    home: Option<Seq<char>>,
    path: Seq<(Seq<char>, bool)>,
    separator: char,
    k: int,
) -> (at: (Seq<char>, int))
    requires
        0 <= k < candidates_of(names, home, path, separator).len(),
    ensures
        0 <= at.1 < names.len(),
        candidates_of(names, home, path, separator)[k] == paths::joined(
            at.0,
            names[at.1],
            separator,
        ),
        safe_dirs().contains(at.0) || (home matches Some(h) && at.0 == paths::joined(
            h,
            ".local/bin"@,
            separator,
        )) || (path.contains((at.0, true)) && !poisoned(at.0)),
{
    let dirs = search_dirs(home, path, separator);
    let (j, m) = paths::lemma_names_in_all(dirs, names, dirs.len() as int, separator, k);
    let safe = safe_dirs();
    let own = match home {
        Some(h) => safe.push(paths::joined(h, ".local/bin"@, separator)),
        None => safe,
    };
    if j < safe.len() {
        assert(dirs[j] == safe[j]);
    } else if j < own.len() {
        assert(dirs[j] == own[j]);
    } else {
        let i = lemma_trusted_dirs(path, path.len() as int, j - own.len());
        assert(path[i] == (dirs[j], true));
    }
    (dirs[j], m)
}

} // verus!
