//! Git commands on a notebook: their arguments, and what their results mean.

use crate::error;
use crate::error::{IoError, NbError, NbErrorView};
use crate::paths;
use crate::paths::Folder;
use crate::text;
use vstd::prelude::*;

verus! {

/// What a finished process left.
#[derive(Debug, Clone)]
pub struct Finished {
    pub success: bool,
    pub code: Option<i32>,
    pub stdout: Vec<u8>,
    pub stderr: Vec<u8>,
}

/// A text or an error, and its model, agree.
pub open spec fn text_agrees(r: Result<String, NbError>, model: Result<Seq<char>, NbErrorView>) -> bool {
    match r {
        Ok(s) => model == Ok::<Seq<char>, NbErrorView>(s@),
        Err(e) => model == Err::<Seq<char>, NbErrorView>(e@),
    }
}

/// The output of a Git command that succeeded, or its failure with what it printed.
pub open spec fn captured(args: Seq<Seq<char>>, p: Finished) -> Result<Seq<char>, NbErrorView> {
    let out = text::lossy_text(p.stdout@);
    let err = text::lossy_text(p.stderr@);
    if p.success {
        Ok(out)
    } else {
        Err(
            NbErrorView::CommandFailed {
                command: "git "@ + text::join(args, " "@),
                stderr: if err.len() == 0 {
                    out
                } else {
                    err
                },
                exit_code: p.code,
            },
        )
    }
}

/// The output of a Git command that succeeded.
pub fn git_captured(args: &Vec<String>, p: &Finished) -> (r: Result<String, NbError>)
    ensures
        text_agrees(r, captured(text::texts(args@), *p)),
{
    let out = text::from_utf8_lossy(p.stdout.as_slice());
    if p.success {
        return Ok(out);
    }
    let err = text::from_utf8_lossy(p.stderr.as_slice());
    let line = text::join_with(args, " ");
    Err(
        NbError::CommandFailed {
            command: text::cat2("git ", line.as_str()),
            stderr: if err.as_str().is_empty() {
                out
            } else {
                err
            },
            exit_code: p.code,
        },
    )
}

/// Git could not be started.
pub fn git_not_started(missing: bool, cwd: &str, source: IoError) -> (r: NbError)
    ensures
        r@ == (if missing {
            NbErrorView::ExecutableNotFound { path: "git"@ }
        } else {
            NbErrorView::Io { path: cwd@, source }
        }),
{
    if missing {
        NbError::ExecutableNotFound { path: "git".to_string() }
    } else {
        NbError::Io { path: cwd.to_string(), source }
    }
}

/// The arguments of `git rev-parse`.
pub fn rev_parse_args(args: &[String]) -> (r: Vec<String>)
    ensures
        text::texts(r@) == seq!["rev-parse"@] + text::texts(args@),
{
    let mut out = text::no_texts();
    text::push_text(&mut out, "rev-parse");
    let ghost all = text::texts(args@);
    let mut i: usize = 0;
    assert(text::texts(out@) =~= seq!["rev-parse"@] + all.take(0));
    while i < args.len()
        invariant
            i <= args.len(),
            all == text::texts(args@),
            text::texts(out@) == seq!["rev-parse"@] + all.take(i as int),
        decreases args.len() - i,
    {
        text::push_text(&mut out, args[i].as_str());
        proof {
            assert(all[i as int] == args@[i as int]@);
            assert(all.take(i + 1) =~= all.take(i as int).push(all[i as int]));
            assert(text::texts(out@) =~= seq!["rev-parse"@] + all.take(i + 1));
        }
        i += 1;
    }
    assert(all.take(all.len() as int) =~= all);
    assert(all.len() == args@.len());
    out
}

/// The path that `git rev-parse` printed, if it succeeded and printed one.
pub open spec fn printed_path(output: Option<Seq<char>>) -> Option<Seq<char>> {
    match output {
        Some(out) => if text::trim(out).len() == 0 {
            None
        } else {
            Some(text::trim(out))
        },
        None => None,
    }
}

/// The path that `git rev-parse` printed, if it succeeded and printed one.
pub fn git_rev_parse(captured: Result<String, NbError>) -> (r: Option<String>)
    ensures
        error::opt_text(r) == printed_path(
            match captured {
                Ok(s) => Some(s@),
                Err(_) => None,
            },
        ),
{
    match captured {
        Ok(out) => {
            let value = text::trimmed(out.as_str());
            if value.is_empty() {
                None
            } else {
                Some(value.to_string())
            }
        },
        Err(_) => None,
    }
}

/// The common Git directory of a notebook, before links in it are resolved: what Git printed,
/// below the notebook where the platform does not call that absolute.
pub fn git_common_dir(root: &Folder, printed: Option<String>, absolute: bool) -> (r: Result<
    String,
    NbError,
>)
    ensures
        match r {
            Ok(p) => printed matches Some(raw) && p@ == if absolute {
                raw@
            } else {
                paths::path_below(root@, raw@)
            },
            Err(e) => printed is None && e@ == error::invalid(
                "notebook path "@ + root@.path + " is not an initialized git repository"@,
            ),
        },
{
    match printed {
        Some(raw) => {
            if absolute {
                Ok(raw)
            } else {
                Ok(root.join(raw.as_str()))
            }
        },
        None => {
            let reason = text::cat3(
                "notebook path ",
                root.path.as_str(),
                " is not an initialized git repository",
            );
            Err(NbError::invalid(reason.as_str()))
        },
    }
}

/// The name of the notebook of a repository: that of the folder that holds its `.git`. Both
/// names are those that the platform gives for the common Git directory with links resolved,
/// its own and that of the folder above.
pub fn derive_git_notebook_name(name: Option<String>, folder: Option<String>) -> (r: Option<String>)
    ensures
        r == (if name matches Some(n) && n@ == ".git"@ {
            folder
        } else {
            None
        }),
{
    match name {
        Some(n) => {
            if text::equal(n.as_str(), ".git") {
                folder
            } else {
                None
            }
        },
        None => None,
    }
}

/// The revision that `git rev-parse HEAD` printed.
pub open spec fn head_of(output: Result<Seq<char>, NbErrorView>) -> Result<Seq<char>, NbErrorView> {
    match output {
        Err(e) => Err(e),
        Ok(out) => if text::trim(out).len() == 0 {
            Err(
                NbErrorView::CommandFailed {
                    command: "git rev-parse HEAD"@,
                    stderr: "empty HEAD"@,
                    exit_code: None,
                },
            )
        } else {
            Ok(text::trim(out))
        },
    }
}

/// The model of a text or an error.
pub open spec fn text_model(r: Result<String, NbError>) -> Result<Seq<char>, NbErrorView> {
    match r {
        Ok(s) => Ok(s@),
        Err(e) => Err(e@),
    }
}

/// The revision that `git rev-parse HEAD` printed.
pub fn notebook_head(captured: Result<String, NbError>) -> (r: Result<String, NbError>)
    ensures
        text_agrees(r, head_of(text_model(captured))),
{
    match captured {
        Err(e) => Err(e),
        Ok(out) => {
            let rev = text::trimmed(out.as_str());
            if rev.is_empty() {
                return Err(
                    NbError::CommandFailed {
                        command: "git rev-parse HEAD".to_string(),
                        stderr: "empty HEAD".to_string(),
                        exit_code: None,
                    },
                );
            }
            Ok(rev.to_string())
        },
    }
}

/// The status that `git status --porcelain` printed, for a report.
pub fn notebook_status_porcelain(captured: Result<String, NbError>) -> (r: Result<String, NbError>)
    ensures
        text_agrees(
            r,
            match captured {
                Ok(s) => Ok::<Seq<char>, NbErrorView>(text::trim(s@)),
                Err(e) => Err::<Seq<char>, NbErrorView>(e@),
            },
        ),
{
    match captured {
        Err(e) => Err(e),
        Ok(out) => Ok(text::trimmed(out.as_str()).to_string()),
    }
}

/// Whether the output of `git status --porcelain` shows changes.
pub fn status_is_dirty(output: &str) -> (r: bool)
    ensures
        r == (text::trim(output@).len() > 0),
{
    !text::trimmed(output).is_empty()
}

/// Whether a quiet Git comparison found a difference: exit code 0 says no, 1 says yes, and any
/// other is a failure.
pub fn differs(command: &str, code: Option<i32>, status: &str) -> (r: Result<bool, NbError>)
    ensures
        match r {
            Ok(yes) => code == Some(
                if yes {
                    1i32
                } else {
                    0i32
                },
            ),
            Err(e) => code != Some(0i32) && code != Some(1i32) && e@
                == (NbErrorView::CommandFailed {
                command: command@,
                stderr: "unexpected exit "@ + status@,
                exit_code: code,
            }),
        },
{
    match code {
        Some(0) => Ok(false),
        Some(1) => Ok(true),
        _ => Err(
            NbError::CommandFailed {
                command: command.to_string(),
                stderr: text::cat2("unexpected exit ", status),
                exit_code: code,
            },
        ),
    }
}

/// The commands that bring a worktree back to a revision and clean it.
pub fn notebook_reset_clean(revision: &str) -> (r: Vec<Vec<String>>)
    ensures
        r@.len() == 2,
        text::texts(r@[0]@) == seq!["reset"@, "--hard"@, revision@],
        text::texts(r@[1]@) == seq!["clean"@, "-fd"@],
{
    let mut reset = text::no_texts();
    text::push_text(&mut reset, "reset");
    text::push_text(&mut reset, "--hard");
    text::push_text(&mut reset, revision);
    assert(text::texts(reset@) =~= seq!["reset"@, "--hard"@, revision@]);
    let mut clean = text::no_texts();
    text::push_text(&mut clean, "clean");
    text::push_text(&mut clean, "-fd");
    assert(text::texts(clean@) =~= seq!["clean"@, "-fd"@]);
    let mut out: Vec<Vec<String>> = Vec::new();
    out.push(reset);
    out.push(clean);
    out
}

/// The command that makes a checkpoint.
pub fn commit_args(message: &str) -> (r: Vec<String>)
    ensures
        text::texts(r@) == seq!["commit"@, "-m"@, message@, "--no-gpg-sign"@],
{
    let mut out = text::no_texts();
    text::push_text(&mut out, "commit");
    text::push_text(&mut out, "-m");
    text::push_text(&mut out, message);
    text::push_text(&mut out, "--no-gpg-sign");
    assert(text::texts(out@) =~= seq!["commit"@, "-m"@, message@, "--no-gpg-sign"@]);
    out
}

/// The command that stages a path even where it is ignored.
pub fn force_add_args(path: &str) -> (r: Vec<String>)
    ensures
        text::texts(r@) == seq!["add"@, "-f"@, "--"@, path@],
{
    let mut out = text::no_texts();
    text::push_text(&mut out, "add");
    text::push_text(&mut out, "-f");
    text::push_text(&mut out, "--");
    text::push_text(&mut out, path);
    assert(text::texts(out@) =~= seq!["add"@, "-f"@, "--"@, path@]);
    out
}

/// The texts among the first `n` that are not empty.
pub open spec fn present(parts: Seq<Seq<char>>, n: int) -> Seq<Seq<char>>
    decreases n,
{
    if n <= 0 {
        Seq::empty()
    } else if parts[n - 1].len() == 0 {
        present(parts, n - 1)
    } else {
        present(parts, n - 1).push(parts[n - 1])
    }
}

/// The paths of a listing that is separated by NUL.
pub open spec fn nul_paths(output: Seq<char>) -> Seq<Seq<char>> {
    let parts = text::split(output, '\0');
    present(parts, parts.len() as int)
}

/// The paths of a listing that is separated by NUL.
fn split_nul(output: &str) -> (r: Vec<String>)
    ensures
        text::texts(r@) == nul_paths(output@),
{
    let parts = text::split_on(output, '\0');
    let ghost all = text::texts(parts@);
    let mut out = text::no_texts();
    let mut i: usize = 0;
    while i < parts.len()
        invariant
            i <= parts.len(),
            all == text::texts(parts@),
            text::texts(out@) == present(all, i as int),
        decreases parts.len() - i,
    {
        assert(all[i as int] == parts@[i as int]@);
        if !parts[i].as_str().is_empty() {
            text::push_text(&mut out, parts[i].as_str());
        }
        i += 1;
    }
    assert(all.len() == parts@.len());
    out
}

/// The existing paths that Git ignores, from `git ls-files --others --ignored`.
pub fn list_ignored_paths(output: &str) -> (r: Vec<String>)
    ensures
        text::texts(r@) == nul_paths(output@),
{
    split_nul(output)
}

/// The list with those of the first `n` texts that it does not hold.
pub open spec fn joined_new(list: Seq<Seq<char>>, more: Seq<Seq<char>>, n: int) -> Seq<Seq<char>>
    decreases n,
{
    if n <= 0 {
        list
    } else {
        let before = joined_new(list, more, n - 1);
        if before.contains(more[n - 1]) {
            before
        } else {
            before.push(more[n - 1])
        }
    }
}

/// A folder that a list of paths shows: itself, or by something in it.
pub open spec fn shown(list: Seq<Seq<char>>, folder: Seq<char>) -> bool {
    exists|k: int|
        0 <= k < list.len() && (#[trigger] list[k] == folder || (folder + "/"@).is_prefix_of(
            list[k],
        ))
}

/// The list with those of the first `n` folders that it does not show.
pub open spec fn joined_folders(list: Seq<Seq<char>>, folders: Seq<Seq<char>>, n: int) -> Seq<
    Seq<char>,
>
    decreases n,
{
    if n <= 0 {
        list
    } else {
        let before = joined_folders(list, folders, n - 1);
        if shown(before, folders[n - 1]) {
            before
        } else {
            before.push(folders[n - 1])
        }
    }
}

/// The paths of a notebook: the files that Git tracks, those that it does not track and does
/// not ignore, and the folders that these do not show.
pub open spec fn notebook_paths(
    tracked_out: Seq<char>,
    untracked_out: Seq<char>,
    folders: Seq<Seq<char>>,
) -> Seq<Seq<char>> {
    let more = nul_paths(untracked_out);
    let files = joined_new(nul_paths(tracked_out), more, more.len() as int);
    joined_folders(files, folders, folders.len() as int)
}

/// Whether a list of paths shows a folder.
fn shows(list: &Vec<String>, folder: &str) -> (r: bool)
    ensures
        r == shown(text::texts(list@), folder@),
{
    let ghost all = text::texts(list@);
    let inside = text::cat2(folder, "/");
    let mut i: usize = 0;
    while i < list.len()
        invariant
            i <= list.len(),
            all == text::texts(list@),
            inside@ == folder@ + "/"@,
            forall|k: int|
                0 <= k < i ==> #[trigger] all[k] != folder@ && !inside@.is_prefix_of(all[k]),
        decreases list.len() - i,
    {
        assert(all[i as int] == list@[i as int]@);
        if text::equal(list[i].as_str(), folder) || text::starts_with(
            list[i].as_str(),
            inside.as_str(),
        ) {
            return true;
        }
        i += 1;
    }
    assert(all.len() == list@.len());
    false
}

/// The paths of a notebook, from the listings of Git and the folders on disk in the order in
/// which they were found.
pub fn list_notebook_paths(tracked_out: &str, untracked_out: &str, folders: &Vec<String>) -> (r: Vec<
    String,
>)
    ensures
        text::texts(r@) == notebook_paths(tracked_out@, untracked_out@, text::texts(folders@)),
{
    let mut out = split_nul(tracked_out);
    let more = split_nul(untracked_out);
    let ghost first = nul_paths(tracked_out@);
    let ghost second = text::texts(more@);
    let mut i: usize = 0;
    while i < more.len()
        invariant
            i <= more.len(),
            second == text::texts(more@),
            text::texts(out@) == joined_new(first, second, i as int),
        decreases more.len() - i,
    {
        assert(second[i as int] == more@[i as int]@);
        if !text::list_contains(&out, more[i].as_str()) {
            text::push_text(&mut out, more[i].as_str());
        }
        i += 1;
    }
    assert(second.len() == more@.len());
    let ghost files = text::texts(out@);
    let ghost dirs = text::texts(folders@);
    let mut j: usize = 0;
    while j < folders.len()
        invariant
            j <= folders.len(),
            dirs == text::texts(folders@),
            text::texts(out@) == joined_folders(files, dirs, j as int),
        decreases folders.len() - j,
    {
        assert(dirs[j as int] == folders@[j as int]@);
        if !shows(&out, folders[j].as_str()) {
            text::push_text(&mut out, folders[j].as_str());
        }
        j += 1;
    }
    assert(dirs.len() == folders@.len());
    out
}

pub proof fn lemma_joined_new_keeps(list: Seq<Seq<char>>, more: Seq<Seq<char>>, n: int)
    requires
        0 <= n <= more.len(),
    ensures
        list.len() <= joined_new(list, more, n).len(),
        forall|k: int| 0 <= k < list.len() ==> joined_new(list, more, n)[k] == #[trigger] list[k],
        forall|k: int|
            0 <= k < n ==> joined_new(list, more, n).contains(#[trigger] more[k]),
    decreases n,
{
    if n > 0 {
        lemma_joined_new_keeps(list, more, n - 1);
        let before = joined_new(list, more, n - 1);
        let now = joined_new(list, more, n);
        assert forall|k: int| 0 <= k < n implies now.contains(#[trigger] more[k]) by {
            if k < n - 1 {
                assert(before.contains(more[k]));
                let j = choose|j: int| 0 <= j < before.len() && before[j] == more[k];
                assert(now[j] == more[k]);
            } else if !before.contains(more[k]) {
                assert(now[before.len() as int] == more[k]);
            }
        }
    }
}

/// Every file that Git lists is among the paths of the notebook.
pub proof fn law_listed_files_are_paths(
    tracked_out: Seq<char>,
    untracked_out: Seq<char>,
    folders: Seq<Seq<char>>,
    file: Seq<char>,
)
    requires
        nul_paths(tracked_out).contains(file) || nul_paths(untracked_out).contains(file),
    ensures
        notebook_paths(tracked_out, untracked_out, folders).contains(file),
{
    let first = nul_paths(tracked_out);
    let more = nul_paths(untracked_out);
    let files = joined_new(first, more, more.len() as int);
    lemma_joined_new_keeps(first, more, more.len() as int);
    if first.contains(file) {
        let k = choose|k: int| 0 <= k < first.len() && first[k] == file;
        assert(files[k] == file);
    } else {
        let k = choose|k: int| 0 <= k < more.len() && more[k] == file;
        assert(files.contains(more[k]));
    }
    lemma_joined_folders_keeps(files, folders, folders.len() as int);
    let k = choose|k: int| 0 <= k < files.len() && files[k] == file;
    assert(notebook_paths(tracked_out, untracked_out, folders)[k] == files[k]);
}

proof fn lemma_joined_folders_keeps(list: Seq<Seq<char>>, folders: Seq<Seq<char>>, n: int)
    requires
        0 <= n <= folders.len(),
    ensures
        list.len() <= joined_folders(list, folders, n).len(),
        forall|k: int|
            0 <= k < list.len() ==> joined_folders(list, folders, n)[k] == #[trigger] list[k],
    decreases n,
{
    if n > 0 {
        lemma_joined_folders_keeps(list, folders, n - 1);
    }
}

} // verus!
