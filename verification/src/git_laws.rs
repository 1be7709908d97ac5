//! What is read from the output of Git.

use vstd::prelude::*;

use crate::error::NbErrorView;
use crate::git;
use crate::git::Finished;
use crate::text;
use crate::text_laws;

verus! {

/// A listing of paths with a NUL behind each.
pub open spec fn nul_listing(names: Seq<Seq<char>>) -> Seq<char>
    decreases names.len(),
{
    if names.len() == 0 {
        Seq::empty()
    } else {
        nul_listing(names.drop_last()) + names.last() + seq!['\0']
    }
}

proof fn lemma_nul_listing(names: Seq<Seq<char>>)
    requires
        names.len() > 0,
    ensures
        nul_listing(names) == text::join(names.push(Seq::empty()), seq!['\0']),
    decreases names.len(),
{
    let all = names.push(Seq::<char>::empty());
    assert(all.drop_last() =~= names);
    if names.len() == 1 {
        reveal_with_fuel(nul_listing, 2);
        assert(names.drop_last() =~= Seq::<Seq<char>>::empty());
        assert(text::join(names, seq!['\0']) == names[0]);
        assert(nul_listing(names) =~= text::join(all, seq!['\0']));
    } else {
        let init = names.drop_last();
        lemma_nul_listing(init);
        let most = init.push(Seq::<char>::empty());
        assert(most.drop_last() =~= init);
        assert(text::join(most, seq!['\0']) =~= text::join(init, seq!['\0']) + seq!['\0']);
        assert(text::join(names, seq!['\0']) == text::join(init, seq!['\0']) + seq!['\0']
            + names.last());
        assert(nul_listing(names) =~= text::join(all, seq!['\0']));
    }
}

/// A listing of Git is read path by path, in order, whatever characters the paths have.
pub proof fn law_listing_is_read_path_by_path(names: Seq<Seq<char>>)
    requires
        forall|k: int|
            0 <= k < names.len() ==> (#[trigger] names[k]).len() > 0 && !names[k].contains('\0'),
    ensures
        git::nul_paths(nul_listing(names)) == names,
{
    let none = Seq::<char>::empty();
    if names.len() == 0 {
        let parts = seq![none];
        text_laws::law_split_undoes_join(parts, '\0');
        assert(text::join(parts, seq!['\0']) =~= none);
        reveal_with_fuel(git::present, 2);
        assert(git::nul_paths(none) =~= names);
    } else {
        lemma_nul_listing(names);
        let all = names.push(none);
        assert forall|k: int| 0 <= k < all.len() implies !(#[trigger] all[k]).contains('\0') by {
            if k < names.len() {
                assert(all[k] == names[k]);
            }
        }
        text_laws::law_split_undoes_join(all, '\0');
        lemma_present(all, names, names.len() as int);
        assert(names.take(names.len() as int) =~= names);
    }
}

proof fn lemma_present(all: Seq<Seq<char>>, names: Seq<Seq<char>>, n: int)
    requires
        0 <= n <= names.len(),
        all == names.push(Seq::empty()),
        forall|k: int| 0 <= k < names.len() ==> (#[trigger] names[k]).len() > 0,
    ensures
        git::present(all, n) == names.take(n),
        git::present(all, names.len() as int + 1) == git::present(all, names.len() as int),
    decreases n,
{
    if n > 0 {
        lemma_present(all, names, n - 1);
        assert(all[n - 1] == names[n - 1]);
        assert(names.take(n) =~= names.take(n - 1).push(names[n - 1]));
    } else {
        assert(git::present(all, 0) =~= names.take(0));
    }
    assert(all[names.len() as int] == Seq::<char>::empty());
}

/// Every path of a notebook is a file that Git lists or a folder that was found.
pub proof fn law_paths_are_listed_or_found(
    tracked_out: Seq<char>,
    untracked_out: Seq<char>,
    folders: Seq<Seq<char>>,
    path: Seq<char>,
)
    requires
        git::notebook_paths(tracked_out, untracked_out, folders).contains(path),
    ensures
        git::nul_paths(tracked_out).contains(path) || git::nul_paths(untracked_out).contains(path)
            || folders.contains(path),
{
    let first = git::nul_paths(tracked_out);
    let more = git::nul_paths(untracked_out);
    let files = git::joined_new(first, more, more.len() as int);
    lemma_joined_folders_from(files, folders, folders.len() as int, path);
    if files.contains(path) {
        lemma_joined_new_from(first, more, more.len() as int, path);
    }
}

pub proof fn lemma_joined_new_from(
    list: Seq<Seq<char>>,
    more: Seq<Seq<char>>,
    n: int,
    path: Seq<char>,
)
    requires
        0 <= n <= more.len(),
        git::joined_new(list, more, n).contains(path),
    ensures
        list.contains(path) || more.contains(path),
    decreases n,
{
    if n > 0 {
        let before = git::joined_new(list, more, n - 1);
        let now = git::joined_new(list, more, n);
        if before.contains(path) {
            lemma_joined_new_from(list, more, n - 1, path);
        } else {
            let k = choose|k: int| 0 <= k < now.len() && now[k] == path;
            if k < before.len() {
                assert(before[k] == path);
            }
            assert(more[n - 1] == path);
        }
    }
}

proof fn lemma_joined_folders_from(
    list: Seq<Seq<char>>,
    folders: Seq<Seq<char>>,
    n: int,
    path: Seq<char>,
)
    requires
        0 <= n <= folders.len(),
        git::joined_folders(list, folders, n).contains(path),
    ensures
        list.contains(path) || folders.contains(path),
    decreases n,
{
    if n > 0 {
        let before = git::joined_folders(list, folders, n - 1);
        let now = git::joined_folders(list, folders, n);
        if before.contains(path) {
            lemma_joined_folders_from(list, folders, n - 1, path);
        } else {
            let k = choose|k: int| 0 <= k < now.len() && now[k] == path;
            if k < before.len() {
                assert(before[k] == path);
            }
            assert(folders[n - 1] == path);
        }
    }
}

/// Every folder that was found is shown by the paths of a notebook: it is one of them, or one
/// of them is inside it.
pub proof fn law_found_folders_are_shown(
    list: Seq<Seq<char>>,
    folders: Seq<Seq<char>>,
    n: int,
    k: int,
)
    requires
        0 <= k < n <= folders.len(),
    ensures
        exists|i: int|
            0 <= i < git::joined_folders(list, folders, n).len() && ((
            #[trigger] git::joined_folders(list, folders, n)[i]) == folders[k] || (folders[k]
                + seq!['/']).is_prefix_of(git::joined_folders(list, folders, n)[i])),
    decreases n,
{
    reveal_strlit("/");
    assert("/"@ =~= seq!['/']);
    let before = git::joined_folders(list, folders, n - 1);
    let now = git::joined_folders(list, folders, n);
    if k < n - 1 {
        law_found_folders_are_shown(list, folders, n - 1, k);
        let i = choose|i: int|
            0 <= i < before.len() && ((#[trigger] before[i]) == folders[k] || (folders[k] + seq![
                '/',
            ]).is_prefix_of(before[i]));
        assert(now[i] == before[i]);
    } else if git::shown(before, folders[k]) {
        let i = choose|i: int|
            0 <= i < before.len() && (#[trigger] before[i] == folders[k] || (folders[k]
                + "/"@).is_prefix_of(before[i]));
        assert(now[i] == before[i]);
    } else {
        assert(now[before.len() as int] == folders[k]);
    }
}

/// A command of Git that succeeded gives what it printed; one that failed is reported with its
/// exit code and with what it printed on the error output, or else on the other.
pub proof fn law_failed_command_tells_why(args: Seq<Seq<char>>, p: Finished)
    ensures
        p.success ==> git::captured(args, p) == Ok::<Seq<char>, NbErrorView>(
            text::lossy_text(p.stdout@),
        ),
        !p.success ==> (git::captured(args, p) matches Err(
            NbErrorView::CommandFailed { command, stderr, exit_code },
        ) && exit_code == p.code && stderr == (if text::lossy_text(p.stderr@).len() > 0 {
            text::lossy_text(p.stderr@)
        } else {
            text::lossy_text(p.stdout@)
        })),
{
}

/// What Git prints of a path or a revision is read without the white space around it; blank
/// output is no path, and no revision.
pub proof fn law_printed_line_is_read_bare(a: Seq<char>, value: Seq<char>, b: Seq<char>)
    requires
        text_laws::blank(a),
        text_laws::blank(b),
        text_laws::bare(value),
    ensures
        value.len() > 0 ==> git::printed_path(Some(a + value + b)) == Some(value)
            && git::head_of(Ok::<Seq<char>, NbErrorView>(a + value + b)) == Ok::<
            Seq<char>,
            NbErrorView,
        >(value),
        value.len() == 0 ==> git::printed_path(Some(a + value + b)) is None && git::head_of(
            Ok::<Seq<char>, NbErrorView>(a + value + b),
        ) is Err,
        git::printed_path(None) is None,
{
    text_laws::law_trimming_takes_white_space(a, value, b);
}

/// No path of a notebook is told twice, where Git tells none twice among those that it tracks.
pub proof fn law_no_path_is_told_twice(
    tracked_out: Seq<char>,
    untracked_out: Seq<char>,
    folders: Seq<Seq<char>>,
)
    requires
        git::nul_paths(tracked_out).no_duplicates(),
    ensures
        git::notebook_paths(tracked_out, untracked_out, folders).no_duplicates(),
{
    let more = git::nul_paths(untracked_out);
    lemma_new_ones(git::nul_paths(tracked_out), more, more.len() as int);
    let files = git::joined_new(git::nul_paths(tracked_out), more, more.len() as int);
    lemma_new_folders(files, folders, folders.len() as int);
}

proof fn lemma_new_ones(list: Seq<Seq<char>>, more: Seq<Seq<char>>, n: int)
    requires
        list.no_duplicates(),
        0 <= n <= more.len(),
    ensures
        git::joined_new(list, more, n).no_duplicates(),
    decreases n,
{
    if n > 0 {
        lemma_new_ones(list, more, n - 1);
        lemma_pushed(git::joined_new(list, more, n - 1), more[n - 1]);
    }
}

proof fn lemma_new_folders(list: Seq<Seq<char>>, folders: Seq<Seq<char>>, n: int)
    requires
        list.no_duplicates(),
        0 <= n <= folders.len(),
    ensures
        git::joined_folders(list, folders, n).no_duplicates(),
    decreases n,
{
    if n > 0 {
        lemma_new_folders(list, folders, n - 1);
        let before = git::joined_folders(list, folders, n - 1);
        if !git::shown(before, folders[n - 1]) {
            if before.contains(folders[n - 1]) {
                let k = choose|k: int| 0 <= k < before.len() && before[k] == folders[n - 1];
                assert(before[k] == folders[n - 1]);
            }
            lemma_pushed(before, folders[n - 1]);
        }
    }
}

proof fn lemma_pushed(v: Seq<Seq<char>>, x: Seq<char>)
    requires
        v.no_duplicates(),
    ensures
        !v.contains(x) ==> v.push(x).no_duplicates(),
{
    if !v.contains(x) {
        let w = v.push(x);
        assert forall|i: int, j: int| 0 <= i < w.len() && 0 <= j < w.len() && i != j implies w[i]
            != w[j] by {
            if i < v.len() && j < v.len() {
                assert(v[i] != v[j]);
            } else if i < v.len() {
                assert(v[i] == w[i]);
            } else {
                assert(v[j] == w[j]);
            }
        }
    }
}

} // verus!
