//! Where programs are looked for, which variables they get, and what their output is cut to.

use vstd::prelude::*;

use crate::bytes;
use crate::git;
use crate::git_signing;
use crate::nb_program;
use crate::output;
use crate::paths;
use crate::testing::binary;
use crate::text;
use crate::text_laws;
use crate::tokenizer;

verus! {

/// The number of names in directories is the product of both.
proof fn lemma_places_count(
    dirs: Seq<Seq<char>>,
    names: Seq<Seq<char>>,
    n: int,
    separator: char,
)
    requires
        0 <= n <= dirs.len(),
    ensures
        paths::names_in_all(dirs, names, n, separator).len() == n * names.len(),
    decreases n,
{
    if n > 0 {
        lemma_places_count(dirs, names, n - 1, separator);
        paths::lemma_names_in(dirs[n - 1], names, names.len() as int, separator, 0);
        assert((n - 1) * names.len() + names.len() == n * names.len()) by (nonlinear_arith);
    } else {
        assert(0 * names.len() == 0) by (nonlinear_arith);
    }
}

/// Every name is looked for in every directory, directory by directory, and in each in the order
/// of the names.
pub proof fn law_every_name_is_looked_for(
    dirs: Seq<Seq<char>>,
    names: Seq<Seq<char>>,
    n: int,
    separator: char,
    i: int,
    j: int,
)
    requires
        0 <= i < n <= dirs.len(),
        0 <= j < names.len(),
    ensures
        ({
            let all = paths::names_in_all(dirs, names, n, separator);
            &&& all.len() == n * names.len()
            &&& 0 <= i * names.len() + j < all.len()
            &&& all[i * names.len() + j] == paths::joined(dirs[i], names[j], separator)
        }),
    decreases n,
{
    lemma_places_count(dirs, names, n, separator);
    lemma_places_count(dirs, names, n - 1, separator);
    let m = names.len() as int;
    let before = paths::names_in_all(dirs, names, n - 1, separator);
    assert(0 <= i * m + j < n * m) by (nonlinear_arith)
        requires
            0 <= i < n,
            0 <= j < m,
    ;
    if i < n - 1 {
        law_every_name_is_looked_for(dirs, names, n - 1, separator, i, j);
    } else {
        paths::lemma_names_in(dirs[i], names, m, separator, j);
    }
}

/// A path below a folder is behind it and one separator; a path that starts with a separator
/// stays, and so does a path below no folder.
pub proof fn law_path_is_joined_below_its_folder(
    folder: Seq<char>,
    path: Seq<char>,
    separator: char,
)
    requires
        folder.len() > 0,
        folder.last() != '/' && folder.last() != separator,
        path.len() > 0 ==> path[0] != '/' && path[0] != separator,
    ensures
        paths::joined(folder, path, separator) == folder + seq![separator] + path,
        paths::joined(folder.push(separator), path, separator) == folder + seq![separator] + path,
        paths::joined(folder, seq![separator] + path, separator) == seq![separator] + path,
        paths::joined(Seq::empty(), path, separator) == path,
{
    assert(folder.push(separator) + path =~= folder + seq![separator] + path);
}

/// The program that was asked for by an absolute path is looked for first; a relative one is
/// not looked for at all.
pub proof fn law_asked_program_comes_first(
    explicit: Seq<char>,
    names: Seq<Seq<char>>,
    path: Seq<Seq<char>>,
    separator: char,
)
    ensures
        ({
            let found = nb_program::places_of(None, false, names, path, separator);
            &&& nb_program::places_of(Some(explicit), true, names, path, separator) == seq![
                explicit,
            ] + found
            &&& nb_program::places_of(Some(explicit), false, names, path, separator) == found
            &&& found.len() == path.len() * names.len()
        }),
{
    lemma_places_count(path, names, path.len() as int, separator);
}

/// Every extension that is not blank gives a name, in order, in lower case.
pub proof fn law_extensions_give_names(parts: Seq<Seq<char>>, n: int, k: int)
    requires
        0 <= k < n <= parts.len(),
        forall|i: int|
            0 <= i < parts.len() ==> (#[trigger] parts[i]).len() > 0 && text_laws::bare(parts[i])
                && vstd::utf8::is_ascii_chars(parts[i]),
    ensures
        nb_program::names_for(parts, n).len() == n,
        nb_program::names_for(parts, n)[k] == seq!['n', 'b'] + text::ascii_lower_text(parts[k]),
    decreases n,
{
    reveal_strlit("nb");
    assert("nb"@ =~= seq!['n', 'b']);
    assert(parts[n - 1].len() > 0 && text_laws::bare(parts[n - 1]));
    text_laws::law_bare_text_stays(parts[n - 1]);
    if n > 1 {
        law_extensions_give_names(
            parts,
            n - 1,
            if k < n - 1 {
                k
            } else {
                0
            },
        );
    } else {
        assert(nb_program::names_for(parts, 0).len() == 0);
    }
}

/// A child process finds programs in the folder of `nb` first, and then in each of the
/// directories that are safe, each once.
pub proof fn law_child_path_is_safe(parent: Seq<char>, k: int)
    requires
        0 <= k < binary::safe_dirs().len(),
    ensures
        binary::child_dirs(Some(parent))[0] == parent,
        binary::child_dirs(Some(parent)).contains(binary::safe_dirs()[k]),
        binary::child_dirs(None).contains(binary::safe_dirs()[k]),
        forall|i: int|
            0 <= i < binary::child_dirs(Some(parent)).len() ==> (#[trigger] binary::child_dirs(
                Some(parent),
            )[i]) == parent || binary::safe_dirs().contains(binary::child_dirs(Some(parent))[i]),
{
    let safe = binary::safe_dirs();
    git::lemma_joined_new_keeps(seq![parent], safe, 8);
    git::lemma_joined_new_keeps(Seq::empty(), safe, 8);
    let all = binary::child_dirs(Some(parent));
    assert(all[0] == seq![parent][0]);
    assert(all.contains(safe[k]));
    assert(binary::child_dirs(None).contains(safe[k]));
    assert forall|i: int| 0 <= i < all.len() implies (#[trigger] all[i]) == parent || safe.contains(
        all[i],
    ) by {
        assert(all.contains(all[i]));
        crate::git_laws::lemma_joined_new_from(seq![parent], safe, 8, all[i]);
        if seq![parent].contains(all[i]) {
            let j = choose|j: int| 0 <= j < seq![parent].len() && seq![parent][j] == all[i];
            assert(seq![parent][j] == parent);
        }
    }
}

/// Signing is switched off by two settings, numbered behind those that are there already, and
/// the count takes them in.
pub proof fn law_signing_settings_are_numbered(start: usize)
    requires
        start < usize::MAX - 1,
    ensures
        ({
            let v = git_signing::signing_vars(start as nat);
            &&& v.len() == 5
            &&& v[0] == ("GIT_CONFIG_COUNT"@, text::decimal((start + 2) as nat))
            &&& v[1] == ("GIT_CONFIG_KEY_"@ + text::decimal(start as nat), "commit.gpgsign"@)
            &&& v[2] == ("GIT_CONFIG_VALUE_"@ + text::decimal(start as nat), "false"@)
            &&& v[3] == ("GIT_CONFIG_KEY_"@ + text::decimal((start + 1) as nat), "tag.gpgsign"@)
            &&& v[4] == ("GIT_CONFIG_VALUE_"@ + text::decimal((start + 1) as nat), "false"@)
        }),
{
}

/// An empty result is cut off from the hints below it: the line with the count stays, with its
/// line feed, when an empty line follows it and a line of hints stands below. Anything else
/// stays whole.
pub proof fn law_hints_are_cut_off(count: Seq<char>, hints: Seq<char>, k: int)
    requires
        !count.contains('\n'),
        count.len() > 0,
        count.last() != '\r',
    ensures
        ({
            let s = seq!['0', ' '] + count + seq!['.', '\n', '\n'] + hints;
            &&& 0 <= k < text::lines(hints).len() && "Add a "@.is_prefix_of(
                text::lines(hints)[k],
            ) ==> output::without_hints(s) == seq!['0', ' '] + count + seq!['.', '\n']
            &&& (forall|i: int|
                0 <= i < text::lines(hints).len() ==> !output::hint_marker(
                    #[trigger] text::lines(hints)[i],
                )) ==> output::without_hints(s) == s
        }),
{
    reveal_strlit("0 ");
    reveal_strlit(".");
    reveal_strlit("Add a ");
    reveal_strlit("Add an ");
    reveal_strlit("Import a ");
    reveal_strlit("Help information:");
    let signal = seq!['0', ' '] + count + seq!['.'];
    let s = seq!['0', ' '] + count + seq!['.', '\n', '\n'] + hints;
    let n = signal.len() as int;
    assert(s =~= signal + seq!['\n'] + (seq!['\n'] + hints));
    assert forall|i: int| 0 <= i < n implies !text::is_char('\n')(#[trigger] s[i]) by {
        assert(s[i] == signal[i]);
        if 2 <= i < 2 + count.len() {
            assert(signal[i] == count[i - 2]);
            if count[i - 2] == '\n' {
                assert(count.contains('\n'));
            }
        }
    }
    bytes::lemma_find_from_is(s, text::is_char('\n'), 0, n);
    let head = output::first_line(s);
    assert(head =~= signal + seq!['\n']);
    assert(head.drop_last() =~= signal);
    assert(signal.last() == '.');
    assert(text::without_line_end(signal) == signal);
    assert(text::without_line_end(head) == signal);
    assert("0 "@ =~= signal.take(2));
    assert("."@ =~= signal.skip(n - 1));
    let rest = s.skip(n + 1);
    let none = Seq::<char>::empty();
    assert(rest =~= none + seq!['\n'] + hints);
    text_laws::law_lines_are_read_one_by_one(none, hints);
    let l = text::lines(rest);
    let h = text::lines(hints);
    assert(l == seq![none] + h);
    if 0 <= k < h.len() && "Add a "@.is_prefix_of(h[k]) {
        assert(l[k + 1] == h[k]);
        assert(output::hint_marker(l[k + 1]));
        assert(output::has_hint_block(s));
        assert(head =~= seq!['0', ' '] + count + seq!['.', '\n']);
    }
    if forall|i: int| 0 <= i < h.len() ==> !output::hint_marker(#[trigger] h[i]) {
        assert forall|i: int| 0 <= i < l.len() implies !output::hint_marker(#[trigger] l[i]) by {
            if i > 0 {
                assert(l[i] == h[i - 1]);
            } else {
                assert(l[0] == none);
            }
        }
    }
}

/// The source of a document is its byte-order mark, if it has one, and its lines, one after the
/// other: the content of a line holds no line break, and one break follows it, a carriage
/// return and a line feed together being one; only the last line may lack it.
pub proof fn law_source_is_its_lines(s: Seq<u8>, k: int)
    requires
        0 <= k < tokenizer::source_lines(s).len(),
    ensures
        ({
            let v = tokenizer::source_lines(s);
            let l = v[k];
            &&& 0 <= l.start <= l.content_end <= l.end <= s.len()
            &&& forall|i: int|
                l.start <= i < l.content_end ==> (#[trigger] s[i]) != 10 && s[i] != 13
            &&& l.content_end < l.end ==> (s[l.content_end] == 10 && l.end == l.content_end + 1)
                || (s[l.content_end] == 13 && l.end == l.content_end + 1 && (l.end < s.len()
                ==> s[l.end] != 10)) || (s[l.content_end] == 13 && s[l.content_end + 1] == 10
                && l.end == l.content_end + 2)
            &&& l.content_end == l.end ==> l.end == s.len()
            &&& k == 0 ==> l.start == (if s.len() >= 3 && s[0] == 239 && s[1] == 187 && s[2]
                == 191 {
                3int
            } else {
                0
            })
            &&& k + 1 < v.len() ==> l.end == v[k + 1].start
            &&& k + 1 == v.len() ==> l.end == s.len()
        }),
{
    let from = tokenizer::preamble_len(s);
    tokenizer::lemma_lines_from(s, from);
    tokenizer::lemma_line_is(s, from, k);
    let v = tokenizer::source_lines(s);
    let l = v[k];
    assert(tokenizer::line_ok(s, l));
    bytes::lemma_find_from(s, tokenizer::breaks(), l.start);
    assert forall|i: int| l.start <= i < l.content_end implies (#[trigger] s[i]) != 10 && s[i]
        != 13 by {
        assert(!bytes::is_line_break(s[i]));
    }
    if k + 1 < v.len() {
        assert(tokenizer::adjoin(v, k));
    }
}

/// A directory of the path is searched when it is absolute and does not mislead, and so is the
/// one in the home; they come behind the fixed ones, in their order.
pub proof fn law_safe_directories_are_searched(
    home: Seq<char>,
    path: Seq<(Seq<char>, bool)>,
    separator: char,
    k: int,
)
    requires
        0 <= k < path.len(),
        path[k].1,
        !binary::poisoned(path[k].0),
    ensures
        binary::search_dirs(Some(home), path, separator).contains(path[k].0),
        binary::search_dirs(None, path, separator).contains(path[k].0),
        binary::search_dirs(Some(home), path, separator).contains(
            paths::joined(home, ".local/bin"@, separator),
        ),
        binary::safe_dirs().is_prefix_of(binary::search_dirs(Some(home), path, separator)),
        binary::safe_dirs().is_prefix_of(binary::search_dirs(None, path, separator)),
{
    let n = path.len() as int;
    lemma_trusted(path, n, k);
    let safe = binary::safe_dirs();
    let local = paths::joined(home, ".local/bin"@, separator);
    let more = binary::trusted_dirs(path, n);
    let i = choose|i: int| 0 <= i < more.len() && more[i] == path[k].0;
    let a = binary::search_dirs(Some(home), path, separator);
    let b = binary::search_dirs(None, path, separator);
    let z = safe.len() as int;
    assert(a == safe.push(local) + more);
    assert(b == safe + more);
    assert(a[z + 1 + i] == path[k].0);
    assert(b[z + i] == path[k].0);
    assert(a[z] == local);
    assert(a.take(z) =~= safe);
    assert(b.take(z) =~= safe);
}

proof fn lemma_trusted(path: Seq<(Seq<char>, bool)>, n: int, k: int)
    requires
        0 <= k < n <= path.len(),
        path[k].1,
        !binary::poisoned(path[k].0),
    ensures
        binary::trusted_dirs(path, n).contains(path[k].0),
    decreases n,
{
    let r = binary::trusted_dirs(path, n);
    if k < n - 1 {
        lemma_trusted(path, n - 1, k);
        let q = binary::trusted_dirs(path, n - 1);
        let i = choose|i: int| 0 <= i < q.len() && q[i] == path[k].0;
        assert(r[i] == path[k].0);
    } else {
        assert(r.last() == path[k].0);
        assert(r[r.len() - 1] == path[k].0);
    }
}

} // verus!
