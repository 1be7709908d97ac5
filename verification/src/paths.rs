//! Paths: base names, parents and notebook-relative forms, and folders of the platform.

use crate::bytes;
use crate::text;
use vstd::prelude::*;
use vstd::string::StrSliceExecFns;

verus! {

/// The last index of `c` in `s`, or -1.
pub open spec fn last_index(s: Seq<char>, c: char) -> int
    decreases s.len(),
{
    if s.len() == 0 {
        -1
    } else if s.last() == c {
        s.len() - 1
    } else {
        last_index(s.drop_last(), c)
    }
}

pub proof fn lemma_last_index_is(s: Seq<char>, c: char, at: int)
    requires
        -1 <= at < s.len(),
        at >= 0 ==> s[at] == c,
        forall|k: int| at < k < s.len() ==> s[k] != c,
    ensures
        last_index(s, c) == at,
    decreases s.len(),
{
    if s.len() > 0 && at < s.len() - 1 {
        lemma_last_index_is(s.drop_last(), c, at);
    }
}

/// The last index is that of an occurrence, and none follows it.
pub proof fn lemma_last_index(s: Seq<char>, c: char)
    ensures
        -1 <= last_index(s, c) < s.len(),
        last_index(s, c) >= 0 ==> s[last_index(s, c)] == c,
        forall|k: int| last_index(s, c) < k < s.len() ==> s[k] != c,
    decreases s.len(),
{
    if s.len() > 0 && s.last() != c {
        lemma_last_index(s.drop_last(), c);
        assert forall|k: int| last_index(s, c) < k < s.len() implies s[k] != c by {
            if k < s.len() - 1 {
                assert(s.drop_last()[k] == s[k]);
            }
        }
    }
}

/// The last index of `c` among the characters, if any.
pub fn last_index_of(s: &[char], c: char) -> (r: Option<usize>)
    ensures
        match r {
            Some(i) => last_index(s@, c) == i && i < s@.len(),
            None => last_index(s@, c) == -1,
        },
{
    let mut n: usize = s.len();
    while n > 0
        invariant
            n <= s.len(),
            forall|k: int| n <= k < s@.len() ==> s@[k] != c,
        decreases n,
    {
        if s[n - 1] == c {
            proof {
                lemma_last_index_is(s@, c, n - 1);
            }
            return Some(n - 1);
        }
        n -= 1;
    }
    proof {
        lemma_last_index_is(s@, c, -1);
    }
    None
}

/// A path without trailing separators and trailing `.` components.
pub open spec fn trim_path(s: Seq<char>) -> Seq<char>
    decreases s.len(),
{
    if s.len() > 1 && s.last() == '/' {
        trim_path(s.drop_last())
    } else if s.len() > 1 && s.last() == '.' && s[s.len() - 2] == '/' {
        trim_path(s.drop_last())
    } else {
        s
    }
}

/// What follows the last separator of a trimmed path.
pub open spec fn base(t: Seq<char>) -> Seq<char> {
    t.skip(last_index(t, '/') + 1)
}

/// The final component of a path, unless that is the root, `.` or `..`.
pub open spec fn file_name(s: Seq<char>) -> Option<Seq<char>> {
    let name = base(trim_path(s));
    if name.len() == 0 || name == "."@ || name == ".."@ {
        None
    } else {
        Some(name)
    }
}

/// The path without its final component; nothing for the root or an empty path.
pub open spec fn parent(s: Seq<char>) -> Option<Seq<char>> {
    let t = trim_path(s);
    let at = last_index(t, '/');
    if t.len() == 0 || t == "/"@ {
        None
    } else if at < 0 {
        Some(Seq::empty())
    } else if at == 0 {
        Some("/"@)
    } else {
        Some(trim_path(t.take(at)))
    }
}

/// The final component without its last extension; a leading dot starts no extension.
pub open spec fn file_stem(s: Seq<char>) -> Option<Seq<char>> {
    match file_name(s) {
        None => None,
        Some(name) => if last_index(name, '.') <= 0 {
            Some(name)
        } else {
            Some(name.take(last_index(name, '.')))
        },
    }
}

/// How many characters of a path are left by `trim_path`.
fn trimmed_len(s: &[char]) -> (r: usize)
    ensures
        r <= s@.len(),
        s@.take(r as int) == trim_path(s@),
{
    let mut n: usize = s.len();
    assert(s@.take(n as int) =~= s@);
    while n > 1 && (s[n - 1] == '/' || (s[n - 1] == '.' && s[n - 2] == '/'))
        invariant
            n <= s.len(),
            trim_path(s@.take(n as int)) == trim_path(s@),
        decreases n,
    {
        assert(s@.take(n as int).drop_last() =~= s@.take(n - 1));
        n -= 1;
    }
    n
}

/// Whether the characters are exactly those of a text.
fn spells(s: &[char], t: &str) -> (r: bool)
    ensures
        r == (s@ == t@),
{
    let own = text::string_of(s);
    text::equal(own.as_str(), t)
}

/// The final component of a path.
pub fn file_name_of(path: &str) -> (r: Option<String>)
    ensures
        match r {
            Some(name) => file_name(path@) == Some(name@),
            None => file_name(path@) is None,
        },
{
    let x = text::chars_of(path);
    let n = trimmed_len(x.as_slice());
    let t = vstd::slice::slice_subrange(x.as_slice(), 0, n);
    assert(t@ =~= trim_path(path@));
    let from: usize = match last_index_of(t, '/') {
        Some(i) => i + 1,
        None => 0,
    };
    let name = vstd::slice::slice_subrange(t, from, t.len());
    assert(name@ =~= base(t@));
    if name.len() == 0 || spells(name, ".") || spells(name, "..") {
        return None;
    }
    Some(text::string_of(name))
}

/// The path without its final component.
pub fn parent_of(path: &str) -> (r: Option<String>)
    ensures
        match r {
            Some(p) => parent(path@) == Some(p@),
            None => parent(path@) is None,
        },
{
    let x = text::chars_of(path);
    let n = trimmed_len(x.as_slice());
    let t = vstd::slice::slice_subrange(x.as_slice(), 0, n);
    assert(t@ =~= trim_path(path@));
    if t.len() == 0 || spells(t, "/") {
        return None;
    }
    match last_index_of(t, '/') {
        None => {
            let empty = String::new();
            assert(empty@ =~= Seq::<char>::empty());
            Some(empty)
        },
        Some(at) => {
            if at == 0 {
                Some("/".to_string())
            } else {
                let p = vstd::slice::slice_subrange(t, 0, at);
                assert(p@ =~= t@.take(at as int));
                let m = trimmed_len(p);
                let q = vstd::slice::slice_subrange(p, 0, m);
                assert(q@ =~= trim_path(p@));
                Some(text::string_of(q))
            }
        },
    }
}

/// The final component without its last extension.
pub fn file_stem_of(path: &str) -> (r: Option<String>)
    ensures
        match r {
            Some(p) => file_stem(path@) == Some(p@),
            None => file_stem(path@) is None,
        },
{
    match file_name_of(path) {
        None => None,
        Some(name) => {
            let x = text::chars_of(name.as_str());
            match last_index_of(x.as_slice(), '.') {
                Some(at) if at > 0 => {
                    let stem = vstd::slice::slice_subrange(x.as_slice(), 0, at);
                    assert(stem@ =~= name@.take(at as int));
                    Some(text::string_of(stem))
                },
                _ => Some(name),
            }
        },
    }
}

/// `s` without leading `./` pairs.
pub open spec fn strip_dot_slash(s: Seq<char>) -> Seq<char>
    decreases s.len(),
{
    if s.len() >= 2 && s[0] == '.' && s[1] == '/' {
        strip_dot_slash(s.skip(2))
    } else {
        s
    }
}

/// The test for anything but one character.
pub open spec fn not_char(c: char) -> spec_fn(char) -> bool {
    |x: char| x != c
}

/// `s` without the leading `c`s.
pub open spec fn strip_leading(s: Seq<char>, c: char) -> Seq<char> {
    s.skip(bytes::find_from(s, not_char(c), 0))
}

/// `s` without the trailing `c`s.
pub open spec fn strip_trailing(s: Seq<char>, c: char) -> Seq<char>
    decreases s.len(),
{
    if s.len() > 0 && s.last() == c {
        strip_trailing(s.drop_last(), c)
    } else {
        s
    }
}

/// `s` without `c`s at either end.
pub open spec fn strip_both(s: Seq<char>, c: char) -> Seq<char> {
    strip_trailing(strip_leading(s, c), c)
}

/// `s` with every `from` turned into `to`.
pub open spec fn replace_char(s: Seq<char>, from: char, to: char) -> Seq<char> {
    s.map_values(
        |c: char|
            if c == from {
                to
            } else {
                c
            },
    )
}

/// The notebook-relative form of a path: no surrounding white space, no leading `./`, no
/// slashes at either end, no backslashes.
pub open spec fn normalized(s: Seq<char>) -> Seq<char> {
    replace_char(strip_both(strip_dot_slash(text::trim(s)), '/'), '\\', '/')
}

/// `s` without the leading `c`s.
pub fn without_leading(s: &str, c: char) -> (r: String)
    ensures
        r@ == strip_leading(s@, c),
{
    let x = text::chars_of(s);
    let mut i: usize = 0;
    while i < x.len() && x[i] == c
        invariant
            i <= x.len(),
            x@ == s@,
            forall|k: int| 0 <= k < i ==> !not_char(c)(#[trigger] s@[k]),
        decreases x.len() - i,
    {
        i += 1;
    }
    proof {
        bytes::lemma_find_from_is(s@, not_char(c), 0, i as int);
        assert(s@.skip(i as int) =~= x@.subrange(i as int, x@.len() as int));
    }
    text::string_of(vstd::slice::slice_subrange(x.as_slice(), i, x.len()))
}

/// `s` without the trailing `c`s.
pub fn without_trailing(s: &str, c: char) -> (r: String)
    ensures
        r@ == strip_trailing(s@, c),
{
    let x = text::chars_of(s);
    let mut n: usize = x.len();
    assert(x@.take(n as int) =~= s@);
    while n > 0 && x[n - 1] == c
        invariant
            n <= x.len(),
            strip_trailing(x@.take(n as int), c) == strip_trailing(s@, c),
        decreases n,
    {
        assert(x@.take(n as int).drop_last() =~= x@.take(n - 1));
        n -= 1;
    }
    assert(x@.take(n as int) =~= x@.subrange(0, n as int));
    text::string_of(vstd::slice::slice_subrange(x.as_slice(), 0, n))
}

/// `s` without `c`s at either end.
pub fn without_both(s: &str, c: char) -> (r: String)
    ensures
        r@ == strip_both(s@, c),
{
    let front = without_leading(s, c);
    without_trailing(front.as_str(), c)
}

/// `s` with every `from` turned into `to`.
pub fn with_replaced(s: &str, from: char, to: char) -> (r: String)
    ensures
        r@ == replace_char(s@, from, to),
{
    let x = text::chars_of(s);
    let ghost all = replace_char(s@, from, to);
    let mut out = String::new();
    let mut i: usize = 0;
    assert(out@ =~= all.take(0));
    while i < x.len()
        invariant
            i <= x.len(),
            x@ == s@,
            all == replace_char(s@, from, to),
            out@ == all.take(i as int),
        decreases x.len() - i,
    {
        let c = if x[i] == from {
            to
        } else {
            x[i]
        };
        out.push(c);
        assert(all.take(i + 1) =~= all.take(i as int).push(all[i as int]));
        i += 1;
    }
    assert(all.take(all.len() as int) =~= all);
    out
}

/// The notebook-relative form of a path.
pub fn normalize_rel(path: &str) -> (r: String)
    ensures
        r@ == normalized(path@),
{
    let t = text::trimmed(path);
    let x = text::chars_of(t);
    let mut i: usize = 0;
    assert(x@.skip(0) =~= t@);
    while x.len() - i >= 2 && x[i] == '.' && x[i + 1] == '/'
        invariant
            i <= x.len(),
            strip_dot_slash(x@.skip(i as int)) == strip_dot_slash(t@),
        decreases x.len() - i,
    {
        assert(x@.skip(i as int).skip(2) =~= x@.skip(i + 2));
        i += 2;
    }
    let rest = text::string_of(vstd::slice::slice_subrange(x.as_slice(), i, x.len()));
    assert(rest@ =~= x@.skip(i as int));
    let bare = without_both(rest.as_str(), '/');
    with_replaced(bare.as_str(), '\\', '/')
}

/// The folder that holds a path, if it is not the notebook root.
pub open spec fn parent_folder(s: Seq<char>) -> Option<Seq<char>> {
    match parent(s) {
        None => None,
        Some(p) => {
            let q = replace_char(p, '\\', '/');
            if q.len() == 0 || q == "."@ {
                None
            } else {
                Some(q)
            }
        },
    }
}

proof fn lemma_trim_path_len(s: Seq<char>)
    ensures
        trim_path(s).len() <= s.len(),
    decreases s.len(),
{
    if s.len() > 1 && (s.last() == '/' || (s.last() == '.' && s[s.len() - 2] == '/')) {
        lemma_trim_path_len(s.drop_last());
    }
}

/// A parent folder has fewer characters than its path.
pub proof fn lemma_parent_len(s: Seq<char>)
    ensures
        parent_folder(s) matches Some(p) ==> p.len() < s.len(),
{
    let t = trim_path(s);
    reveal_strlit("/");
    lemma_trim_path_len(s);
    lemma_last_index(t, '/');
    lemma_trim_path_len(t.take(last_index(t, '/')));
    if t.len() == 1 && t[0] == '/' {
        assert(t =~= "/"@);
    }
}

/// The folder that holds a path, if it is not the notebook root.
pub fn parent_path(path: &str) -> (r: Option<String>)
    ensures
        match r {
            Some(p) => parent_folder(path@) == Some(p@),
            None => parent_folder(path@) is None,
        },
{
    match parent_of(path) {
        None => None,
        Some(p) => {
            let q = with_replaced(p.as_str(), '\\', '/');
            if text::equal(q.as_str(), "") || text::equal(q.as_str(), ".") {
                proof {
                    reveal_strlit("");
                }
                None
            } else {
                proof {
                    reveal_strlit("");
                    assert(q@.len() == 0 ==> q@ =~= ""@);
                }
                Some(q)
            }
        },
    }
}

/// The folder and the base name of a notebook-relative path.
pub open spec fn folder_and_base(s: Seq<char>) -> (Seq<char>, Seq<char>) {
    let at = last_index(s, '/');
    if at < 0 {
        (Seq::empty(), s)
    } else {
        (s.take(at), s.skip(at + 1))
    }
}

/// Split a notebook-relative path into its folder and its base name.
pub fn split_folder_basename(path: &str) -> (r: (String, String))
    ensures
        (r.0@, r.1@) == folder_and_base(path@),
{
    let x = text::chars_of(path);
    let n: usize = x.len();
    match last_index_of(x.as_slice(), '/') {
        Some(at) => {
            let folder = text::string_of(vstd::slice::slice_subrange(x.as_slice(), 0, at));
            let name = text::string_of(vstd::slice::slice_subrange(x.as_slice(), at + 1, n));
            assert(folder@ =~= path@.take(at as int));
            assert(name@ =~= path@.skip(at + 1));
            (folder, name)
        },
        None => {
            let empty = String::new();
            assert(empty@ =~= Seq::<char>::empty());
            (empty, path.to_string())
        },
    }
}
/// Whether a character separates the parts of a path, where the platform writes `separator`.
pub open spec fn separates(c: char, separator: char) -> bool {
    c == '/' || c == separator
}

/// A path below a folder, where the platform writes `separator` between the parts of a path. A
/// path that starts with a separator stays as it is.
pub open spec fn joined(folder: Seq<char>, path: Seq<char>, separator: char) -> Seq<char> {
    if (path.len() > 0 && separates(path[0], separator)) || folder.len() == 0 {
        path
    } else if separates(folder.last(), separator) {
        folder + path
    } else {
        folder + seq![separator] + path
    }
}

/// A path below a folder, where the platform writes `separator` between the parts of a path.
pub fn join(folder: &str, path: &str, separator: char) -> (r: String)
    ensures
        r@ == joined(folder@, path@, separator),
{
    let x = text::chars_of(path);
    let f = text::chars_of(folder);
    if (x.len() > 0 && (x[0] == '/' || x[0] == separator)) || f.len() == 0 {
        return path.to_string();
    }
    let last = f[f.len() - 1];
    if last == '/' || last == separator {
        text::cat2(folder, path)
    } else {
        let mut one: Vec<char> = Vec::new();
        one.push(separator);
        let between = text::string_of(one.as_slice());
        assert(between@ =~= seq![separator]);
        text::cat3(folder, between.as_str(), path)
    }
}

/// A folder on this platform.
#[derive(Debug, Clone, PartialEq, Eq)]
pub struct Folder {
    pub path: String,
    /// What the platform writes between the parts of a path.
    pub separator: char,
}

/// The model of a [`Folder`].
pub struct Place {
    pub path: Seq<char>,
    pub separator: char,
}

impl View for Folder {
    type V = Place;

    open spec fn view(&self) -> Place {
        Place { path: self.path@, separator: self.separator }
    }
}

/// A path below a folder.
pub open spec fn path_below(folder: Place, path: Seq<char>) -> Seq<char> {
    joined(folder.path, path, folder.separator)
}

impl Folder {
    /// A path below this folder.
    pub fn join(&self, path: &str) -> (r: String)
        ensures
            r@ == path_below(self@, path@),
    {
        join(self.path.as_str(), path, self.separator)
    }
}
/// The first `n` names in a directory.
pub open spec fn names_in(dir: Seq<char>, names: Seq<Seq<char>>, n: int, separator: char) -> Seq<
    Seq<char>,
>
    decreases n,
{
    if n <= 0 {
        Seq::empty()
    } else {
        names_in(dir, names, n - 1, separator).push(joined(dir, names[n - 1], separator))
    }
}

/// The names in each of the first `n` directories.
pub open spec fn names_in_all(
    dirs: Seq<Seq<char>>,
    names: Seq<Seq<char>>,
    n: int,
    separator: char,
) -> Seq<Seq<char>>
    decreases n,
{
    if n <= 0 {
        Seq::empty()
    } else {
        names_in_all(dirs, names, n - 1, separator) + names_in(
            dirs[n - 1],
            names,
            names.len() as int,
            separator,
        )
    }
}

/// The names in each of the directories, directory by directory.
pub fn join_names(dirs: &Vec<String>, names: &Vec<String>, separator: char) -> (r: Vec<String>)
    ensures
        text::texts(r@) == names_in_all(
            text::texts(dirs@),
            text::texts(names@),
            dirs@.len() as int,
            separator,
        ),
{
    let ghost d = text::texts(dirs@);
    let ghost all = text::texts(names@);
    let mut out = text::no_texts();
    let mut i: usize = 0;
    assert(d.len() == dirs@.len());
    assert(all.len() == names@.len());
    while i < dirs.len()
        invariant
            i <= dirs.len(),
            d == text::texts(dirs@),
            all == text::texts(names@),
            all.len() == names@.len(),
            text::texts(out@) == names_in_all(d, all, i as int, separator),
        decreases dirs.len() - i,
    {
        assert(d[i as int] == dirs@[i as int]@);
        let ghost before = text::texts(out@);
        let mut j: usize = 0;
        assert(before + names_in(d[i as int], all, 0, separator) =~= before);
        while j < names.len()
            invariant
                i < dirs.len(),
                j <= names.len(),
                d[i as int] == dirs@[i as int]@,
                all == text::texts(names@),
                text::texts(out@) == before + names_in(d[i as int], all, j as int, separator),
            decreases names.len() - j,
        {
            assert(all[j as int] == names@[j as int]@);
            let path = join(dirs[i].as_str(), names[j].as_str(), separator);
            text::push_text(&mut out, path.as_str());
            assert(text::texts(out@) =~= before + names_in(
                d[i as int],
                all,
                j + 1,
                separator,
            ));
            j += 1;
        }
        i += 1;
    }
    out
}

/// The `k`-th of the names in a directory.
pub proof fn lemma_names_in(dir: Seq<char>, names: Seq<Seq<char>>, n: int, separator: char, k: int)
    requires
        0 <= n,
    ensures
        names_in(dir, names, n, separator).len() == n,
        0 <= k < n ==> names_in(dir, names, n, separator)[k] == joined(dir, names[k], separator),
    decreases n,
{
    if n > 0 {
        lemma_names_in(dir, names, n - 1, separator, k);
    }
}

/// Which directory and which name the `k`-th of the names in all directories is made of.
pub proof fn lemma_names_in_all(
    dirs: Seq<Seq<char>>,
    names: Seq<Seq<char>>,
    n: int,
    separator: char,
    k: int,
) -> (at: (int, int))
    requires
        0 <= n <= dirs.len(),
        0 <= k < names_in_all(dirs, names, n, separator).len(),
    ensures
        0 <= at.0 < n,
        0 <= at.1 < names.len(),
        names_in_all(dirs, names, n, separator)[k] == joined(dirs[at.0], names[at.1], separator),
    decreases n,
{
    let before = names_in_all(dirs, names, n - 1, separator);
    if k < before.len() {
        lemma_names_in_all(dirs, names, n - 1, separator, k)
    } else {
        let m = k - before.len();
        lemma_names_in(dirs[n - 1], names, names.len() as int, separator, m);
        (n - 1, m)
    }
}

} // verus!
