//! What the operations on notebook-relative paths give.

use vstd::prelude::*;

use crate::bytes;
use crate::paths;
use crate::text;
use crate::text_laws;

verus! {

/// A notebook-relative path as it is stored: no white space, slash or lone `.` where it starts,
/// no white space or slash where it ends, no backslash.
pub open spec fn plain(p: Seq<char>) -> bool {
    &&& p.len() > 0
    &&& text_laws::bare(p)
    &&& p[0] != '/' && p.last() != '/'
    &&& p[0] == '.' ==> p.len() >= 2 && p[1] != '/'
    &&& !p.contains('\\')
}

/// One component of a path.
pub open spec fn component(name: Seq<char>) -> bool {
    name.len() > 0 && !name.contains('/') && name != "."@ && name != ".."@
}

/// A path below a folder splits at the last slash, whatever the folder is; a path without slash
/// has no folder.
pub proof fn law_path_splits_at_the_last_slash(folder: Seq<char>, name: Seq<char>)
    requires
        !name.contains('/'),
    ensures
        paths::folder_and_base(folder + "/"@ + name) == (folder, name),
        paths::folder_and_base(name) == (Seq::<char>::empty(), name),
{
    reveal_strlit("/");
    let p = folder + "/"@ + name;
    let at = folder.len() as int;
    assert forall|k: int| at < k < p.len() implies p[k] != '/' by {
        assert(p[k] == name[k - at - 1]);
        if p[k] == '/' {
            assert(name.contains('/'));
        }
    }
    paths::lemma_last_index_is(p, '/', at);
    assert(p.take(at) =~= folder);
    assert(p.skip(at + 1) =~= name);
    assert forall|k: int| -1 < k < name.len() implies name[k] != '/' by {
        if name[k] == '/' {
            assert(name.contains('/'));
        }
    }
    paths::lemma_last_index_is(name, '/', -1);
}

/// The final component of a path is its file name, and what stands before it is its parent.
pub proof fn law_file_name_is_the_final_component(folder: Seq<char>, name: Seq<char>)
    requires
        component(name),
        folder.len() > 0 && folder.last() != '/' && !(folder.len() > 1 && folder.last() == '.'
            && folder[folder.len() - 2] == '/'),
    ensures
        paths::file_name(folder + "/"@ + name) == Some(name),
        paths::file_name(name) == Some(name),
        paths::parent(folder + "/"@ + name) == Some(folder),
        paths::parent(name) == Some(Seq::<char>::empty()),
{
    reveal_strlit("/");
    reveal_strlit(".");
    law_path_splits_at_the_last_slash(folder, name);
    let p = folder + "/"@ + name;
    assert(name.last() != '/') by {
        if name.last() == '/' {
            assert(name.contains('/'));
        }
    }
    assert(p.last() == name.last());
    if name.last() == '.' {
        if name.len() == 1 {
            assert(name =~= "."@);
        } else {
            assert(p[p.len() - 2] == name[name.len() - 2]);
            if name[name.len() - 2] == '/' {
                assert(name.contains('/'));
            }
        }
    }
    assert(paths::trim_path(p) == p);
    if name.len() > 1 && name[name.len() - 2] == '/' {
        assert(name.contains('/'));
    }
    assert(paths::trim_path(name) == name);
    let at = folder.len() as int;
    paths::lemma_last_index(p, '/');
    assert(paths::last_index(p, '/') == at) by {
        if paths::last_index(p, '/') > at {
            let k = paths::last_index(p, '/');
            assert(p[k] == name[k - at - 1]);
            assert(name.contains('/'));
        }
        assert(p[at] == '/');
    }
    assert(p.skip(at + 1) =~= name);
    assert(p.take(at) =~= folder);
    assert(paths::trim_path(folder) == folder);
    paths::lemma_last_index(name, '/');
    if paths::last_index(name, '/') >= 0 {
        assert(name.contains('/'));
    }
    assert(name.skip(0) =~= name);
    assert(p.len() > 1);
    if p == "/"@ {
        assert(p.len() == 1);
    }
    if name == "/"@ {
        assert(name[0] == '/');
        assert(name.contains('/'));
    }
}

/// The stem of a name is what stands before its last dot; a leading dot starts no extension.
pub proof fn law_stem_ends_at_the_last_dot(stem: Seq<char>, extension: Seq<char>)
    requires
        component(stem + "."@ + extension),
        !extension.contains('.'),
        stem.len() > 0,
    ensures
        paths::file_stem(stem + "."@ + extension) == Some(stem),
{
    reveal_strlit(".");
    let name = stem + "."@ + extension;
    let at = stem.len() as int;
    law_file_name_is_the_final_component("."@, name);
    assert forall|k: int| at < k < name.len() implies name[k] != '.' by {
        assert(name[k] == extension[k - at - 1]);
        if name[k] == '.' {
            assert(extension.contains('.'));
        }
    }
    paths::lemma_last_index_is(name, '.', at);
    assert(name.take(at) =~= stem);
}

proof fn lemma_replace_nothing(p: Seq<char>)
    requires
        !p.contains('\\'),
    ensures
        paths::replace_char(p, '\\', '/') == p,
{
    let q = paths::replace_char(p, '\\', '/');
    assert forall|k: int| 0 <= k < p.len() implies q[k] == p[k] by {
        if p[k] == '\\' {
            assert(p.contains('\\'));
        }
    }
    assert(q =~= p);
}

proof fn lemma_strip_both(a: nat, p: Seq<char>, b: nat)
    requires
        p.len() > 0,
        p[0] != '/',
        p.last() != '/',
    ensures
        paths::strip_both(Seq::new(a, |i: int| '/') + p + Seq::new(b, |i: int| '/'), '/') == p,
{
    let front = Seq::new(a, |i: int| '/');
    let back = Seq::new(b, |i: int| '/');
    let all = front + p + back;
    assert(all[a as int] == p[0]);
    bytes::lemma_find_from_is(all, paths::not_char('/'), 0, a as int);
    assert(all.skip(a as int) =~= p + back);
    lemma_strip_trailing(p, b);
}

proof fn lemma_strip_trailing(p: Seq<char>, b: nat)
    requires
        p.len() > 0,
        p.last() != '/',
    ensures
        paths::strip_trailing(p + Seq::new(b, |i: int| '/'), '/') == p,
    decreases b,
{
    let all = p + Seq::new(b, |i: int| '/');
    if b == 0 {
        assert(all =~= p);
    } else {
        assert(all.last() == '/');
        assert(all.drop_last() =~= p + Seq::new((b - 1) as nat, |i: int| '/'));
        lemma_strip_trailing(p, (b - 1) as nat);
    }
}

/// Normalizing a path takes away white space around it, one `./` in front of it, and slashes at
/// its ends, and leaves the path itself.
pub proof fn law_normalizing_strips(
    before: Seq<char>,
    front: nat,
    p: Seq<char>,
    back: nat,
    behind: Seq<char>,
)
    requires
        plain(p),
        text_laws::blank(before),
        text_laws::blank(behind),
    ensures
        paths::normalized(p) == p,
        paths::normalized(
            before + Seq::new(front, |i: int| '/') + p + Seq::new(back, |i: int| '/') + behind,
        ) == p,
        paths::normalized(before + "./"@ + p + Seq::new(back, |i: int| '/') + behind) == p,
{
    reveal_strlit("./");
    lemma_replace_nothing(p);
    text_laws::law_bare_text_stays(p);
    lemma_strip_both(0, p, 0);
    assert(Seq::new(0, |i: int| '/') + p + Seq::new(0, |i: int| '/') =~= p);
    let f = Seq::new(front, |i: int| '/');
    let b = Seq::new(back, |i: int| '/');
    let mid = f + p + b;
    assert(mid[0] == (if front > 0 {
        '/'
    } else {
        p[0]
    }));
    assert(mid.last() == (if back > 0 {
        '/'
    } else {
        p.last()
    }));
    assert(text_laws::bare(mid));
    text_laws::law_trimming_takes_white_space(before, mid, behind);
    assert(before + f + p + b + behind =~= before + mid + behind);
    assert(front == 0 && p.len() >= 2 ==> mid[1] == p[1]);
    assert(paths::strip_dot_slash(mid) == mid);
    lemma_strip_both(front, p, back);
    let dotted = "./"@ + p + b;
    assert(text_laws::bare(dotted)) by {
        assert(dotted.last() == (if back > 0 {
            '/'
        } else {
            p.last()
        }));
    }
    text_laws::law_trimming_takes_white_space(before, dotted, behind);
    assert(before + "./"@ + p + b + behind =~= before + dotted + behind);
    assert(dotted.skip(2) =~= p + b);
    assert(p.len() >= 2 ==> (p + b)[1] == p[1]);
    assert(paths::strip_dot_slash(p + b) == p + b);
    lemma_strip_both(0, p, back);
    assert(Seq::new(0, |i: int| '/') + p + b =~= p + b);
}

} // verus!
