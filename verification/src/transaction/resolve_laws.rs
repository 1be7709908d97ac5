//! What ids and move destinations mean, stated over the names in an index and the parts of a
//! path.

use vstd::prelude::*;

use crate::bytes;
use crate::error::NbErrorView;
use crate::path_laws;
use crate::paths;
use crate::text;
use crate::text_laws;
use crate::transaction::index;
use crate::transaction::resolve;
use crate::transaction::tree::Node;
use crate::types::Target;

verus! {

/// The text of an index: each name on a line of its own.
pub open spec fn listing(names: Seq<Seq<char>>) -> Seq<char>
    decreases names.len(),
{
    if names.len() == 0 {
        Seq::empty()
    } else {
        listing(names.drop_last()) + names.last() + seq!['\n']
    }
}

/// Names that a line can hold.
pub open spec fn on_one_line(names: Seq<Seq<char>>) -> bool {
    forall|k: int| 0 <= k < names.len() ==> !(#[trigger] names[k]).contains('\n')
}

/// A name with something to see in it.
pub open spec fn visible(name: Seq<char>) -> bool {
    exists|k: int| 0 <= k < name.len() && !text::whitespace(#[trigger] name[k])
}

proof fn lemma_listing(names: Seq<Seq<char>>)
    requires
        names.len() > 0,
    ensures
        listing(names) == text::join(names, "\n"@) + "\n"@,
    decreases names.len(),
{
    reveal_strlit("\n");
    assert("\n"@ =~= seq!['\n']);
    if names.len() == 1 {
        assert(names.drop_last() =~= Seq::<Seq<char>>::empty());
        reveal_with_fuel(listing, 2);
        assert(listing(names) =~= names[0] + seq!['\n']);
    } else {
        lemma_listing(names.drop_last());
    }
}

/// An index is written and read as one name on each line, in order.
pub proof fn law_index_lists_names(names: Seq<Seq<char>>)
    requires
        on_one_line(names),
    ensures
        index::index_bytes(names) == vstd::utf8::encode_utf8(listing(names)),
        index::index_lines(vstd::utf8::encode_utf8(listing(names))) == names,
{
    index::law_index_round_trip(names);
    if names.len() > 0 {
        lemma_listing(names);
    } else {
        assert(vstd::utf8::encode_utf8(listing(names)) =~= Seq::<u8>::empty());
    }
}

/// The index of a folder, and the path of a name in it; the root of a notebook has an empty
/// name.
pub open spec fn inside(folder: Seq<char>, name: Seq<char>) -> Seq<char> {
    if folder.len() == 0 {
        name
    } else {
        folder + seq!['/'] + name
    }
}

/// The index of a folder lists the given names.
pub open spec fn lists(
    m: Map<Seq<char>, Node>,
    folder: Seq<char>,
    names: Seq<Seq<char>>,
) -> bool {
    &&& on_one_line(names)
    &&& m.dom().contains(inside(folder, ".index"@))
    &&& m[inside(folder, ".index"@)] == Node::File(vstd::utf8::encode_utf8(listing(names)))
}

pub proof fn lemma_index_inside(folder: Seq<char>)
    ensures
        index::index_file(folder) == inside(folder, ".index"@),
{
    reveal_strlit(".index");
    reveal_strlit("/.index");
    assert(folder + "/.index"@ =~= folder + seq!['/'] + ".index"@);
}

proof fn lemma_id_splits(folder: Seq<char>, id: nat)
    ensures
        paths::folder_and_base(inside(folder, text::decimal(id))) == (folder, text::decimal(id)),
{
    reveal_strlit("/");
    text_laws::law_decimal_form(id);
    let d = text::decimal(id);
    if d.contains('/') {
        let k = choose|k: int| 0 <= k < d.len() && d[k] == '/';
        assert('0' <= d[k]);
    }
    path_laws::law_path_splits_at_the_last_slash(folder, d);
    assert("/"@ =~= seq!['/']);
    if folder.len() == 0 {
        assert(folder =~= Seq::<char>::empty());
    }
}

pub proof fn lemma_visible(name: Seq<char>)
    ensures
        text::trim(name).len() > 0 <==> visible(name),
{
    if visible(name) {
        let k = choose|k: int| 0 <= k < name.len() && !text::whitespace(#[trigger] name[k]);
        let p = |c: char| !text::whitespace(c);
        let i = bytes::find_from(name, p, 0);
        bytes::lemma_find_from(name, p, 0);
        assert(p(name[k]));
        assert(i <= k);
        let s = text::trim_start(name);
        lemma_trim_end_floor(s, k - i);
    } else {
        assert(text_laws::blank(name));
        let none = Seq::<char>::empty();
        text_laws::law_trimming_takes_white_space(name, none, none);
        assert(name + none + none =~= name);
    }
}

proof fn lemma_trim_end_floor(s: Seq<char>, k: int)
    requires
        0 <= k < s.len(),
        !text::whitespace(s[k]),
    ensures
        k < text::trim_end_at(s, 0) <= s.len(),
    decreases s.len(),
{
    if text::whitespace(s.last()) {
        assert(s.drop_last()[k] == s[k]);
        lemma_trim_end_floor(s.drop_last(), k);
    }
}

/// A living id stands for the name on its own line: in a folder whose index lists names, the
/// path of the folder with the number of a line behind it resolves to the path of the folder
/// with the name on that line behind it.
pub proof fn law_living_id_resolves_to_its_line(
    m: Map<Seq<char>, Node>,
    folder: Seq<char>,
    names: Seq<Seq<char>>,
    id: nat,
)
    requires
        lists(m, folder, names),
        1 <= id <= names.len(),
        id <= usize::MAX,
        visible(names[id - 1]),
    ensures
        resolve::numeric(m, inside(folder, text::decimal(id))) == Some(
            Ok::<Seq<char>, NbErrorView>(inside(folder, names[id - 1])),
        ),
{
    reveal_strlit("/");
    assert("/"@ =~= seq!['/']);
    lemma_id_splits(folder, id);
    text_laws::law_decimal_form(id);
    lemma_index_inside(folder);
    law_index_lists_names(names);
    lemma_visible(names[id - 1]);
}

/// A number that is no living id resolves to nothing: zero, one behind the last line, or that
/// of a line left blank.
pub proof fn law_other_numbers_are_not_found(
    m: Map<Seq<char>, Node>,
    folder: Seq<char>,
    names: Seq<Seq<char>>,
    id: nat,
)
    requires
        lists(m, folder, names),
        id <= usize::MAX,
        1 <= id <= names.len() ==> !visible(names[id - 1]),
    ensures
        resolve::numeric(m, inside(folder, text::decimal(id))) == Some(
            Err::<Seq<char>, NbErrorView>(
                NbErrorView::NotFound { selector: inside(folder, text::decimal(id)) },
            ),
        ),
{
    lemma_id_splits(folder, id);
    text_laws::law_decimal_form(id);
    lemma_index_inside(folder);
    law_index_lists_names(names);
    if 1 <= id <= names.len() {
        lemma_visible(names[id - 1]);
    }
}

/// The id that is reported for a name is the number of its first line, so that it resolves
/// back to that name; a name without line has no id.
pub proof fn law_reported_id_resolves_back(
    m: Map<Seq<char>, Node>,
    folder: Seq<char>,
    names: Seq<Seq<char>>,
    name: Seq<char>,
)
    requires
        lists(m, folder, names),
        names.len() < u32::MAX,
        visible(name),
    ensures
        ({
            let id = index::listed_id(vstd::utf8::encode_utf8(listing(names)), name);
            &&& names.contains(name) <==> id is Some
            &&& id matches Some(i) ==> 1 <= i <= names.len() && names[i - 1] == name && (forall|
                k: int,
            |
                0 <= k < i - 1 ==> #[trigger] names[k] != name) && resolve::numeric(
                m,
                inside(folder, text::decimal(i as nat)),
            ) == Some(Ok::<Seq<char>, NbErrorView>(inside(folder, name)))
        }),
{
    law_index_lists_names(names);
    let p = index::same_text(name);
    let at = index::line_of(names, name);
    bytes::lemma_find_from(names, p, 0);
    if at < names.len() {
        assert(p(names[at]));
        assert(names[at] == name);
        law_living_id_resolves_to_its_line(m, folder, names, (at + 1) as nat);
        assert(index::id_of(at) == at + 1);
        assert forall|k: int| 0 <= k < at implies #[trigger] names[k] != name by {
            assert(!p(names[k]));
        }
    } else {
        assert forall|k: int| 0 <= k < names.len() implies #[trigger] names[k] != name by {
            assert(!p(names[k]));
        }
    }
}

/// The selector with the id of a line names, in the planned tree, the file on that line, unless
/// a path is written as that selector is.
pub proof fn law_id_selector_means_its_line(
    m: Map<Seq<char>, Node>,
    ignored: Seq<Seq<char>>,
    notebook: Seq<char>,
    folder: Seq<char>,
    names: Seq<Seq<char>>,
    id: u32,
)
    requires
        lists(m, folder, names),
        1 <= id <= names.len(),
        visible(names[id - 1]),
        folder.len() == 0 || path_laws::plain(folder),
        !folder.contains(':'),
        !m.dom().contains(inside(folder, text::decimal(id as nat))),
        !ignored.contains(inside(folder, text::decimal(id as nat))),
    ensures
        resolve::resolved(
            m,
            ignored,
            Target::Selector { value: index::id_selector(notebook, folder, id) },
        ) == Ok::<Seq<char>, NbErrorView>(inside(folder, names[id - 1])),
{
    let value = index::id_selector(notebook, folder, id);
    let path = inside(folder, text::decimal(id as nat));
    let d = text::decimal(id as nat);
    text_laws::law_decimal_form(id as nat);
    reveal_strlit(":");
    reveal_strlit("/");
    assert("/"@ =~= seq!['/']);
    assert(value =~= notebook + ":"@ + path);
    let at = notebook.len() as int;
    assert forall|k: int| at < k < value.len() implies value[k] != ':' by {
        let i = k - at - 1;
        assert(value[k] == path[i]);
        if i < folder.len() && folder.len() > 0 {
            assert(path[i] == folder[i]);
            if folder[i] == ':' {
                assert(folder.contains(':'));
            }
        } else if folder.len() > 0 && i > folder.len() {
            assert(path[i] == d[i - folder.len() - 1]);
        } else if folder.len() == 0 {
            assert(path[i] == d[i]);
        }
    }
    paths::lemma_last_index_is(value, ':', at);
    assert(resolve::without_notebook(value) =~= path);
    assert(path_laws::plain(path)) by {
        assert(path.last() == d.last());
        assert('0' <= d[d.len() - 1] <= '9');
        assert('0' <= d[0] <= '9');
        if path.contains('\\') {
            let i = choose|i: int| 0 <= i < path.len() && path[i] == '\\';
            if folder.len() > 0 && i < folder.len() {
                assert(folder[i] == '\\');
                assert(folder.contains('\\'));
            } else if folder.len() > 0 && i > folder.len() {
                assert(path[i] == d[i - folder.len() - 1]);
            } else if folder.len() == 0 {
                assert(path[i] == d[i]);
            }
        }
        if folder.len() > 0 {
            assert(path[0] == folder[0]);
            if folder.len() >= 2 {
                assert(path[1] == folder[1]);
            }
        }
    }
    let none = Seq::<char>::empty();
    path_laws::law_normalizing_strips(none, 0, path, 0, none);
    law_living_id_resolves_to_its_line(m, folder, names, id as nat);
}

/// A path that is written out means itself, where it is in the tree and not ignored.
pub proof fn law_path_means_itself(
    m: Map<Seq<char>, Node>,
    ignored: Seq<Seq<char>>,
    path: Seq<char>,
)
    requires
        path_laws::plain(path),
        m.dom().contains(path),
        !ignored.contains(path),
    ensures
        resolve::resolved(m, ignored, Target::Path { value: path }) == Ok::<
            Seq<char>,
            NbErrorView,
        >(path),
        !path.contains(':') ==> resolve::resolved(m, ignored, Target::Selector { value: path })
            == Ok::<Seq<char>, NbErrorView>(path),
        resolve::resolved(m, ignored, Target::Path { value: path }) is Ok,
{
    let none = Seq::<char>::empty();
    path_laws::law_normalizing_strips(none, 0, path, 0, none);
    if !path.contains(':') {
        assert forall|k: int| -1 < k < path.len() implies path[k] != ':' by {
            if path[k] == ':' {
                assert(path.contains(':'));
            }
        }
        paths::lemma_last_index_is(path, ':', -1);
        assert(path.skip(0) =~= path);
    }
}

/// A path that is ignored, or is not in the tree, is refused; what a target resolves to is in
/// the tree or listed in an index.
pub proof fn law_other_paths_are_refused(
    m: Map<Seq<char>, Node>,
    ignored: Seq<Seq<char>>,
    path: Seq<char>,
)
    requires
        path_laws::plain(path),
    ensures
        ignored.contains(path) ==> (resolve::resolved(m, ignored, Target::Path { value: path })
            matches Err(NbErrorView::PathIgnored { path: p, guidance, plan_index }) && p == path),
        !ignored.contains(path) && !m.dom().contains(path) ==> resolve::resolved(
            m,
            ignored,
            Target::Path { value: path },
        ) == Err::<Seq<char>, NbErrorView>(NbErrorView::NotFound { selector: path }),
{
    let none = Seq::<char>::empty();
    path_laws::law_normalizing_strips(none, 0, path, 0, none);
}

/// A file of the tree whose path a name ends, whose stem it is, or whose path ends in the name
/// as it is normalized.
pub open spec fn goes_by(
    m: Map<Seq<char>, Node>,
    candidate: Seq<char>,
    name: Seq<char>,
    path: Seq<char>,
) -> bool {
    &&& m.dom().contains(path)
    &&& m[path] is File
    &&& name.is_suffix_of(path) || paths::file_stem(path) == Some(name) || path == candidate || (
    seq!['/'] + candidate).is_suffix_of(path)
}

/// A name means the one file of the tree that goes by it; a name that two files go by means
/// neither, and one that no file goes by is not found, unless an ignored path goes by it.
pub proof fn law_name_means_its_only_file(
    m: Map<Seq<char>, Node>,
    ignored: Seq<Seq<char>>,
    value: Seq<char>,
    candidate: Seq<char>,
    name: Seq<char>,
)
    ensures
        ({
            let meant = resolve::by_name(m, ignored, value, candidate, name);
            &&& meant matches Ok(p) ==> goes_by(m, candidate, name, p)
            &&& forall|p: Seq<char>, q: Seq<char>|
                p != q && #[trigger] goes_by(m, candidate, name, p) && #[trigger] goes_by(
                    m,
                    candidate,
                    name,
                    q,
                ) ==> meant is Err
            &&& forall|p: Seq<char>| #[trigger]
                goes_by(m, candidate, name, p) && meant is Err ==> exists|q: Seq<char>|
                    q != p && #[trigger] goes_by(m, candidate, name, q)
            &&& (forall|p: Seq<char>| !#[trigger] goes_by(m, candidate, name, p)) && ignored.len()
                == 0 ==> meant == Err::<Seq<char>, NbErrorView>(
                NbErrorView::NotFound { selector: value },
            )
        }),
{
    reveal_strlit("/");
    assert("/"@ =~= seq!['/']);
    let meant = resolve::by_name(m, ignored, value, candidate, name);
    assert forall|p: Seq<char>| #[trigger] goes_by(m, candidate, name, p) == resolve::named(
        m,
        candidate,
        name,
        p,
    ) by {}
    assert forall|p: Seq<char>| #[trigger] goes_by(m, candidate, name, p) && meant is Err implies
        exists|q: Seq<char>| q != p && #[trigger] goes_by(m, candidate, name, q) by {
        assert(resolve::named(m, candidate, name, p));
        let (a, b) = choose|a: Seq<char>, b: Seq<char>|
            #[trigger] resolve::named(m, candidate, name, a) && #[trigger] resolve::named(
                m,
                candidate,
                name,
                b,
            ) && a != b;
        assert(goes_by(m, candidate, name, a) && goes_by(m, candidate, name, b));
    }
    assert forall|p: Seq<char>, q: Seq<char>|
        p != q && #[trigger] goes_by(m, candidate, name, p) && #[trigger] goes_by(
            m,
            candidate,
            name,
            q,
        ) implies meant is Err by {
        assert(resolve::named(m, candidate, name, p) && resolve::named(m, candidate, name, q));
    }
    if meant is Ok {
        let p = meant->Ok_0;
        assert(resolve::named(m, candidate, name, p));
        assert(goes_by(m, candidate, name, p));
    }
    if forall|p: Seq<char>| !#[trigger] goes_by(m, candidate, name, p) {
        assert forall|p: Seq<char>| !#[trigger] resolve::named(m, candidate, name, p) by {
            assert(!goes_by(m, candidate, name, p));
        }
    }
}

/// A move to a destination that ends in a slash leads into the folder that the destination
/// names as a whole, and keeps the base name of the source.
pub proof fn law_move_into_folder_keeps_base_name(
    from_folder: Seq<char>,
    base: Seq<char>,
    folder: Seq<char>,
    before: Seq<char>,
    behind: Seq<char>,
)
    requires
        path_laws::plain(folder),
        path_laws::plain(base),
        path_laws::component(base),
        from_folder.len() == 0 || path_laws::plain(from_folder) && !(from_folder.len() > 1
            && from_folder.last() == '.' && from_folder[from_folder.len() - 2] == '/'),
        text_laws::blank(before),
        text_laws::blank(behind),
    ensures
        ({
            let to = resolve::moved_to(
                inside(from_folder, base),
                before + folder + seq!['/'] + behind,
            );
            &&& to == folder + seq!['/'] + base
            &&& paths::folder_and_base(to) == (folder, base)
        }),
{
    reveal_strlit("/");
    assert("/"@ =~= seq!['/']);
    let destination = before + folder + seq!['/'] + behind;
    let one = Seq::new(1, |i: int| '/');
    assert(one =~= seq!['/']);
    let nothing = Seq::new(0, |i: int| '/');
    path_laws::law_normalizing_strips(before, 0, folder, 1, behind);
    assert(before + nothing + folder + one + behind =~= destination);
    let mid = folder + seq!['/'];
    text_laws::law_trimming_takes_white_space(before, mid, behind);
    assert(before + mid + behind =~= destination);
    assert((before + mid).last() == '/');
    assert(resolve::into_folder(destination));
    let from = inside(from_folder, base);
    if from_folder.len() > 0 {
        path_laws::law_file_name_is_the_final_component(from_folder, base);
    } else {
        path_laws::law_file_name_is_the_final_component(seq!['x'], base);
    }
    assert(paths::file_name(from) == Some(base));
    let to = folder + seq!['/'] + base;
    assert(path_laws::plain(to)) by {
        assert(to.last() == base.last());
        assert(to[0] == folder[0]);
        if folder.len() >= 2 {
            assert(to[1] == folder[1]);
        }
        if to.contains('\\') {
            let i = choose|i: int| 0 <= i < to.len() && to[i] == '\\';
            if i < folder.len() {
                assert(folder[i] == '\\');
                assert(folder.contains('\\'));
            } else if i > folder.len() {
                assert(base[i - folder.len() - 1] == '\\');
                assert(base.contains('\\'));
            }
        }
    }
    let none = Seq::<char>::empty();
    path_laws::law_normalizing_strips(none, 0, to, 0, none);
    path_laws::law_path_splits_at_the_last_slash(folder, base);
}

/// A move to a destination that does not end in a slash leads to the destination itself.
pub proof fn law_move_to_path_leads_there(
    from: Seq<char>,
    to: Seq<char>,
    before: Seq<char>,
    behind: Seq<char>,
)
    requires
        path_laws::plain(to),
        text_laws::blank(before),
        text_laws::blank(behind),
    ensures
        resolve::moved_to(from, before + to + behind) == to,
{
    let nothing = Seq::new(0, |i: int| '/');
    path_laws::law_normalizing_strips(before, 0, to, 0, behind);
    assert(before + nothing + to + nothing + behind =~= before + to + behind);
    text_laws::law_trimming_takes_white_space(before, to, behind);
    assert((before + to).last() == to.last());
}

/// The selector that is reported for a target has a notebook in front: its own, or else the
/// notebook of the plan; a path is reported by the path that it resolved to.
pub proof fn law_reported_selector_has_notebook(
    notebook: Seq<char>,
    value: Seq<char>,
    path: Seq<char>,
)
    ensures
        value.contains(':') ==> resolve::selector_of(notebook, Target::Selector { value }, path)
            == value,
        !value.contains(':') ==> resolve::selector_of(notebook, Target::Selector { value }, path)
            == notebook + seq![':'] + value,
        resolve::selector_of(notebook, Target::Path { value }, path) == notebook + seq![':'] + path,
{
    reveal_strlit(":");
    assert(":"@ =~= seq![':']);
}

/// A selector without its notebook is what stands behind the colon; one without a colon stays.
pub proof fn law_notebook_is_cut_off(notebook: Seq<char>, rest: Seq<char>)
    requires
        !rest.contains(':'),
    ensures
        resolve::without_notebook(notebook + seq![':'] + rest) == rest,
        resolve::without_notebook(rest) == rest,
{
    let s = notebook + seq![':'] + rest;
    let at = notebook.len() as int;
    assert forall|k: int| at < k < s.len() implies s[k] != ':' by {
        assert(s[k] == rest[k - at - 1]);
        if s[k] == ':' {
            assert(rest.contains(':'));
        }
    }
    paths::lemma_last_index_is(s, ':', at);
    assert(s.skip(at + 1) =~= rest);
    assert forall|k: int| -1 < k < rest.len() implies rest[k] != ':' by {
        if rest[k] == ':' {
            assert(rest.contains(':'));
        }
    }
    paths::lemma_last_index_is(rest, ':', -1);
    assert(rest.skip(0) =~= rest);
}

/// A destination is a folder exactly when it ends in a slash, whatever white space follows.
pub proof fn law_slash_means_a_folder(destination: Seq<char>, behind: Seq<char>)
    requires
        text_laws::bare(destination),
        text_laws::blank(behind),
    ensures
        resolve::into_folder(destination + behind) <==> destination.len() > 0 && destination.last()
            == '/',
{
    let none = Seq::<char>::empty();
    text_laws::law_trimming_takes_white_space(none, destination, behind);
    assert(none + destination + behind =~= destination + behind);
    assert(none + destination =~= destination);
}

} // verus!
