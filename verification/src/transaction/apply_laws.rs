//! What an applied operation does to the planned tree.

use vstd::prelude::*;

use crate::bytes;
use crate::error::NbErrorView;
use crate::parser;
use crate::paths;
use crate::text;
use crate::transaction::apply;
use crate::transaction::apply::{Applied, Scene};
use crate::transaction::content;
use crate::transaction::index::{IndexEdit, IndexKind};
use crate::transaction::plan::Op;
use crate::transaction::resolve;
use crate::transaction::resolve_laws;
use crate::transaction::tree;
use crate::transaction::tree::Node;
use crate::types::Target;

verus! {

/// Every entry of a tree but those at two paths is in another tree, as it was.
pub open spec fn keeps_all_but(
    before: Map<Seq<char>, Node>,
    after: Map<Seq<char>, Node>,
    a: Seq<char>,
    b: Seq<char>,
) -> bool {
    forall|p: Seq<char>|
        p != a && p != b && #[trigger] before.dom().contains(p) ==> after.dom().contains(p)
            && after[p] == before[p]
}

/// Every entry that a tree has and another had not, but that at a path, is a folder.
pub open spec fn adds_only_folders_but(
    before: Map<Seq<char>, Node>,
    after: Map<Seq<char>, Node>,
    a: Seq<char>,
) -> bool {
    forall|p: Seq<char>|
        p != a && #[trigger] after.dom().contains(p) && !before.dom().contains(p)
            ==> after[p] == Node::Folder
}

/// The path that an operation creates a file at, and the bytes that it puts there.
pub open spec fn creation(op: Op) -> Option<(Seq<char>, Seq<u8>)> {
    match op {
        Op::AddNote { path, title, content, tags } => Some(
            (path, vstd::utf8::encode_utf8(content::note_text(title, content, tags))),
        ),
        Op::AddTodo { path, title, description, tasks, tags } => Some(
            (path, vstd::utf8::encode_utf8(content::todo_text(title, description, tasks, tags))),
        ),
        Op::AddBookmark { path, url, title, tags, comment } => Some(
            (path, vstd::utf8::encode_utf8(content::bookmark_text(url, title, tags, comment))),
        ),
        _ => None,
    }
}

/// A note, a task or a bookmark that is added stands at its path afterwards, with its bytes, and
/// nothing else changes but that the folders above it are there. It is written as a new file,
/// reported at its path, and listed in the index of its folder.
pub proof fn law_added_file_is_there(s: Scene, op: Op)
    requires
        creation(op) is Some,
        apply::applied(s, op) is Ok,
    ensures
        ({
            let (path, bytes) = creation(op)->Some_0;
            let x = apply::applied(s, op)->Ok_0;
            let (folder, base) = paths::folder_and_base(path);
            &&& !s.tree.dom().contains(path)
            &&& !s.ignored.contains(path)
            &&& x.tree.dom().contains(path)
            &&& x.tree[path] == Node::File(bytes)
            &&& keeps_all_but(s.tree, x.tree, path, path)
            &&& adds_only_folders_but(s.tree, x.tree, path)
            &&& x.effects.written == s.effects.written.push(path)
            &&& x.effects.created == s.effects.created.push(path)
            &&& x.effects.removed == s.effects.removed
            &&& x.effects.mkdirs == s.effects.mkdirs
            &&& x.meta.path == Some(path)
            &&& x.meta.selector == Some(s.notebook + seq![':'] + path)
            &&& !x.meta.noop
            &&& x.meta.index_edits == seq![
                IndexEdit {
                    file: resolve_laws::inside(folder, ".index"@),
                    kind: IndexKind::Append { basename: base },
                },
            ]
        }),
{
    let (path, bytes) = creation(op)->Some_0;
    let x = apply::applied(s, op)->Ok_0;
    lemma_with_file(s.tree, path, bytes);
    resolve_laws::lemma_index_inside(paths::folder_and_base(path).0);
    lemma_colon();
}

pub proof fn lemma_colon()
    ensures
        ":"@ == seq![':'],
{
    reveal_strlit(":");
    assert(":"@ =~= seq![':']);
}

proof fn lemma_with_file(m: Map<Seq<char>, Node>, path: Seq<char>, bytes: Seq<u8>)
    ensures
        ({
            let n = tree::with_file(m, path, bytes);
            &&& n.dom().contains(path)
            &&& n[path] == Node::File(bytes)
            &&& keeps_all_but(m, n, path, path)
            &&& adds_only_folders_but(m, n, path)
        }),
{
    let n = tree::with_file(m, path, bytes);
    assert forall|p: Seq<char>| p != path && #[trigger] m.dom().contains(p) implies n.dom().contains(
        p,
    ) && n[p] == m[p] by {
        tree::lemma_with_parents(m, path, p);
    }
    assert forall|p: Seq<char>|
        p != path && #[trigger] n.dom().contains(p) && !m.dom().contains(p) implies n[p]
        == Node::Folder by {
        tree::lemma_with_parents(m, path, p);
    }
}

/// A file is added unless something stands at its path already, Git ignores the path, a link
/// stands above it, or its bytes are no document.
pub proof fn law_free_path_is_taken(s: Scene, op: Op)
    requires
        creation(op) is Some,
    ensures
        ({
            let (path, bytes) = creation(op)->Some_0;
            let link = tree::link_refusal(
                s.root,
                tree::components(path),
                apply::states_of(s.probes, path),
                0,
            );
            &&& apply::applied(s, op) is Ok <==> !s.tree.dom().contains(path)
                && !s.ignored.contains(path) && link is None && parser::parsed_at(
                bytes,
                path,
            ) is Ok
            &&& s.tree.dom().contains(path) && !s.ignored.contains(path) && link is None
                ==> apply::applied(s, op) == Err::<Applied, NbErrorView>(
                NbErrorView::PathCollision { path, plan_index: None },
            )
        }),
{
}

/// A deleted entry is gone, and every other entry stays. Its path is removed, and its line in
/// the index of its folder is blanked.
pub proof fn law_deleted_entry_is_gone(s: Scene, target: Target)
    ensures
        apply::applied(s, Op::DeleteNote { target }) is Ok <==> (resolve::resolved(
            s.tree,
            s.ignored,
            target,
        ) matches Ok(path) && s.tree.dom().contains(path)),
        apply::applied(s, Op::DeleteNote { target }) matches Ok(x) ==> {
            let path = resolve::resolved(s.tree, s.ignored, target)->Ok_0;
            let (folder, base) = paths::folder_and_base(path);
            &&& !x.tree.dom().contains(path)
            &&& keeps_all_but(s.tree, x.tree, path, path)
            &&& forall|p: Seq<char>| #[trigger]
                x.tree.dom().contains(p) ==> s.tree.dom().contains(p)
            &&& x.effects.removed == s.effects.removed.push(path)
            &&& x.effects.written == s.effects.written
            &&& x.effects.created == s.effects.created
            &&& x.effects.mkdirs == s.effects.mkdirs
            &&& x.meta.path == Some(path)
            &&& x.meta.index_edits == seq![
                IndexEdit {
                    file: resolve_laws::inside(folder, ".index"@),
                    kind: IndexKind::Blank { basename: base },
                },
            ]
        },
{
    if apply::applied(s, Op::DeleteNote { target }) is Ok {
        let path = resolve::resolved(s.tree, s.ignored, target)->Ok_0;
        resolve_laws::lemma_index_inside(paths::folder_and_base(path).0);
    }
}

/// A moved entry stands at its destination as it stood at its source, its source is gone, and
/// every other entry stays, but that the folders above the destination are there. Inside a
/// folder its line in the index is renamed; else that line is blanked, and the new name is
/// listed in the index of the new folder.
pub proof fn law_moved_entry_is_at_its_destination(
    s: Scene,
    target: Target,
    destination: Seq<char>,
)
    requires
        apply::applied(s, Op::MoveNote { target, destination }) is Ok,
    ensures
        ({
            let from = resolve::resolved(s.tree, s.ignored, target)->Ok_0;
            let to = resolve::moved_to(from, destination);
            let x = apply::applied(s, Op::MoveNote { target, destination })->Ok_0;
            let (old_folder, old_base) = paths::folder_and_base(from);
            let (new_folder, new_base) = paths::folder_and_base(to);
            let old_index = resolve_laws::inside(old_folder, ".index"@);
            let new_index = resolve_laws::inside(new_folder, ".index"@);
            &&& resolve::resolved(s.tree, s.ignored, target) is Ok
            &&& s.tree.dom().contains(from)
            &&& !s.tree.dom().contains(to)
            &&& x.tree.dom().contains(to)
            &&& x.tree[to] == s.tree[from]
            &&& x.tree.dom().contains(from) ==> x.tree[from] == Node::Folder
            &&& keeps_all_but(s.tree, x.tree, from, to)
            &&& adds_only_folders_but(s.tree, x.tree, to)
            &&& x.effects.removed == s.effects.removed.push(from)
            &&& x.effects.written == s.effects.written.push(to)
            &&& x.effects.created == s.effects.created.push(to)
            &&& x.meta.path == Some(to)
            &&& x.meta.selector == Some(s.notebook + seq![':'] + to)
            &&& old_folder == new_folder ==> x.meta.index_edits == seq![
                IndexEdit {
                    file: old_index,
                    kind: IndexKind::Rename { old_basename: old_base, new_basename: new_base },
                },
            ]
            &&& old_folder != new_folder ==> x.meta.index_edits == seq![
                IndexEdit { file: old_index, kind: IndexKind::Blank { basename: old_base } },
                IndexEdit { file: new_index, kind: IndexKind::Append { basename: new_base } },
            ]
        }),
{
    let from = resolve::resolved(s.tree, s.ignored, target)->Ok_0;
    let to = resolve::moved_to(from, destination);
    let x = apply::applied(s, Op::MoveNote { target, destination })->Ok_0;
    let m = s.tree.remove(from);
    resolve_laws::lemma_index_inside(paths::folder_and_base(from).0);
    resolve_laws::lemma_index_inside(paths::folder_and_base(to).0);
    lemma_colon();
    assert forall|p: Seq<char>|
        p != from && p != to && #[trigger] s.tree.dom().contains(p) implies x.tree.dom().contains(p)
        && x.tree[p] == s.tree[p] by {
        tree::lemma_with_parents(m, to, p);
    }
    assert forall|p: Seq<char>|
        p != to && #[trigger] x.tree.dom().contains(p) && !s.tree.dom().contains(p) implies x.tree[p]
        == Node::Folder by {
        tree::lemma_with_parents(m, to, p);
    }
    tree::lemma_with_parents(m, to, from);
}

/// The target of an operation that edits a file in place.
pub open spec fn edited_target(op: Op) -> Option<Target> {
    match op {
        Op::MarkTaskDone { target, .. } => Some(target),
        Op::UnmarkTaskDone { target, .. } => Some(target),
        Op::ReplaceNoteBody { target, .. } => Some(target),
        Op::EditNoteSubstring { target, .. } => Some(target),
        Op::EditNoteLines { target, .. } => Some(target),
        Op::RetitleNote { target, .. } => Some(target),
        Op::EditNoteTags { target, .. } => Some(target),
        _ => None,
    }
}

/// An edited file holds its new source, and every other entry stays; nothing is listed, blanked
/// or removed. The edit is reported as one without effect exactly when no byte changed.
pub proof fn law_edited_file_holds_its_new_source(s: Scene, op: Op)
    requires
        edited_target(op) is Some,
        apply::applied(s, op) is Ok,
    ensures
        ({
            let target = edited_target(op)->Some_0;
            let path = resolve::resolved(s.tree, s.ignored, target)->Ok_0;
            let x = apply::applied(s, op)->Ok_0;
            let before = s.tree[path]->File_0;
            let after = apply::new_source(op, path, before)->Ok_0;
            &&& resolve::resolved(s.tree, s.ignored, target) is Ok
            &&& s.tree.dom().contains(path) && s.tree[path] is File
            &&& apply::new_source(op, path, before) is Ok
            &&& x.tree.dom().contains(path) && x.tree[path] == Node::File(after)
            &&& keeps_all_but(s.tree, x.tree, path, path)
            &&& adds_only_folders_but(s.tree, x.tree, path)
            &&& x.effects.written == s.effects.written.push(path)
            &&& x.effects.removed == s.effects.removed
            &&& x.effects.created == s.effects.created
            &&& x.meta.path == Some(path)
            &&& x.meta.noop <==> after == before
            &&& x.meta.index_edits.len() == 0
            &&& parser::parsed_at(after, path) is Ok
            &&& x.meta.fingerprint == Some(
                crate::fingerprint::blake3_hex(parser::parsed_at(after, path)->Ok_0.body()),
            )
        }),
{
    let target = edited_target(op)->Some_0;
    let path = resolve::resolved(s.tree, s.ignored, target)->Ok_0;
    let before = s.tree[path]->File_0;
    lemma_with_file(s.tree, path, apply::new_source(op, path, before)->Ok_0);
}

/// A new folder is there with an empty file that keeps it, and every other entry stays.
pub proof fn law_added_folder_is_there(s: Scene, path: Seq<char>)
    requires
        apply::applied(s, Op::AddFolder { path }) is Ok,
    ensures
        ({
            let x = apply::applied(s, Op::AddFolder { path })->Ok_0;
            let keep = path + "/.gitkeep"@;
            &&& !s.tree.dom().contains(path)
            &&& x.tree.dom().contains(path) && x.tree[path] == Node::Folder
            &&& x.tree.dom().contains(keep) && x.tree[keep] == Node::File(Seq::empty())
            &&& keeps_all_but(s.tree, x.tree, path, keep)
            &&& x.effects.mkdirs == s.effects.mkdirs.push(path)
            &&& x.effects.written == s.effects.written.push(keep)
            &&& x.effects.created == s.effects.created.push(keep)
            &&& x.effects.removed == s.effects.removed
            &&& x.meta.path == Some(path)
            &&& x.meta.index_edits.len() == 0
        }),
{
    reveal_strlit("/.gitkeep");
    let x = apply::applied(s, Op::AddFolder { path })->Ok_0;
    let keep = apply::keep_file(path);
    let with = tree::with_folder(s.tree, path);
    assert(keep.len() > path.len());
    assert(keep.last() == 'p');
    assert forall|p: Seq<char>|
        p != path && p != keep && #[trigger] s.tree.dom().contains(p) implies x.tree.dom().contains(p)
        && x.tree[p] == s.tree[p] by {
        tree::lemma_with_chain(s.tree, path, p);
        tree::lemma_with_parents(with, keep, p);
    }
    tree::lemma_with_parents(with, keep, path);
    lemma_chain_is_short(s.tree, path, keep);
}

/// A path that is longer than another is on no way to it.
proof fn lemma_chain_is_short(m: Map<Seq<char>, Node>, path: Seq<char>, long: Seq<char>)
    requires
        long.len() > path.len(),
        !m.dom().contains(long),
    ensures
        !tree::with_folder(m, path).dom().contains(long),
{
    let parts = tree::components(path);
    lemma_folders_short(m, parts, parts.len() as int, path, long);
}

proof fn lemma_folders_short(
    m: Map<Seq<char>, Node>,
    parts: Seq<Seq<char>>,
    n: int,
    path: Seq<char>,
    long: Seq<char>,
)
    requires
        parts == tree::components(path),
        0 <= n <= parts.len(),
        long.len() > path.len(),
        !m.dom().contains(long),
    ensures
        !tree::folders_added(m, parts, n).dom().contains(long),
    decreases n,
{
    if n > 0 {
        lemma_folders_short(m, parts, n - 1, path, long);
        lemma_prefix_len(path, n);
    }
}

/// How many characters parts take, each with a separator.
spec fn weight(parts: Seq<Seq<char>>) -> nat
    decreases parts.len(),
{
    if parts.len() == 0 {
        0
    } else {
        weight(parts.drop_last()) + parts.last().len() + 1
    }
}

proof fn lemma_weight_front(x: Seq<char>, rest: Seq<Seq<char>>)
    ensures
        weight(seq![x] + rest) == x.len() + 1 + weight(rest),
    decreases rest.len(),
{
    let all = seq![x] + rest;
    if rest.len() == 0 {
        reveal_with_fuel(weight, 2);
        assert(all.drop_last() =~= Seq::<Seq<char>>::empty());
        assert(all.last() == x);
    } else {
        assert(all.drop_last() =~= seq![x] + rest.drop_last());
        assert(all.last() == rest.last());
        lemma_weight_front(x, rest.drop_last());
    }
}

proof fn lemma_split_weight(s: Seq<char>, sep: char)
    ensures
        weight(text::split(s, sep)) == s.len() + 1,
    decreases s.len(),
{
    let at = bytes::find_from(s, text::is_char(sep), 0);
    bytes::lemma_find_from(s, text::is_char(sep), 0);
    if 0 <= at < s.len() {
        lemma_split_weight(s.skip(at + 1), sep);
        lemma_weight_front(s.take(at), text::split(s.skip(at + 1), sep));
    } else {
        reveal_with_fuel(weight, 2);
        assert(seq![s].drop_last() =~= Seq::<Seq<char>>::empty());
    }
}

proof fn lemma_filter_weight(parts: Seq<Seq<char>>, p: spec_fn(Seq<char>) -> bool)
    ensures
        weight(parts.filter(p)) <= weight(parts),
    decreases parts.len(),
{
    reveal(Seq::filter);
    if parts.len() > 0 {
        lemma_filter_weight(parts.drop_last(), p);
        let kept = parts.drop_last().filter(p);
        assert(kept.push(parts.last()).drop_last() =~= kept);
    }
}

proof fn lemma_take_weight(parts: Seq<Seq<char>>, n: int)
    requires
        0 <= n <= parts.len(),
    ensures
        weight(parts.take(n)) <= weight(parts),
    decreases parts.len() - n,
{
    if n < parts.len() {
        lemma_take_weight(parts, n + 1);
        assert(parts.take(n + 1).drop_last() =~= parts.take(n));
    } else {
        assert(parts.take(n) =~= parts);
    }
}

proof fn lemma_join_weight(parts: Seq<Seq<char>>)
    requires
        parts.len() > 0,
    ensures
        text::join(parts, "/"@).len() + 1 == weight(parts),
    decreases parts.len(),
{
    reveal_strlit("/");
    if parts.len() == 1 {
        reveal_with_fuel(weight, 2);
        assert(parts.drop_last() =~= Seq::<Seq<char>>::empty());
    } else {
        lemma_join_weight(parts.drop_last());
    }
}

/// A prefix of a path is not longer than the path.
proof fn lemma_prefix_len(path: Seq<char>, n: int)
    requires
        1 <= n <= tree::components(path).len(),
    ensures
        tree::prefix_of(tree::components(path), n).len() <= path.len(),
{
    let parts = tree::components(path);
    lemma_split_weight(path, '/');
    lemma_filter_weight(text::split(path, '/'), |p: Seq<char>| p.len() > 0);
    lemma_take_weight(parts, n);
    lemma_join_weight(parts.take(n));
}

/// The paths that an operation creates are looked at for links before: that of a new file, that
/// of a new folder and of the file that keeps it, and that to which an entry moves.
pub proof fn law_created_paths_are_looked_at(m: Map<Seq<char>, Node>, ignored: Seq<Seq<char>>, op: Op)
    ensures
        ({
            let looked = apply::create_paths(m, ignored, op);
            &&& creation(op) matches Some(x) ==> looked.contains(x.0)
            &&& op matches Op::AddFolder { path } ==> looked.contains(path) && looked.contains(
                resolve_laws::inside(path, ".gitkeep"@),
            ) || path.len() == 0
            &&& op matches Op::MoveNote { target, destination } ==> (resolve::resolved(
                m,
                ignored,
                target,
            ) matches Ok(from) ==> looked.contains(resolve::moved_to(from, destination)))
        }),
{
    reveal_strlit("/.gitkeep");
    reveal_strlit(".gitkeep");
    reveal_strlit("/");
    let looked = apply::create_paths(m, ignored, op);
    if looked.len() > 0 {
        assert(looked.contains(looked[0]));
    }
    if let Op::AddFolder { path } = op {
        assert(looked.contains(looked[1]));
        if path.len() > 0 {
            assert(looked[1] =~= resolve_laws::inside(path, ".gitkeep"@));
        }
    }
}

} // verus!
