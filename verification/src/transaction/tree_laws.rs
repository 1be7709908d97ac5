//! What a tree holds after entries were listed or created, which way leads back from a failed
//! commit, and how a way back that failed is reported.

use vstd::prelude::*;

use crate::error;
use crate::error::NbErrorView;
use crate::error_laws;
use crate::path_laws;
use crate::paths;
use crate::text;
use crate::text_laws;
use crate::transaction::name_laws;
use crate::transaction::restore;
use crate::transaction::restore::RestoreFindings;
use crate::transaction::tree;
use crate::transaction::tree::{DiskEntry, Node};

verus! {

/// Every text is a part that a path may have.
pub open spec fn all_parts(parts: Seq<Seq<char>>) -> bool {
    forall|k: int| 0 <= k < parts.len() ==> name_laws::part(#[trigger] parts[k])
}

proof fn lemma_slash()
    ensures
        "/"@ == seq!['/'],
{
    reveal_strlit("/");
    assert("/"@ =~= seq!['/']);
}

/// The components of a path are the parts between its slashes.
pub proof fn law_components_are_the_parts(parts: Seq<Seq<char>>)
    requires
        all_parts(parts),
        parts.len() > 0,
    ensures
        tree::components(name_laws::slashed(parts)) == parts,
{
    assert forall|k: int| 0 <= k < parts.len() implies !(#[trigger] parts[k]).contains('/') by {
        assert(name_laws::part(parts[k]));
    }
    text_laws::law_split_undoes_join(parts, '/');
    lemma_keeps_all(parts, |p: Seq<char>| p.len() > 0);
}

proof fn lemma_keeps_all(v: Seq<Seq<char>>, f: spec_fn(Seq<char>) -> bool)
    requires
        all_parts(v),
        forall|p: Seq<char>| name_laws::part(p) ==> #[trigger] f(p),
    ensures
        v.filter(f) == v,
    decreases v.len(),
{
    reveal(Seq::filter);
    if v.len() > 0 {
        let init = v.drop_last();
        assert forall|k: int| 0 <= k < init.len() implies name_laws::part(#[trigger] init[k]) by {
            assert(init[k] == v[k]);
        }
        lemma_keeps_all(init, f);
        assert(name_laws::part(v[v.len() - 1]));
        assert(init.push(v.last()) =~= v);
    } else {
        assert(v.filter(f) =~= v);
    }
}

proof fn lemma_folders(m: Map<Seq<char>, Node>, parts: Seq<Seq<char>>, n: int)
    requires
        0 <= n <= parts.len(),
    ensures
        ({
            let r = tree::folders_added(m, parts, n);
            &&& forall|p: Seq<char>|
                #[trigger] m.dom().contains(p) ==> r.dom().contains(p) && r[p] == m[p]
            &&& forall|p: Seq<char>| #[trigger]
                r.dom().contains(p) && !m.dom().contains(p) ==> r[p] == Node::Folder && exists|k: int|
                    1 <= k <= n && p == name_laws::slashed(#[trigger] parts.take(k))
            &&& forall|k: int|
                1 <= k <= n ==> r.dom().contains(name_laws::slashed(#[trigger] parts.take(k)))
        }),
    decreases n,
{
    lemma_slash();
    if n > 0 {
        lemma_folders(m, parts, n - 1);
        let before = tree::folders_added(m, parts, n - 1);
        let r = tree::folders_added(m, parts, n);
        let at = name_laws::slashed(parts.take(n));
        assert(at == tree::prefix_of(parts, n));
        assert forall|p: Seq<char>| #[trigger]
            r.dom().contains(p) && !m.dom().contains(p) implies r[p] == Node::Folder && exists|k: int|
            1 <= k <= n && p == name_laws::slashed(#[trigger] parts.take(k)) by {
            if p == at {
                assert(p == name_laws::slashed(parts.take(n)));
            } else {
                assert(before.dom().contains(p));
                let k = choose|k: int|
                    1 <= k <= n - 1 && p == name_laws::slashed(#[trigger] parts.take(k));
                assert(1 <= k <= n && p == name_laws::slashed(parts.take(k)));
            }
        }
        assert forall|k: int| 1 <= k <= n implies r.dom().contains(
            name_laws::slashed(#[trigger] parts.take(k)),
        ) by {
            if k < n {
                assert(before.dom().contains(name_laws::slashed(parts.take(k))));
            }
        }
    }
}

/// A folder is created with every folder above it. What is there already stays, and nothing
/// else comes in.
pub proof fn law_folder_comes_with_those_above(m: Map<Seq<char>, Node>, parts: Seq<Seq<char>>)
    requires
        all_parts(parts),
        parts.len() > 0,
    ensures
        ({
            let path = name_laws::slashed(parts);
            let r = tree::with_folder(m, path);
            &&& r[path] == Node::Folder
            &&& forall|k: int|
                1 <= k <= parts.len() ==> r.dom().contains(
                    name_laws::slashed(#[trigger] parts.take(k)),
                )
            &&& forall|p: Seq<char>|
                p != path && #[trigger] m.dom().contains(p) ==> r.dom().contains(p) && r[p] == m[p]
            &&& forall|p: Seq<char>| #[trigger]
                r.dom().contains(p) && !m.dom().contains(p) ==> r[p] == Node::Folder && exists|k: int|
                    1 <= k <= parts.len() && p == name_laws::slashed(#[trigger] parts.take(k))
        }),
{
    law_components_are_the_parts(parts);
    let n = parts.len() as int;
    lemma_folders(m, parts, n);
    assert(parts.take(n) =~= parts);
    assert(name_laws::slashed(parts.take(n)) == name_laws::slashed(parts));
}

/// The parent of a path is the path without its last part; a path of one part has none.
pub proof fn law_parent_drops_the_last_part(parts: Seq<Seq<char>>)
    requires
        all_parts(parts),
        parts.len() > 0,
    ensures
        paths::parent_folder(name_laws::slashed(parts)) == (if parts.len() == 1 {
            None
        } else {
            Some(name_laws::slashed(parts.drop_last()))
        }),
{
    lemma_slash();
    reveal_strlit(".");
    reveal_strlit("..");
    assert("."@ =~= seq!['.']);
    assert(".."@ =~= seq!['.', '.']);
    let name = parts.last();
    assert(name_laws::part(parts[parts.len() - 1]));
    if parts.len() == 1 {
        path_laws::law_file_name_is_the_final_component(seq!['a'], name);
        let e = Seq::<char>::empty();
        assert(paths::replace_char(e, '\\', '/') =~= e);
    } else {
        let init = parts.drop_last();
        assert forall|k: int| 0 <= k < init.len() implies name_laws::part(#[trigger] init[k]) by {
            assert(init[k] == parts[k]);
        }
        let folder = name_laws::slashed(init);
        lemma_ends(init);
        path_laws::law_file_name_is_the_final_component(folder, name);
        assert(name_laws::slashed(parts) == folder + "/"@ + name);
        assert(paths::replace_char(folder, '\\', '/') =~= folder) by {
            assert forall|k: int| 0 <= k < folder.len() implies folder[k] != '\\' by {
                if folder[k] == '\\' {
                    assert(folder.contains('\\'));
                }
            }
        }
    }
}

/// How a path of parts ends.
proof fn lemma_ends(parts: Seq<Seq<char>>)
    requires
        all_parts(parts),
        parts.len() > 0,
    ensures
        ({
            let p = name_laws::slashed(parts);
            &&& p.len() > 0
            &&& p.last() != '/'
            &&& !(p.len() > 1 && p.last() == '.' && p[p.len() - 2] == '/')
            &&& p != seq!['.']
            &&& !p.contains('\\')
        }),
{
    let p = name_laws::slashed(parts);
    name_laws::lemma_joined_ends(parts);
    let l = parts.last();
    assert(name_laws::part(parts[parts.len() - 1]));
    assert(name_laws::part(parts[0]));
    if l.last() == '/' {
        assert(l.contains('/'));
    }
    if parts.len() == 1 {
        if p.len() > 1 && p[p.len() - 2] == '/' {
            assert(l.contains('/'));
        }
    } else {
        let q = name_laws::slashed(parts.drop_last());
        assert(p == q + seq!['/'] + l);
        if l.len() == 1 {
            assert(l =~= seq![l.last()]);
        } else {
            assert(p[p.len() - 2] == l[l.len() - 2]);
            if l[l.len() - 2] == '/' {
                assert(l.contains('/'));
            }
        }
        assert(p.len() >= 2);
    }
}

/// A file is created with every folder above it, and holds its bytes. What is there already
/// stays, and nothing else comes in.
pub proof fn law_file_comes_with_its_folders(
    m: Map<Seq<char>, Node>,
    parts: Seq<Seq<char>>,
    bytes: Seq<u8>,
)
    requires
        all_parts(parts),
        parts.len() > 0,
    ensures
        ({
            let path = name_laws::slashed(parts);
            let r = tree::with_file(m, path, bytes);
            &&& r.dom().contains(path)
            &&& r[path] == Node::File(bytes)
            &&& forall|k: int|
                1 <= k < parts.len() ==> r.dom().contains(
                    name_laws::slashed(#[trigger] parts.take(k)),
                )
            &&& forall|p: Seq<char>|
                p != path && #[trigger] m.dom().contains(p) ==> r.dom().contains(p) && r[p] == m[p]
            &&& forall|p: Seq<char>| #[trigger]
                r.dom().contains(p) && !m.dom().contains(p) && p != path ==> r[p] == Node::Folder
                    && exists|k: int|
                    1 <= k < parts.len() && p == name_laws::slashed(#[trigger] parts.take(k))
        }),
{
    let path = name_laws::slashed(parts);
    let r = tree::with_file(m, path, bytes);
    law_parent_drops_the_last_part(parts);
    if parts.len() > 1 {
        let init = parts.drop_last();
        assert forall|k: int| 0 <= k < init.len() implies name_laws::part(#[trigger] init[k]) by {
            assert(init[k] == parts[k]);
        }
        law_components_are_the_parts(init);
        let n = init.len() as int;
        lemma_folders(m, init, n);
        assert forall|k: int| 1 <= k < parts.len() implies r.dom().contains(
            name_laws::slashed(#[trigger] parts.take(k)),
        ) by {
            assert(parts.take(k) =~= init.take(k));
        }
        assert forall|p: Seq<char>| #[trigger]
            r.dom().contains(p) && !m.dom().contains(p) && p != path implies r[p] == Node::Folder
            && exists|k: int|
            1 <= k < parts.len() && p == name_laws::slashed(#[trigger] parts.take(k)) by {
            let above = tree::folders_added(m, init, n);
            assert(above.dom().contains(p));
            let k = choose|k: int|
                1 <= k <= n && p == name_laws::slashed(#[trigger] init.take(k));
            assert(parts.take(k) =~= init.take(k));
        }
    }
}

/// A listed path, as it stands in the tree.
pub open spec fn key_of(v: Seq<DiskEntry>, i: int) -> Seq<char> {
    paths::normalized(v[i].rel@)
}

/// A listing without a symlink makes a tree.
pub proof fn law_listing_without_links_is_accepted(v: Seq<DiskEntry>, n: int)
    requires
        0 <= n <= v.len(),
        forall|j: int| 0 <= j < n ==> !((#[trigger] v[j]).kind is Symlink),
    ensures
        tree::snapshot(v, n) is Ok,
    decreases n,
{
    if n > 0 {
        law_listing_without_links_is_accepted(v, n - 1);
        assert(!(v[n - 1].kind is Symlink));
    }
}

/// A listed folder is in the tree, unless a later entry has the same path.
pub proof fn law_listed_folder_is_in_the_tree(v: Seq<DiskEntry>, n: int, i: int)
    requires
        0 <= i < n <= v.len(),
        v[i].kind is Folder,
        forall|j: int| i < j < n ==> #[trigger] key_of(v, j) != key_of(v, i),
        tree::snapshot(v, n) is Ok,
    ensures
        ({
            let m = tree::snapshot(v, n)->Ok_0;
            m.dom().contains(key_of(v, i)) && m[key_of(v, i)] == Node::Folder
        }),
    decreases n,
{
    if i < n - 1 {
        law_listed_folder_is_in_the_tree(v, n - 1, i);
        let m = tree::snapshot(v, n - 1)->Ok_0;
        assert(key_of(v, n - 1) != key_of(v, i));
        lemma_parents(m, key_of(v, n - 1));
    }
}

proof fn lemma_parents(m: Map<Seq<char>, Node>, path: Seq<char>)
    ensures
        ({
            let r = tree::with_parents(m, path);
            &&& forall|p: Seq<char>|
                #[trigger] m.dom().contains(p) ==> r.dom().contains(p) && r[p] == m[p]
            &&& forall|p: Seq<char>| #[trigger]
                r.dom().contains(p) && !m.dom().contains(p) ==> r[p] == Node::Folder
        }),
{
    if let Some(f) = paths::parent_folder(path) {
        let c = tree::components(f);
        lemma_folders(m, c, c.len() as int);
    }
}

/// Where nothing fails, the way back resets, makes the folders again, removes the outputs,
/// verifies the baseline and observes the worktree, in this order, and is over. A stage that
/// fails is followed by the observation alone.
pub proof fn law_way_back_takes_its_stages(f: RestoreFindings)
    ensures
        restore::stage_reached(f, 0) is Reset,
        f.reset_error is None ==> restore::stage_reached(f, 1) is Folders,
        f.reset_error is None && f.lost_folder is None ==> restore::stage_reached(f, 2) is Remove,
        f.reset_error is None && f.lost_folder is None && f.remaining@.len() == 0
            ==> restore::stage_reached(f, 3) is Verify && restore::stage_reached(f, 4) is Observe
            && restore::stage_reached(f, 5) is Over,
        f.reset_error is Some ==> restore::stage_reached(f, 1) is Observe
            && restore::stage_reached(f, 2) is Over,
        f.reset_error is None && f.lost_folder is Some ==> restore::stage_reached(f, 2) is Observe
            && restore::stage_reached(f, 3) is Over,
        f.reset_error is None && f.lost_folder is None && f.remaining@.len() > 0
            ==> restore::stage_reached(f, 3) is Observe && restore::stage_reached(f, 4) is Over,
{
    reveal_with_fuel(restore::stage_reached, 6);
}

/// A way back that did not reach the baseline is reported with the revision to go back to and
/// the status that was seen, and with what is left: every output of the plan where the reset
/// failed, the folder that was lost, the outputs that could not be removed, or those that are
/// still there. What went wrong is told.
pub proof fn law_failed_way_back_is_reported(
    pre: Seq<char>,
    owned: Seq<Seq<char>>,
    f: RestoreFindings,
)
    requires
        restore::verdict(pre, owned, f) is Some,
    ensures
        restore::verdict(pre, owned, f) matches Some(
            NbErrorView::RecoveryRequired {
                pre_revision,
                post_revision_observed,
                status_observed,
                preserved_paths,
                guidance,
            },
        ) && {
            &&& pre_revision == pre
            &&& status_observed == error::opt_text(f.observed_status)
            &&& f.reset_error matches Some(e) ==> preserved_paths == Some(owned)
                && post_revision_observed == error::opt_text(f.observed_head) && error_laws::tells(
                guidance,
                error::message(e@),
            )
            &&& f.reset_error is None ==> (f.lost_folder matches Some(lost) ==> preserved_paths
                == Some(seq![lost.0@]) && post_revision_observed == error::opt_text(f.observed_head)
                && error_laws::tells(guidance, lost.0@) && error_laws::tells(guidance, lost.1@))
            &&& f.reset_error is None && f.lost_folder is None && f.remaining@.len() > 0
                ==> preserved_paths == Some(text::texts(f.remaining@)) && post_revision_observed
                == error::opt_text(f.observed_head)
            &&& f.reset_error is None && f.lost_folder is None && f.remaining@.len() == 0 ==> {
                &&& f.still_present@.len() > 0 ==> preserved_paths == Some(
                    text::texts(f.still_present@),
                )
                &&& f.still_present@.len() == 0 ==> preserved_paths is None
                &&& f.head matches Ok(h) ==> post_revision_observed == Some(h@)
                &&& f.head matches Err(e) ==> error_laws::tells(guidance, error::message(e@))
                &&& f.head is Ok ==> (f.dirty matches Err(e) ==> error_laws::tells(
                    guidance,
                    error::message(e@),
                ))
            }
        },
{
    error_laws::lemma_tells();
    assert(text::texts(f.still_present@).len() == f.still_present@.len());
}

} // verus!
