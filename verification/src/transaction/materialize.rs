//! Writing the effects of a plan to disk: which paths are touched, and what is done at each.
//!
//! Only paths of the effects are touched. What somebody else created after the snapshot is
//! never removed or overwritten.

use crate::error;
use crate::error::{IoError, NbError, NbErrorView};
use crate::paths;
use crate::paths::{normalize_rel, Folder, Place};
use crate::text;
use crate::transaction::apply::{Effects, PlanEffects};
use crate::transaction::index;
use crate::transaction::index::is_index_rel;
use crate::transaction::tree;
use crate::transaction::tree::{refuse_symlink_ancestors, LinkState, Node, VirtualTree};
use vstd::prelude::*;

verus! {

/// A list holds the same texts as another, in ascending order and each once.
pub open spec fn sorted_of(v: Seq<Seq<char>>, items: Seq<Seq<char>>) -> bool {
    text::ascending(v) && forall|t: Seq<char>| #[trigger] v.contains(t) <==> items.contains(t)
}

/// The paths that are touched on disk, in the order in which they are.
#[derive(Debug)]
pub struct DiskPlan {
    pub removals: Vec<String>,
    pub folders: Vec<String>,
    pub writes: Vec<String>,
}

/// The paths that are touched are those of the effects, without index files among the
/// written ones.
pub open spec fn disk_plan_of(p: DiskPlan, e: Effects) -> bool {
    &&& sorted_of(text::texts(p.removals@), e.removed)
    &&& sorted_of(text::texts(p.folders@), e.mkdirs)
    &&& text::ascending(text::texts(p.writes@))
    &&& forall|t: Seq<char>| #[trigger]
        text::texts(p.writes@).contains(t) <==> e.written.contains(t) && !index::index_path(t)
}

/// The paths that the effects of a plan touch on disk. Index files are written separately.
pub fn disk_plan(effects: &PlanEffects) -> (r: DiskPlan)
    ensures
        disk_plan_of(r, effects@),
{
    let ghost all = text::texts(effects.written@);
    let mut files: Vec<String> = Vec::new();
    let mut i: usize = 0;
    assert(text::texts(files@) =~= Seq::<Seq<char>>::empty());
    while i < effects.written.len()
        invariant
            i <= effects.written.len(),
            all == text::texts(effects.written@),
            forall|t: Seq<char>| #[trigger]
                text::texts(files@).contains(t) <==> all.take(i as int).contains(t)
                    && !index::index_path(t),
        decreases effects.written.len() - i,
    {
        let ghost before = files@;
        let ghost item = all[i as int];
        assert(item == effects.written@[i as int]@);
        if !is_index_rel(effects.written[i].as_str()) {
            files.push(effects.written[i].clone());
        }
        proof {
            let old_list = text::texts(before);
            let new_list = text::texts(files@);
            let seen = all.take(i as int);
            let now = all.take(i + 1);
            assert(now =~= seen.push(item));
            if !index::index_path(item) {
                assert(new_list =~= old_list.push(item));
            }
            assert forall|t: Seq<char>| #[trigger] new_list.contains(t) <==> now.contains(t)
                && !index::index_path(t) by {
                if old_list.contains(t) {
                    let k = choose|k: int| 0 <= k < old_list.len() && old_list[k] == t;
                    assert(new_list[k] == t);
                }
                if seen.contains(t) {
                    let k = choose|k: int| 0 <= k < seen.len() && seen[k] == t;
                    assert(now[k] == t);
                }
                if now.contains(t) && t != item {
                    let k = choose|k: int| 0 <= k < now.len() && now[k] == t;
                    assert(seen[k] == t);
                }
                if t == item {
                    assert(now[i as int] == t);
                    if !index::index_path(item) {
                        assert(new_list[old_list.len() as int] == t);
                    }
                }
                if new_list.contains(t) && t != item {
                    let k = choose|k: int| 0 <= k < new_list.len() && new_list[k] == t;
                    assert(old_list[k] == t);
                }
            }
        }
        i += 1;
    }
    assert(all.take(all.len() as int) =~= all);
    assert(all.len() == effects.written@.len());
    DiskPlan {
        removals: text::sorted_unique(&effects.removed),
        folders: text::sorted_unique(&effects.mkdirs),
        writes: text::sorted_unique(&files),
    }
}

/// Nothing but the paths of the effects is touched, and no index file is written.
pub proof fn law_only_effects_are_touched(p: DiskPlan, e: Effects, k: int)
    requires
        disk_plan_of(p, e),
    ensures
        0 <= k < p.removals@.len() ==> e.removed.contains(p.removals@[k]@),
        0 <= k < p.folders@.len() ==> e.mkdirs.contains(p.folders@[k]@),
        0 <= k < p.writes@.len() ==> e.written.contains(p.writes@[k]@) && !index::index_path(
            p.writes@[k]@,
        ),
{
    if 0 <= k < p.removals@.len() {
        assert(text::texts(p.removals@)[k] == p.removals@[k]@);
        assert(text::texts(p.removals@).contains(p.removals@[k]@));
    }
    if 0 <= k < p.folders@.len() {
        assert(text::texts(p.folders@)[k] == p.folders@[k]@);
        assert(text::texts(p.folders@).contains(p.folders@[k]@));
    }
    if 0 <= k < p.writes@.len() {
        assert(text::texts(p.writes@)[k] == p.writes@[k]@);
        assert(text::texts(p.writes@).contains(p.writes@[k]@));
    }
}

/// What stands at a path, without following links.
#[derive(Debug, Clone)]
pub enum Found {
    Absent,
    Symlink,
    File,
    Folder,
    Other,
    Failed { source: IoError },
}

/// A look at a path: at each of its prefixes and at the path itself.
#[derive(Debug)]
pub struct Look {
    pub states: Vec<LinkState>,
    pub found: Found,
}

/// Whether a file that the plan removes is removed; it stays where the plan puts another one.
pub open spec fn removal(
    root: Place,
    m: Map<Seq<char>, Node>,
    rel: Seq<char>,
    found: Found,
) -> Result<bool, NbErrorView> {
    let key = paths::normalized(rel);
    match found {
        Found::Absent => Ok(false),
        Found::Failed { source } => Err(NbErrorView::Io { path: paths::path_below(root, key), source }),
        Found::Symlink => Err(
            NbErrorView::UnsupportedStructure {
                reason: "refusing to materialize through symlink `"@ + key + "`"@,
            },
        ),
        Found::File => Ok(!(m.dom().contains(key) && m[key] is File)),
        Found::Folder => Ok(false),
        Found::Other => Ok(false),
    }
}

/// Whether a file that the plan removes is removed.
pub fn decide_removal(root: &Folder, tree: &VirtualTree, rel: &str, found: &Found) -> (r: Result<
    bool,
    NbError,
>)
    ensures
        match r {
            Ok(yes) => removal(root@, tree@, rel@, *found) == Ok::<bool, NbErrorView>(yes),
            Err(e) => removal(root@, tree@, rel@, *found) == Err::<bool, NbErrorView>(e@),
        },
{
    let key = normalize_rel(rel);
    match found {
        Found::Absent => Ok(false),
        Found::Failed { source } => Err(
            NbError::Io { path: root.join(key.as_str()), source: source.clone() },
        ),
        Found::Symlink => Err(
            NbError::UnsupportedStructure {
                reason: text::cat3("refusing to materialize through symlink `", key.as_str(), "`"),
            },
        ),
        Found::File => Ok(tree.get_file(key.as_str()).is_none()),
        Found::Folder => Ok(false),
        Found::Other => Ok(false),
    }
}

/// Check that a folder can be made.
pub fn decide_folder(root: &Folder, rel: &str, states: &Vec<LinkState>) -> (r: Result<(), NbError>)
    ensures
        ({
            let refusal = tree::link_refusal(
                root@,
                tree::components(paths::normalized(rel@)),
                states@,
                0,
            );
            match r {
                Ok(()) => refusal is None,
                Err(e) => refusal == Some(e@),
            }
        }),
{
    let key = normalize_rel(rel);
    refuse_symlink_ancestors(root, key.as_str(), states)
}

/// What is written at a path, or the refusal: a path that the plan creates must not have
/// appeared since the snapshot.
pub open spec fn written_at(
    root: Place,
    m: Map<Seq<char>, Node>,
    created: Seq<Seq<char>>,
    snapshot: Seq<Seq<char>>,
    rel: Seq<char>,
    look: Look,
) -> Result<Seq<u8>, NbErrorView> {
    let key = paths::normalized(rel);
    if !(m.dom().contains(key) && m[key] is File) {
        Err(error::invalid("plan effect `"@ + key + "` has no file content"@))
    } else {
        match tree::link_refusal(root, tree::components(key), look.states@, 0) {
            Some(e) => Err(e),
            None => match look.found {
                Found::Symlink => Err(
                    NbErrorView::UnsupportedStructure {
                        reason: "refusing to write through symlink `"@ + key + "`"@,
                    },
                ),
                Found::Absent => Ok(m[key]->File_0),
                Found::Failed { .. } => Ok(m[key]->File_0),
                _ => if created.contains(rel) && !snapshot.contains(key) {
                    Err(NbErrorView::PathCollision { path: key, plan_index: None })
                } else {
                    Ok(m[key]->File_0)
                },
            },
        }
    }
}

/// What is written at a path.
pub fn decide_write(
    root: &Folder,
    tree: &VirtualTree,
    created: &Vec<String>,
    snapshot: &Vec<String>,
    rel: &str,
    look: &Look,
) -> (r: Result<Vec<u8>, NbError>)
    ensures
        crate::lines::bytes_agree(
            r,
            written_at(
                root@,
                tree@,
                text::texts(created@),
                text::texts(snapshot@),
                rel@,
                *look,
            ),
        ),
{
    let key = normalize_rel(rel);
    let content = match tree.get_file(key.as_str()) {
        Some(b) => vstd::slice::slice_to_vec(b.as_slice()),
        None => {
            let reason = text::cat3("plan effect `", key.as_str(), "` has no file content");
            return Err(NbError::invalid(reason.as_str()));
        },
    };
    match refuse_symlink_ancestors(root, key.as_str(), &look.states) {
        Ok(()) => {},
        Err(e) => {
            return Err(e);
        },
    }
    match &look.found {
        Found::Symlink => Err(
            NbError::UnsupportedStructure {
                reason: text::cat3("refusing to write through symlink `", key.as_str(), "`"),
            },
        ),
        Found::Absent => Ok(content),
        Found::Failed { .. } => Ok(content),
        _ => {
            if text::list_contains(created, rel) && !text::list_contains(snapshot, key.as_str()) {
                Err(NbError::PathCollision { path: key, plan_index: None })
            } else {
                Ok(content)
            }
        },
    }
}

/// What appeared at a path after the snapshot is never overwritten by a planned creation.
pub proof fn law_raced_creation_is_refused(
    root: Place,
    m: Map<Seq<char>, Node>,
    created: Seq<Seq<char>>,
    snapshot: Seq<Seq<char>>,
    rel: Seq<char>,
    look: Look,
)
    requires
        created.contains(rel),
        !snapshot.contains(paths::normalized(rel)),
        look.found is File || look.found is Folder || look.found is Symlink || look.found is Other,
    ensures
        written_at(root, m, created, snapshot, rel, look) is Err,
{
}

} // verus!
