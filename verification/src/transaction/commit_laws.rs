//! How a plan is run, written and undone.

use vstd::prelude::*;

use crate::error::NbErrorView;
use crate::path_laws;
use crate::paths;
use crate::paths::Place;
use crate::text;
use crate::text_laws;
use crate::transaction::apply;
use crate::transaction::apply::{Effects, Meta, PathProbe};
use crate::transaction::commit;
use crate::transaction::commit::{Ready, Run};
use crate::transaction::lock;
use crate::transaction::lock::LockLook;
use crate::transaction::materialize;
use crate::transaction::materialize::{DiskPlan, Found, Look};
use crate::transaction::restore;
use crate::transaction::restore::Cleanup;
use crate::transaction::tree;
use crate::transaction::tree::{DiskEntry, DiskKind, LinkState, Node};

verus! {

/// A plan runs in order: each step applies the first operation that has no report yet to what
/// the steps before it left, and adds its report behind theirs; the plan itself stays.
pub proof fn law_plan_runs_in_order(run: Run, probes: Seq<PathProbe>)
    ensures
        ({
            let n = run.metas.len() as int;
            let one = apply::applied(commit::scene_of(run, probes), run.plan.plan[n]);
            &&& commit::stepped(run, probes) is Ok <==> one is Ok
            &&& commit::stepped(run, probes) matches Ok(x) ==> {
                &&& x.tree == one->Ok_0.tree
                &&& x.effects == one->Ok_0.effects
                &&& x.metas.len() == n + 1
                &&& x.metas.take(n) == run.metas
                &&& x.metas[n] == one->Ok_0.meta
                &&& x.plan == run.plan
                &&& x.ignored == run.ignored
            }
        }),
        ({
            let s = commit::scene_of(run, probes);
            &&& s.tree == run.tree
            &&& s.effects == run.effects
            &&& s.ignored == run.ignored
            &&& s.notebook == run.plan.notebook
            &&& s.probes == probes
        }),
{
    let n = run.metas.len() as int;
    if let Ok(x) = commit::stepped(run, probes) {
        assert(x.metas.take(n) =~= run.metas);
    }
}

/// The refusal of an operation tells its number where it has a place for it, and says what it
/// said; a refusal without such a place, that is not one of those a caller acts on, is told as
/// the failure of the operation with that number.
pub proof fn law_refusal_tells_the_operation(e: NbErrorView, n: u32)
    ensures
        e matches NbErrorView::PathCollision { path, plan_index } ==> apply::annotated(e, n)
            == (NbErrorView::PathCollision { path, plan_index: Some(n) }),
        e matches NbErrorView::PathIgnored { path, guidance, plan_index } ==> apply::annotated(e, n)
            == (NbErrorView::PathIgnored { path, guidance, plan_index: Some(n) }),
        e is FingerprintMismatch || e is AnchorMismatch || e is OccurrenceMismatch
            || e is OverlappingEdits || e is FragmentedBody || e is EmptySubstringPattern
            || e is NotFound || e is UnsupportedStructure ==> apply::annotated(e, n) == e,
        !(e is PathCollision || e is PathIgnored || e is FingerprintMismatch || e is AnchorMismatch
            || e is OccurrenceMismatch || e is OverlappingEdits || e is FragmentedBody
            || e is EmptySubstringPattern || e is NotFound || e is UnsupportedStructure) ==> (
        apply::annotated(e, n) matches NbErrorView::PlanValidation { kind, message, plan_index }
            && plan_index == Some(n)),
{
}

/// The index edits of a plan are those of its operations, one after the other, each with the
/// number of its operation.
pub proof fn law_edits_keep_their_operation(v: Seq<Meta>, n: int, k: int)
    requires
        0 <= n <= v.len() <= u32::MAX,
        0 <= k < commit::edits_of(v, n).len(),
    ensures
        commit::edit_ops(v, n).len() == commit::edits_of(v, n).len(),
        ({
            let op = commit::edit_ops(v, n)[k];
            &&& 0 <= op < n
            &&& v[op as int].index_edits.contains(commit::edits_of(v, n)[k])
        }),
    decreases n,
{
    if n > 0 {
        let before = commit::edits_of(v, n - 1);
        lemma_ops_length(v, n - 1);
        if k < before.len() {
            law_edits_keep_their_operation(v, n - 1, k);
        } else {
            let i = k - before.len();
            assert(commit::edits_of(v, n)[k] == v[n - 1].index_edits[i]);
            assert(commit::edit_ops(v, n)[k] == (n - 1) as u32);
        }
    }
}

proof fn lemma_ops_length(v: Seq<Meta>, n: int)
    requires
        0 <= n <= v.len(),
    ensures
        commit::edit_ops(v, n).len() == commit::edits_of(v, n).len(),
    decreases n,
{
    if n > 0 {
        lemma_ops_length(v, n - 1);
    }
}

/// Every index edit of every operation is made.
pub proof fn law_every_edit_is_made(v: Seq<Meta>, n: int, i: int, j: int)
    requires
        0 <= i < n <= v.len(),
        0 <= j < v[i].index_edits.len(),
    ensures
        commit::edits_of(v, n).contains(v[i].index_edits[j]),
    decreases n,
{
    let before = commit::edits_of(v, n - 1);
    let all = commit::edits_of(v, n);
    if i < n - 1 {
        law_every_edit_is_made(v, n - 1, i, j);
        let k = choose|k: int| 0 <= k < before.len() && before[k] == v[i].index_edits[j];
        assert(all[k] == before[k]);
    } else {
        assert(all[before.len() + j] == v[i].index_edits[j]);
    }
}

/// What a failed plan may have written is removed: exactly the paths that it stages and that
/// were not there before.
pub proof fn law_new_outputs_are_owned(r: Ready, path: Seq<char>)
    ensures
        commit::owned_outputs(r).contains(path) <==> r.force_paths.contains(path)
            && !r.baseline.contains(path) && !r.folders.contains(path),
{
    lemma_in_neither(r.force_paths, r.baseline, r.folders, r.force_paths.len() as int, path);
    let n = r.force_paths.len() as int;
    assert(r.force_paths.take(n) =~= r.force_paths);
}

proof fn lemma_in_neither(
    v: Seq<Seq<char>>,
    a: Seq<Seq<char>>,
    b: Seq<Seq<char>>,
    n: int,
    path: Seq<char>,
)
    requires
        0 <= n <= v.len(),
    ensures
        commit::in_neither(v, a, b, n).contains(path) <==> v.take(n).contains(path)
            && !a.contains(path) && !b.contains(path),
    decreases n,
{
    let now = commit::in_neither(v, a, b, n);
    if n > 0 {
        lemma_in_neither(v, a, b, n - 1, path);
        let before = commit::in_neither(v, a, b, n - 1);
        let x = v[n - 1];
        let early = v.take(n - 1);
        let most = v.take(n);
        if early.contains(path) {
            let k = choose|k: int| 0 <= k < early.len() && early[k] == path;
            assert(most[k] == path);
        }
        if most.contains(path) {
            let k = choose|k: int| 0 <= k < most.len() && most[k] == path;
            if k < n - 1 {
                assert(early[k] == path);
            }
        }
        if x == path {
            assert(most[n - 1] == path);
        }
        if !a.contains(x) && !b.contains(x) {
            if before.contains(path) {
                let k = choose|k: int| 0 <= k < before.len() && before[k] == path;
                assert(now[k] == path);
            }
            if x == path {
                assert(now[before.len() as int] == path);
            }
            if now.contains(path) {
                let k = choose|k: int| 0 <= k < now.len() && now[k] == path;
                if k < before.len() {
                    assert(before[k] == path);
                }
            }
        }
    }
}

/// Every effect of a plan is carried out on disk: what it removes is looked at for removal,
/// each folder is made, and each file is written, but that index files are edited in place.
pub proof fn law_every_effect_is_carried_out(p: DiskPlan, e: Effects, path: Seq<char>)
    requires
        materialize::disk_plan_of(p, e),
    ensures
        e.removed.contains(path) ==> text::texts(p.removals@).contains(path),
        e.mkdirs.contains(path) ==> text::texts(p.folders@).contains(path),
        e.written.contains(path) && path != ".index"@ && !"/.index"@.is_suffix_of(path)
            ==> text::texts(p.writes@).contains(path),
{
}

/// What is written at a path are the bytes that the plan has there, unless a link is in the way
/// or somebody else created the path meanwhile.
pub proof fn law_planned_bytes_are_written(
    root: Place,
    m: Map<Seq<char>, Node>,
    created: Seq<Seq<char>>,
    snapshot: Seq<Seq<char>>,
    path: Seq<char>,
    content: Seq<u8>,
    look: Look,
)
    requires
        path_laws::plain(path),
        m.dom().contains(path),
        m[path] == Node::File(content),
        tree::link_refusal(root, tree::components(path), look.states@, 0) is None,
    ensures
        look.found is Absent ==> materialize::written_at(root, m, created, snapshot, path, look)
            == Ok::<Seq<u8>, NbErrorView>(content),
        look.found is File && snapshot.contains(path) ==> materialize::written_at(
            root,
            m,
            created,
            snapshot,
            path,
            look,
        ) == Ok::<Seq<u8>, NbErrorView>(content),
        look.found is File && !created.contains(path) ==> materialize::written_at(
            root,
            m,
            created,
            snapshot,
            path,
            look,
        ) == Ok::<Seq<u8>, NbErrorView>(content),
        look.found is Symlink ==> materialize::written_at(root, m, created, snapshot, path, look)
            is Err,
        materialize::written_at(root, m, created, snapshot, path, look) matches Ok(b) ==> b
            == content,
{
    let none = Seq::<char>::empty();
    path_laws::law_normalizing_strips(none, 0, path, 0, none);
}

/// A file that the plan removes is removed where it stands and the plan puts no other in its
/// place; a folder is never removed, and a link is refused.
pub proof fn law_removed_file_is_removed(
    root: Place,
    m: Map<Seq<char>, Node>,
    path: Seq<char>,
)
    requires
        path_laws::plain(path),
    ensures
        !m.dom().contains(path) ==> materialize::removal(root, m, path, Found::File) == Ok::<
            bool,
            NbErrorView,
        >(true),
        m.dom().contains(path) && m[path] is File ==> materialize::removal(
            root,
            m,
            path,
            Found::File,
        ) == Ok::<bool, NbErrorView>(false),
        materialize::removal(root, m, path, Found::Folder) == Ok::<bool, NbErrorView>(false),
        materialize::removal(root, m, path, Found::Absent) == Ok::<bool, NbErrorView>(false),
        materialize::removal(root, m, path, Found::Symlink) is Err,
{
    let none = Seq::<char>::empty();
    path_laws::law_normalizing_strips(none, 0, path, 0, none);
}

/// A symlink on the way to a path is refused, when every prefix before it is there; a way
/// without links is not, whether it is there to its end or ends before.
pub proof fn law_links_on_the_way_are_refused(
    root: Place,
    parts: Seq<Seq<char>>,
    states: Seq<LinkState>,
    i: int,
    k: int,
)
    requires
        0 <= i <= k <= states.len() <= parts.len(),
        forall|j: int| i <= j < k ==> (#[trigger] states[j]) is Present,
    ensures
        k < states.len() && states[k] is Symlink ==> (tree::link_refusal(root, parts, states, i)
            matches Some(NbErrorView::UnsupportedStructure { reason })),
        k == states.len() || states[k] is Absent ==> tree::link_refusal(root, parts, states, i)
            is None,
        k < states.len() && states[k] is Failed ==> (tree::link_refusal(root, parts, states, i)
            matches Some(NbErrorView::Io { path, source }) && source == states[k]->Failed_source
            && path == paths::path_below(root, text::join(parts.take(k + 1), seq!['/']))),
    decreases k - i,
{
    reveal_strlit("/");
    assert("/"@ =~= seq!['/']);
    if i < k {
        assert(states[i] is Present);
        law_links_on_the_way_are_refused(root, parts, states, i + 1, k);
    }
}

/// The prefixes of a path end with each of its parts in turn, the last being the path itself.
pub proof fn law_prefixes_grow_part_by_part(parts: Seq<Seq<char>>, k: int)
    requires
        0 <= k < parts.len(),
        forall|i: int|
            0 <= i < parts.len() ==> (#[trigger] parts[i]).len() > 0 && !parts[i].contains('/'),
    ensures
        ({
            let path = text::join(parts, seq!['/']);
            &&& tree::components(path) == parts
            &&& tree::prefixes(path).len() == parts.len()
            &&& tree::prefixes(path)[k] == text::join(parts.take(k + 1), seq!['/'])
            &&& tree::prefixes(path).last() == path
        }),
{
    reveal_strlit("/");
    assert("/"@ =~= seq!['/']);
    let path = text::join(parts, seq!['/']);
    assert forall|i: int| 0 <= i < parts.len() implies !(#[trigger] parts[i]).contains('/') by {}
    text_laws::law_split_undoes_join(parts, '/');
    let p = |p: Seq<char>| p.len() > 0;
    lemma_filter_keeps_all(parts, p);
    assert(parts.take(parts.len() as int) =~= parts);
}

proof fn lemma_filter_keeps_all(v: Seq<Seq<char>>, p: spec_fn(Seq<char>) -> bool)
    requires
        forall|i: int| 0 <= i < v.len() ==> p(#[trigger] v[i]),
    ensures
        v.filter(p) == v,
    decreases v.len(),
{
    reveal(Seq::filter);
    if v.len() > 0 {
        let init = v.drop_last();
        assert forall|i: int| 0 <= i < init.len() implies p(#[trigger] init[i]) by {
            assert(init[i] == v[i]);
        }
        lemma_filter_keeps_all(init, p);
        assert(p(v[v.len() - 1]));
        assert(init.push(v.last()) =~= v);
    }
}

/// A snapshot holds each listed file with its bytes, where nothing listed behind it has the
/// same path, and it holds no other file.
pub proof fn law_snapshot_holds_the_files(v: Seq<DiskEntry>, n: int, k: int)
    requires
        0 <= k < n <= v.len(),
        tree::snapshot(v, n) is Ok,
        v[k].kind is File,
        forall|j: int|
            k < j < n ==> paths::normalized((#[trigger] v[j]).rel@) != paths::normalized(
                v[k].rel@,
            ),
    ensures
        ({
            let m = tree::snapshot(v, n)->Ok_0;
            let key = paths::normalized(v[k].rel@);
            m.dom().contains(key) && m[key] == Node::File(v[k].kind->bytes@)
        }),
    decreases n,
{
    let key = paths::normalized(v[k].rel@);
    let m = tree::snapshot(v, n - 1)->Ok_0;
    if k < n - 1 {
        law_snapshot_holds_the_files(v, n - 1, k);
        let last = paths::normalized(v[n - 1].rel@);
        assert(last != key);
        tree::lemma_with_parents(m, last, key);
    }
}

/// Every file of a snapshot was listed.
pub proof fn law_snapshot_holds_only_listed_files(v: Seq<DiskEntry>, n: int, path: Seq<char>)
    requires
        0 <= n <= v.len(),
        tree::snapshot(v, n) is Ok,
        tree::snapshot(v, n)->Ok_0.dom().contains(path),
        tree::snapshot(v, n)->Ok_0[path] is File,
    ensures
        exists|k: int|
            0 <= k < n && (#[trigger] v[k]).kind is File && paths::normalized(v[k].rel@) == path
                && tree::snapshot(v, n)->Ok_0[path] == Node::File(v[k].kind->bytes@),
    decreases n,
{
    if n > 0 {
        let m = tree::snapshot(v, n - 1)->Ok_0;
        let last = paths::normalized(v[n - 1].rel@);
        tree::lemma_with_parents(m, last, path);
        if v[n - 1].kind is File && last == path {
            assert(tree::snapshot(v, n)->Ok_0[path] == Node::File(v[n - 1].kind->bytes@));
        } else {
            law_snapshot_holds_only_listed_files(v, n - 1, path);
        }
    }
}

/// A symlink among the listed entries refuses the snapshot.
pub proof fn law_listed_symlink_is_refused(v: Seq<DiskEntry>, n: int, k: int)
    requires
        0 <= k < n <= v.len(),
        v[k].kind is Symlink,
    ensures
        tree::snapshot(v, n) is Err,
    decreases n,
{
    if k < n - 1 {
        law_listed_symlink_is_refused(v, n - 1, k);
    }
}

/// On the way back, the folders above an output may be removed from the nearest up, and none
/// from the first that was there before.
pub proof fn law_new_folders_may_be_pruned(
    folder: Seq<char>,
    name: Seq<char>,
    baseline: Seq<Seq<char>>,
)
    requires
        path_laws::plain(folder),
        path_laws::component(name),
        !(folder.len() > 1 && folder.last() == '.' && folder[folder.len() - 2] == '/'),
        folder != "."@,
    ensures
        paths::parent_folder(folder + "/"@ + name) == Some(folder),
        baseline.contains(folder) ==> restore::prunable_from(
            paths::parent_folder(folder + "/"@ + name),
            baseline,
        ).len() == 0,
        !baseline.contains(folder) ==> restore::prunable_from(
            paths::parent_folder(folder + "/"@ + name),
            baseline,
        ) == seq![folder] + restore::prunable_from(paths::parent_folder(folder), baseline),
{
    path_laws::law_file_name_is_the_final_component(folder, name);
    let q = paths::replace_char(folder, '\\', '/');
    assert forall|k: int| 0 <= k < folder.len() implies q[k] == folder[k] by {
        if folder[k] == '\\' {
            assert(folder.contains('\\'));
        }
    }
    assert(q =~= folder);
    restore::lemma_parent_is_shorter(folder);
}

/// A file or a link that a failed plan left is removed as a file, a folder as a folder, and
/// nothing is removed where nothing of that is there.
pub proof fn law_cleanup_fits_what_is_there(found: Found)
    ensures
        found is File || found is Symlink <==> restore::cleanup_of(found) == Cleanup::RemoveFile,
        found is Folder <==> restore::cleanup_of(found) == Cleanup::RemoveFolder,
        found is Failed <==> restore::cleanup_of(found) == Cleanup::Report,
{
}

/// A lock that is old and stays as it is between the looks may be removed.
pub proof fn law_dead_lock_may_be_removed(content: Seq<char>, older: Option<bool>)
    requires
        older != Some(false),
    ensures
        lock::second_look_of(Some(content), Some(content), older) == LockLook::Old,
        lock::second_look_of(None, None, older) == LockLook::Gone,
{
}

/// A lock belongs to the holder of its text, whatever white space stands behind it, and to
/// nobody else.
pub proof fn law_lock_belongs_to_its_text(nonce: Seq<char>, other: Seq<char>, behind: Seq<char>)
    requires
        text_laws::bare(nonce),
        nonce.len() > 0,
        text_laws::blank(behind),
        other != nonce,
    ensures
        lock::owned_by(Some(nonce + behind), nonce),
        !lock::owned_by(Some(nonce + behind), other),
        !lock::owned_by(None, nonce),
{
    let none = Seq::<char>::empty();
    text_laws::law_trimming_takes_white_space(none, nonce, behind);
    assert(none + nonce + behind =~= nonce + behind);
    assert(none + nonce =~= nonce);
}

/// A holder renews its lock at least three times in the timeout, as far as that is neither more
/// often than every five milliseconds nor less often than every thirty seconds.
pub proof fn law_lock_is_renewed_in_time(timeout_ms: u64)
    ensures
        5_000_000 <= lock::heartbeat(timeout_ms) <= 30_000_000_000,
        timeout_ms >= 15 ==> 3 * lock::heartbeat(timeout_ms) <= timeout_ms * 1_000_000,
        15 <= timeout_ms <= 90_000 ==> timeout_ms * 1_000_000 < 3 * (lock::heartbeat(timeout_ms)
            + 1),
{
}

} // verus!
