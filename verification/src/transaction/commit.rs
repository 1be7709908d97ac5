//! The course of a commit: the baseline, the whole plan applied in memory, one write to disk,
//! one checkpoint, and what is reported.
//!
//! Each stage is a type of its own, so that nothing is written before every operation of the
//! plan has been applied in memory.

use crate::error;
use crate::error::{NbError, NbErrorView};
use crate::paths;
use crate::paths::{normalize_rel, split_folder_basename, Folder, Place};
use crate::text;
use crate::transaction::apply;
use crate::transaction::apply::{
    annotate_plan_index, paths_to_probe, validate_and_apply_virtual, Effects, Meta, OpMeta,
    PathProbe, PlanEffects, PlanState, Scene, Surroundings,
};
use crate::transaction::index;
use crate::transaction::index::{
    index_id, numeric_selector, IndexEdit, IndexPlacement, PendingIndexEdit, Placement,
};
use crate::transaction::plan::{Planned, Transaction};
use crate::transaction::tree;
use crate::transaction::tree::{DiskEntry, Node, VirtualTree};
use crate::types;
use crate::types::{CommitOutcome, Committed, OpOutcome, Outcome};
use vstd::prelude::*;

verus! {

/// Refuse a notebook with uncommitted changes.
pub fn check_baseline(dirty: bool) -> (r: Result<(), NbError>)
    ensures
        match r {
            Ok(()) => !dirty,
            Err(e) => dirty && e@ == (NbErrorView::DirtyBaseline {
                guidance:
                    "commit or clean the notebook worktree/index before Transaction::commit"@,
            }),
        },
{
    if dirty {
        return Err(
            NbError::DirtyBaseline {
                guidance:
                    "commit or clean the notebook worktree/index before Transaction::commit".to_string(),
            },
        );
    }
    Ok(())
}

/// A transaction on a clean notebook, before its snapshot.
#[derive(Debug)]
pub struct Opening {
    txn: Transaction,
    root: Folder,
    pre_revision: String,
}

/// The model of an [`Opening`].
pub struct Opened {
    pub plan: Planned,
    pub root: Place,
    pub pre_revision: Seq<char>,
}

impl View for Opening {
    type V = Opened;

    closed spec fn view(&self) -> Opened {
        Opened { plan: self.txn@, root: self.root@, pre_revision: self.pre_revision@ }
    }
}

/// How a commit begins.
#[derive(Debug)]
pub enum Begun {
    /// The plan is empty: there is nothing to do.
    Finished(CommitOutcome),
    Planning(Opening),
}

/// Begin a commit at a revision.
pub fn begin(txn: Transaction, root: Folder, head: &str) -> (r: Begun)
    ensures
        match r {
            Begun::Finished(o) => txn@.plan.len() == 0 && o@ == (Committed {
                commit_created: false,
                revision_id: None,
                pre_revision: head@,
                ops: Seq::empty(),
            }),
            Begun::Planning(o) => txn@.plan.len() > 0 && o@ == (Opened {
                plan: txn@,
                root: root@,
                pre_revision: head@,
            }),
        },
{
    if txn.len() == 0 {
        let none: Vec<OpOutcome> = Vec::new();
        assert(types::outcomes(none@) =~= Seq::<Outcome>::empty());
        return Begun::Finished(
            CommitOutcome {
                commit_created: false,
                revision_id: None,
                pre_revision: head.to_string(),
                ops: none,
            },
        );
    }
    Begun::Planning(Opening { txn, root, pre_revision: head.to_string() })
}

/// Notebook-relative forms of listed paths.
pub open spec fn normalized_all(v: Seq<Seq<char>>) -> Seq<Seq<char>> {
    v.map_values(|p: Seq<char>| paths::normalized(p))
}

/// Notebook-relative forms of listed paths.
fn normalize_all(v: &Vec<String>) -> (r: Vec<String>)
    ensures
        text::texts(r@) == normalized_all(text::texts(v@)),
{
    let mut out: Vec<String> = Vec::new();
    let mut i: usize = 0;
    while i < v.len()
        invariant
            i <= v.len(),
            out@.len() == i,
            forall|k: int| 0 <= k < i ==> (#[trigger] out@[k])@ == paths::normalized(v@[k]@),
        decreases v.len() - i,
    {
        out.push(normalize_rel(v[i].as_str()));
        i += 1;
    }
    assert(text::texts(out@) =~= normalized_all(text::texts(v@)));
    out
}

/// A list holds the paths of a tree, each once.
pub open spec fn lists_tree(v: Seq<Seq<char>>, m: Map<Seq<char>, Node>) -> bool {
    &&& v.no_duplicates()
    &&& forall|p: Seq<char>| #[trigger] v.contains(p) <==> m.dom().contains(p)
}

/// The paths of a tree.
fn tree_paths(tree: &VirtualTree) -> (r: Vec<String>)
    ensures
        lists_tree(text::texts(r@), tree@),
{
    let n: usize = tree.len();
    let mut out: Vec<String> = Vec::new();
    let mut i: usize = 0;
    while i < n
        invariant
            i <= n,
            n == tree.count(),
            out@.len() == i,
            forall|k: int| 0 <= k < i ==> (#[trigger] out@[k])@ == tree.path_at(k),
        decreases n - i,
    {
        out.push(tree.path(i).to_string());
        i += 1;
    }
    proof {
        let v = text::texts(out@);
        assert forall|k: int| 0 <= k < v.len() implies v[k] == tree.path_at(k) by {
            assert(v[k] == out@[k]@);
        }
        assert forall|p: Seq<char>| #[trigger] v.contains(p) <==> tree@.dom().contains(p) by {
            if tree@.dom().contains(p) {
                let k = choose|k: int| 0 <= k < tree.count() && #[trigger] tree.path_at(k) == p;
                assert(v[k] == p);
            }
            if v.contains(p) {
                let k = choose|k: int| 0 <= k < v.len() && v[k] == p;
                assert(tree.path_at(k) == p);
            }
        }
        assert forall|a: int, b: int| 0 <= a < v.len() && 0 <= b < v.len() && a != b implies v[a]
            != v[b] by {
            if a < b {
                assert(tree.path_at(a) != tree.path_at(b));
            } else {
                assert(tree.path_at(b) != tree.path_at(a));
            }
        }
    }
    out
}

/// A plan that is being applied in memory.
#[derive(Debug)]
pub struct PlanRun {
    txn: Transaction,
    at: Surroundings,
    pre_revision: String,
    snapshot: Vec<String>,
    state: PlanState,
    metas: Vec<OpMeta>,
}

/// The model of a [`PlanRun`].
pub struct Run {
    pub plan: Planned,
    pub root: Place,
    pub ignored: Seq<Seq<char>>,
    pub pre_revision: Seq<char>,
    /// The paths that were on disk at the snapshot.
    pub snapshot: Seq<Seq<char>>,
    pub tree: Map<Seq<char>, Node>,
    pub effects: Effects,
    /// The reports of the operations that have been applied.
    pub metas: Seq<Meta>,
}

impl View for PlanRun {
    type V = Run;

    closed spec fn view(&self) -> Run {
        Run {
            plan: self.txn@,
            root: self.at.root@,
            ignored: text::texts(self.at.ignored@),
            pre_revision: self.pre_revision@,
            snapshot: text::texts(self.snapshot@),
            tree: self.state.tree@,
            effects: self.state.effects@,
            metas: apply::metas(self.metas@),
        }
    }
}

impl Opening {
    /// Take the snapshot: what is on disk, and which of it Git ignores.
    pub fn snapshot(self, ignored: &Vec<String>, entries: &Vec<DiskEntry>) -> (r: Result<
        PlanRun,
        NbError,
    >)
        ensures
            match r {
                Ok(run) => tree::snapshot(entries@, entries@.len() as int) == Ok::<
                    Map<Seq<char>, Node>,
                    NbErrorView,
                >(run@.tree) && lists_tree(run@.snapshot, run@.tree) && run@ == (Run {
                    plan: self@.plan,
                    root: self@.root,
                    ignored: normalized_all(text::texts(ignored@)),
                    pre_revision: self@.pre_revision,
                    snapshot: run@.snapshot,
                    tree: run@.tree,
                    effects: apply::no_effects(),
                    metas: Seq::empty(),
                }),
                Err(e) => tree::snapshot(entries@, entries@.len() as int) == Err::<
                    Map<Seq<char>, Node>,
                    NbErrorView,
                >(e@),
            },
    {
        let tree = match VirtualTree::from_entries(entries) {
            Ok(t) => t,
            Err(e) => {
                return Err(e);
            },
        };
        let snapshot = tree_paths(&tree);
        let at = Surroundings {
            notebook: self.txn.notebook().to_string(),
            root: self.root,
            ignored: normalize_all(ignored),
        };
        let metas: Vec<OpMeta> = Vec::new();
        assert(apply::metas(metas@) =~= Seq::<Meta>::empty());
        Ok(
            PlanRun {
                txn: self.txn,
                at,
                pre_revision: self.pre_revision,
                snapshot,
                state: PlanState { tree, effects: PlanEffects::new() },
                metas,
            },
        )
    }
}

/// What the next operation of a run sees.
pub open spec fn scene_of(run: Run, probes: Seq<PathProbe>) -> Scene {
    Scene {
        notebook: run.plan.notebook,
        root: run.root,
        tree: run.tree,
        ignored: run.ignored,
        probes,
        effects: run.effects,
    }
}

/// A run after its next operation, or the refusal with the number of the operation.
pub open spec fn stepped(run: Run, probes: Seq<PathProbe>) -> Result<Run, NbErrorView> {
    let n = run.metas.len() as int;
    match apply::applied(scene_of(run, probes), run.plan.plan[n]) {
        Err(e) => Err(apply::annotated(e, n as u32)),
        Ok(x) => Ok(
            Run { tree: x.tree, effects: x.effects, metas: run.metas.push(x.meta), ..run },
        ),
    }
}

impl PlanRun {
    /// No more operations have been applied than there are, and they belong to the notebook
    /// of the plan.
    #[verifier::type_invariant]
    spec fn sound(self) -> bool {
        self.metas@.len() <= self.txn@.plan.len() && self.at.notebook@ == self.txn@.notebook
    }

    /// Whether every operation has been applied.
    pub fn is_complete(&self) -> (r: bool)
        ensures
            r == (self@.metas.len() == self@.plan.plan.len()),
            self@.metas.len() <= self@.plan.plan.len(),
    {
        proof {
            use_type_invariant(self);
        }
        self.metas.len() == self.txn.len()
    }

    /// The paths whose prefixes have to be looked at before the next operation.
    pub fn next_probes(&self) -> (r: Vec<String>)
        ensures
            text::texts(r@) == (if self@.metas.len() < self@.plan.plan.len() {
                apply::create_paths(
                    self@.tree,
                    self@.ignored,
                    self@.plan.plan[self@.metas.len() as int],
                )
            } else {
                Seq::empty()
            }),
    {
        if self.metas.len() < self.txn.len() {
            paths_to_probe(&self.state.tree, &self.at.ignored, self.txn.op(self.metas.len()))
        } else {
            let none: Vec<String> = Vec::new();
            assert(text::texts(none@) =~= Seq::<Seq<char>>::empty());
            none
        }
    }

    /// Apply the next operation in memory.
    pub fn step(self, probes: &Vec<PathProbe>) -> (r: Result<Self, NbError>)
        requires
            self@.metas.len() < self@.plan.plan.len(),
        ensures
            match r {
                Ok(run) => stepped(self@, probes@) == Ok::<Run, NbErrorView>(run@),
                Err(e) => stepped(self@, probes@) == Err::<Run, NbErrorView>(e@),
            },
    {
        proof {
            use_type_invariant(&self);
        }
        let ghost before = self@;
        let PlanRun { txn, at, pre_revision, snapshot, mut state, mut metas } = self;
        let n: usize = metas.len();
        let ghost old_state = state;
        match validate_and_apply_virtual(&at, &mut state, probes, txn.op(n)) {
            Ok(meta) => {
                let ghost m = metas@;
                metas.push(meta);
                assert(apply::metas(metas@) =~= apply::metas(m).push(meta@));
                Ok(PlanRun { txn, at, pre_revision, snapshot, state, metas })
            },
            Err(e) => Err(annotate_plan_index(e, n as u32)),
        }
    }
}

/// The index edits of the first `n` operations.
pub open spec fn edits_of(v: Seq<Meta>, n: int) -> Seq<IndexEdit>
    decreases n,
{
    if n <= 0 {
        Seq::empty()
    } else {
        edits_of(v, n - 1) + v[n - 1].index_edits
    }
}

/// The numbers of the operations that the index edits of the first `n` belong to.
pub open spec fn edit_ops(v: Seq<Meta>, n: int) -> Seq<u32>
    decreases n,
{
    if n <= 0 {
        Seq::empty()
    } else {
        edit_ops(v, n - 1) + Seq::new(v[n - 1].index_edits.len(), |k: int| (n - 1) as u32)
    }
}

/// The index edits of a plan in order, each with the number of its operation.
fn pending_edits(metas: &Vec<OpMeta>) -> (r: (Vec<u32>, Vec<PendingIndexEdit>))
    ensures
        r.0@ == edit_ops(apply::metas(metas@), metas@.len() as int),
        index::edit_views(r.1@) == edits_of(apply::metas(metas@), metas@.len() as int),
        r.0@.len() == r.1@.len(),
{
    let ghost all = apply::metas(metas@);
    let mut ops: Vec<u32> = Vec::new();
    let mut edits: Vec<PendingIndexEdit> = Vec::new();
    let mut i: usize = 0;
    assert(index::edit_views(edits@) =~= Seq::<IndexEdit>::empty());
    assert(ops@ =~= Seq::<u32>::empty());
    while i < metas.len()
        invariant
            i <= metas.len(),
            all == apply::metas(metas@),
            ops@.len() == edits@.len(),
            ops@ == edit_ops(all, i as int),
            index::edit_views(edits@) == edits_of(all, i as int),
        decreases metas.len() - i,
    {
        assert(all[i as int] == metas@[i as int]@);
        let ghost own = all[i as int].index_edits;
        let ghost numbers = Seq::new(own.len(), |k: int| i as u32);
        let own_edits = &metas[i].index_edits;
        assert(own.len() == own_edits@.len());
        let mut j: usize = 0;
        assert(edits_of(all, i as int) + own.take(0) =~= edits_of(all, i as int));
        assert(edit_ops(all, i as int) + numbers.take(0) =~= edit_ops(all, i as int));
        while j < own_edits.len()
            invariant
                j <= own_edits.len(),
                own == index::edit_views(own_edits@),
                own.len() == own_edits@.len(),
                numbers == Seq::new(own.len(), |k: int| i as u32),
                ops@.len() == edits@.len(),
                ops@ == edit_ops(all, i as int) + numbers.take(j as int),
                index::edit_views(edits@) == edits_of(all, i as int) + own.take(j as int),
            decreases own_edits.len() - j,
        {
            let e = own_edits[j].duplicate();
            let ghost before = edits@;
            let ghost before_ops = ops@;
            ops.push(i as u32);
            edits.push(e);
            proof {
                assert(own[j as int] == e@);
                assert(own.take(j + 1) =~= own.take(j as int).push(e@));
                assert(numbers.take(j + 1) =~= numbers.take(j as int).push(i as u32));
                assert(index::edit_views(edits@) =~= index::edit_views(before).push(e@));
                assert(index::edit_views(edits@) =~= edits_of(all, i as int) + own.take(j + 1));
                assert(ops@ =~= edit_ops(all, i as int) + numbers.take(j + 1));
            }
            j += 1;
        }
        proof {
            assert(own.take(own.len() as int) =~= own);
            assert(numbers.take(own.len() as int) =~= numbers);
            assert(edits_of(all, i + 1) =~= edits_of(all, i as int) + own);
            assert(edit_ops(all, i + 1) =~= edit_ops(all, i as int) + numbers);
        }
        i += 1;
    }
    assert(all.len() == metas@.len());
    (ops, edits)
}

/// The files that are staged even where Git ignores them: every file of the tree, and every
/// index that is edited, each once.
pub open spec fn forced(v: Seq<Seq<char>>, m: Map<Seq<char>, Node>, edits: Seq<IndexEdit>) -> bool {
    &&& v.no_duplicates()
    &&& forall|p: Seq<char>| #[trigger]
        v.contains(p) <==> (m.dom().contains(p) && m[p] is File) || exists|k: int|
            0 <= k < edits.len() && (#[trigger] edits[k]).file == p
}

/// The files that are staged even where Git ignores them.
fn force_list(tree: &VirtualTree, edits: &Vec<PendingIndexEdit>) -> (r: Vec<String>)
    ensures
        forced(text::texts(r@), tree@, index::edit_views(edits@)),
{
    let ghost all = index::edit_views(edits@);
    let n: usize = tree.len();
    let mut out: Vec<String> = Vec::new();
    let mut i: usize = 0;
    while i < n
        invariant
            i <= n,
            n == tree.count(),
            forall|k: int|
                0 <= k < tree.count() ==> tree@.dom().contains(#[trigger] tree.path_at(k)),
            forall|a: int, b: int|
                0 <= a < b < tree.count() ==> #[trigger] tree.path_at(a) != #[trigger] tree.path_at(
                    b,
                ),
            text::texts(out@).no_duplicates(),
            forall|p: Seq<char>| #[trigger]
                text::texts(out@).contains(p) <==> exists|k: int|
                    0 <= k < i && #[trigger] tree.path_at(k) == p && tree@[p] is File,
        decreases n - i,
    {
        let ghost before = text::texts(out@);
        let ghost path = tree.path_at(i as int);
        if tree.is_file(i) {
            out.push(tree.path(i).to_string());
            proof {
                assert(text::texts(out@) =~= before.push(path));
                if before.contains(path) {
                    let k = choose|k: int|
                        0 <= k < i && #[trigger] tree.path_at(k) == path && tree@[path] is File;
                    assert(tree.path_at(k) != tree.path_at(i as int));
                }
            }
        }
        proof {
            let now = text::texts(out@);
            assert forall|p: Seq<char>| #[trigger] now.contains(p) <==> exists|k: int|
                0 <= k < i + 1 && #[trigger] tree.path_at(k) == p && tree@[p] is File by {
                if now.contains(p) {
                    let k = choose|k: int| 0 <= k < now.len() && now[k] == p;
                    if k < before.len() {
                        assert(before[k] == p);
                        assert(before.contains(p));
                    } else {
                        assert(tree.path_at(i as int) == p);
                    }
                }
                if exists|k: int|
                    0 <= k < i + 1 && #[trigger] tree.path_at(k) == p && tree@[p] is File {
                    let k = choose|k: int|
                        0 <= k < i + 1 && #[trigger] tree.path_at(k) == p && tree@[p] is File;
                    if k < i {
                        assert(before.contains(p));
                        let j = choose|j: int| 0 <= j < before.len() && before[j] == p;
                        assert(now[j] == p);
                    } else {
                        assert(now[before.len() as int] == p);
                    }
                }
            }
        }
        i += 1;
    }
    proof {
        assert forall|p: Seq<char>| #[trigger] text::texts(out@).contains(p) <==> (
        tree@.dom().contains(p) && tree@[p] is File) by {
            if tree@.dom().contains(p) && tree@[p] is File {
                let k = choose|k: int| 0 <= k < tree.count() && #[trigger] tree.path_at(k) == p;
                assert(tree.path_at(k) == p && tree@[p] is File);
            }
        }
    }
    let mut j: usize = 0;
    while j < edits.len()
        invariant
            j <= edits.len(),
            all == index::edit_views(edits@),
            text::texts(out@).no_duplicates(),
            forall|p: Seq<char>| #[trigger]
                text::texts(out@).contains(p) <==> (tree@.dom().contains(p) && tree@[p] is File)
                    || exists|k: int| 0 <= k < j && (#[trigger] all[k]).file == p,
        decreases edits.len() - j,
    {
        let ghost before = text::texts(out@);
        let ghost file = all[j as int].file;
        assert(file == edits@[j as int].file_rel@);
        if !text::list_contains(&out, edits[j].file_rel.as_str()) {
            out.push(edits[j].file_rel.clone());
            assert(text::texts(out@) =~= before.push(file));
        }
        proof {
            let now = text::texts(out@);
            assert forall|p: Seq<char>| #[trigger] now.contains(p) <==> (tree@.dom().contains(p)
                && tree@[p] is File) || exists|k: int|
                0 <= k < j + 1 && (#[trigger] all[k]).file == p by {
                if before.contains(p) {
                    let k = choose|k: int| 0 <= k < before.len() && before[k] == p;
                    assert(now[k] == p);
                }
                if p == file {
                    assert(all[j as int].file == p);
                    if !before.contains(p) {
                        assert(now[before.len() as int] == p);
                    }
                }
                if now.contains(p) && p != file {
                    let k = choose|k: int| 0 <= k < now.len() && now[k] == p;
                    assert(before[k] == p);
                    assert(before.contains(p));
                }
                if exists|k: int| 0 <= k < j + 1 && (#[trigger] all[k]).file == p {
                    let k = choose|k: int| 0 <= k < j + 1 && (#[trigger] all[k]).file == p;
                    if k < j {
                        assert(before.contains(p));
                    }
                }
            }
        }
        j += 1;
    }
    assert(all.len() == edits@.len());
    out
}

/// A plan that has been applied in memory as a whole and can be written.
#[derive(Debug)]
pub struct ReadyPlan {
    run: PlanRun,
    ops: Vec<u32>,
    edits: Vec<PendingIndexEdit>,
    force_paths: Vec<String>,
    baseline: Vec<String>,
    folders: Vec<String>,
}

/// The model of a [`ReadyPlan`].
pub struct Ready {
    pub run: Run,
    pub force_paths: Seq<Seq<char>>,
    /// The paths that were on disk before anything was written.
    pub baseline: Seq<Seq<char>>,
    /// The folders that were on disk before anything was written.
    pub folders: Seq<Seq<char>>,
}

impl View for ReadyPlan {
    type V = Ready;

    closed spec fn view(&self) -> Ready {
        Ready {
            run: self.run@,
            force_paths: text::texts(self.force_paths@),
            baseline: text::texts(self.baseline@),
            folders: text::texts(self.folders@),
        }
    }
}

/// The texts of two lists, one after the other.
fn chained(mut a: Vec<String>, b: &Vec<String>) -> (r: Vec<String>)
    ensures
        text::texts(r@) == text::texts(a@) + text::texts(b@),
{
    let ghost first = a@;
    let mut i: usize = 0;
    while i < b.len()
        invariant
            i <= b.len(),
            a@.len() == first.len() + i,
            forall|k: int| 0 <= k < first.len() ==> a@[k] == first[k],
            forall|k: int| 0 <= k < i ==> (#[trigger] b@[k])@ == a@[first.len() + k]@,
        decreases b.len() - i,
    {
        a.push(b[i].clone());
        i += 1;
    }
    proof {
        let whole = text::texts(a@);
        let parts = text::texts(first) + text::texts(b@);
        assert forall|k: int| 0 <= k < whole.len() implies whole[k] == parts[k] by {
            if k >= first.len() {
                assert(b@[k - first.len()]@ == a@[k]@);
            }
        }
        assert(whole =~= parts);
    }
    a
}

impl PlanRun {
    /// Get ready to write: note what is on disk before anything is written.
    pub fn ready(self, listed: &Vec<String>, folders: Vec<String>) -> (r: ReadyPlan)
        requires
            self@.metas.len() == self@.plan.plan.len(),
        ensures
            r@.run == self@,
            forced(r@.force_paths, self@.tree, edits_of(self@.metas, self@.metas.len() as int)),
            r@.baseline == normalized_all(text::texts(listed@)) + self@.ignored,
            r@.folders == text::texts(folders@),
    {
        let (ops, edits) = pending_edits(&self.metas);
        let force_paths = force_list(&self.state.tree, &edits);
        let baseline = chained(normalize_all(listed), &self.at.ignored);
        assert(apply::metas(self.metas@).len() == self.metas@.len());
        ReadyPlan { run: self, ops, edits, force_paths, baseline, folders }
    }
}

/// The last placement of an operation among the first `n`.
pub open spec fn last_placement(v: Seq<Placement>, op: u32, n: int) -> Option<Placement>
    decreases n,
{
    if n <= 0 {
        None
    } else if v[n - 1].op == op {
        Some(v[n - 1])
    } else {
        last_placement(v, op, n - 1)
    }
}

/// What is reported of an operation: the selector and id of its last place in an index, or
/// else its own selector and the id that its path has there.
pub open spec fn outcome_of(
    notebook: Seq<char>,
    meta: Meta,
    i: int,
    placements: Seq<Placement>,
    index: Option<Seq<u8>>,
) -> Outcome {
    match last_placement(placements, i as u32, placements.len() as int) {
        Some(p) => Outcome {
            index: i as u32,
            path: meta.path,
            selector: Some(index::id_selector(notebook, p.folder, p.id)),
            numeric_id: Some(p.id),
            noop: meta.noop,
            fingerprint: meta.fingerprint,
        },
        None => Outcome {
            index: i as u32,
            path: meta.path,
            selector: meta.selector,
            numeric_id: match (meta.path, index) {
                (Some(path), Some(b)) => index::listed_id(b, paths::folder_and_base(path).1),
                _ => None,
            },
            noop: meta.noop,
            fingerprint: meta.fingerprint,
        },
    }
}

/// The bytes of an optional file.
pub open spec fn opt_bytes(b: Option<Vec<u8>>) -> Option<Seq<u8>> {
    match b {
        Some(b) => Some(b@),
        None => None,
    }
}

/// What is reported of a plan that was written.
pub open spec fn outcomes_of(
    notebook: Seq<char>,
    metas: Seq<Meta>,
    placements: Seq<Placement>,
    indexes: Seq<Option<Vec<u8>>>,
) -> Seq<Outcome> {
    Seq::new(
        metas.len(),
        |i: int| outcome_of(notebook, metas[i], i, placements, opt_bytes(indexes[i])),
    )
}

/// The last placement of an operation.
fn find_placement(v: &Vec<IndexPlacement>, op: u32) -> (r: Option<usize>)
    ensures
        ({
            let all = index::placement_views(v@);
            match r {
                Some(k) => k < v@.len() && last_placement(all, op, all.len() as int) == Some(
                    v@[k as int]@,
                ),
                None => last_placement(all, op, all.len() as int) is None,
            }
        }),
{
    let ghost all = index::placement_views(v@);
    let mut n: usize = v.len();
    assert(all.len() == v@.len());
    while n > 0
        invariant
            n <= v.len(),
            all == index::placement_views(v@),
            all.len() == v@.len(),
            last_placement(all, op, all.len() as int) == last_placement(all, op, n as int),
        decreases n,
    {
        assert(all[n - 1] == v@[n - 1]@);
        if v[n - 1].op_index == op {
            return Some(n - 1);
        }
        n -= 1;
    }
    None
}

/// What is reported of one operation.
fn report_op(
    notebook: &str,
    meta: OpMeta,
    i: usize,
    placements: &Vec<IndexPlacement>,
    found: Option<Vec<u8>>,
) -> (r: OpOutcome)
    ensures
        r@ == outcome_of(
            notebook@,
            meta@,
            i as int,
            index::placement_views(placements@),
            opt_bytes(found),
        ),
{
    match find_placement(placements, i as u32) {
        Some(k) => {
            let p = &placements[k];
            OpOutcome {
                index: i as u32,
                path: meta.path,
                selector: Some(numeric_selector(notebook, p.folder.as_str(), p.id)),
                numeric_id: Some(p.id),
                noop: meta.noop,
                fingerprint: meta.fingerprint,
            }
        },
        None => {
            let numeric_id: Option<u32> = match &meta.path {
                Some(path) => {
                    let (_, basename) = split_folder_basename(path.as_str());
                    index_id(found, basename.as_str())
                },
                None => None,
            };
            OpOutcome {
                index: i as u32,
                path: meta.path,
                selector: meta.selector,
                numeric_id,
                noop: meta.noop,
                fingerprint: meta.fingerprint,
            }
        },
    }
}

/// What follows a failed write.
#[derive(Debug)]
pub enum Failure {
    /// The checkpoint may have been made: nothing is undone.
    Report(NbError),
    /// The baseline has to be restored; `owned` are the outputs that it did not have.
    Restore { error: NbError, pre_revision: String, owned: Vec<String>, folders: Vec<String> },
}

/// The texts among the first `n` that are in neither list.
pub open spec fn in_neither(v: Seq<Seq<char>>, a: Seq<Seq<char>>, b: Seq<Seq<char>>, n: int) -> Seq<
    Seq<char>,
>
    decreases n,
{
    if n <= 0 {
        Seq::empty()
    } else if a.contains(v[n - 1]) || b.contains(v[n - 1]) {
        in_neither(v, a, b, n - 1)
    } else {
        in_neither(v, a, b, n - 1).push(v[n - 1])
    }
}

/// The outputs that the baseline did not have.
pub open spec fn owned_outputs(r: Ready) -> Seq<Seq<char>> {
    in_neither(r.force_paths, r.baseline, r.folders, r.force_paths.len() as int)
}

proof fn lemma_in_neither(v: Seq<Seq<char>>, a: Seq<Seq<char>>, b: Seq<Seq<char>>, n: int)
    requires
        0 <= n <= v.len(),
    ensures
        forall|k: int|
            0 <= k < in_neither(v, a, b, n).len() ==> !a.contains(
                #[trigger] in_neither(v, a, b, n)[k],
            ) && !b.contains(in_neither(v, a, b, n)[k]) && v.contains(in_neither(v, a, b, n)[k]),
    decreases n,
{
    if n > 0 {
        lemma_in_neither(v, a, b, n - 1);
        let before = in_neither(v, a, b, n - 1);
        let now = in_neither(v, a, b, n);
        assert forall|k: int| 0 <= k < now.len() implies !a.contains(#[trigger] now[k])
            && !b.contains(now[k]) && v.contains(now[k]) by {
            if k < before.len() {
                assert(now[k] == before[k]);
            } else {
                assert(now[k] == v[n - 1]);
            }
        }
    }
}

/// Going back never removes a path or a folder that was there before the transaction.
pub proof fn law_baseline_is_never_owned(r: Ready, k: int)
    requires
        0 <= k < owned_outputs(r).len(),
    ensures
        !r.baseline.contains(owned_outputs(r)[k]),
        !r.folders.contains(owned_outputs(r)[k]),
        r.force_paths.contains(owned_outputs(r)[k]),
{
    lemma_in_neither(r.force_paths, r.baseline, r.folders, r.force_paths.len() as int);
}

fn new_outputs(v: &Vec<String>, a: &Vec<String>, b: &Vec<String>) -> (r: Vec<String>)
    ensures
        text::texts(r@) == in_neither(
            text::texts(v@),
            text::texts(a@),
            text::texts(b@),
            v@.len() as int,
        ),
{
    let ghost all = text::texts(v@);
    let mut out: Vec<String> = Vec::new();
    let mut i: usize = 0;
    assert(text::texts(out@) =~= Seq::<Seq<char>>::empty());
    while i < v.len()
        invariant
            i <= v.len(),
            all == text::texts(v@),
            text::texts(out@) == in_neither(all, text::texts(a@), text::texts(b@), i as int),
        decreases v.len() - i,
    {
        assert(all[i as int] == v@[i as int]@);
        if !text::list_contains(a, v[i].as_str()) && !text::list_contains(b, v[i].as_str()) {
            let ghost before = out@;
            out.push(v[i].clone());
            assert(text::texts(out@) =~= text::texts(before).push(all[i as int]));
        }
        i += 1;
    }
    out
}

impl ReadyPlan {
    /// Every operation has been applied, and the edits are those of the operations.
    #[verifier::type_invariant]
    spec fn sound(self) -> bool {
        &&& self.run@.metas.len() == self.run@.plan.plan.len()
        &&& self.ops@ == edit_ops(self.run@.metas, self.run@.metas.len() as int)
        &&& index::edit_views(self.edits@) == edits_of(self.run@.metas, self.run@.metas.len() as int)
        &&& self.ops@.len() == self.edits@.len()
    }

    /// The planned tree.
    pub fn tree(&self) -> (r: &VirtualTree)
        ensures
            r@ == self@.run.tree,
    {
        &self.run.state.tree
    }

    /// The effects of the plan.
    pub fn effects(&self) -> (r: &PlanEffects)
        ensures
            r@ == self@.run.effects,
    {
        &self.run.state.effects
    }

    /// The paths that were on disk at the snapshot.
    pub fn snapshot(&self) -> (r: &Vec<String>)
        ensures
            text::texts(r@) == self@.run.snapshot,
    {
        &self.run.snapshot
    }

    /// The files that are staged even where Git ignores them.
    pub fn force_paths(&self) -> (r: &Vec<String>)
        ensures
            text::texts(r@) == self@.force_paths,
    {
        &self.force_paths
    }

    /// The message of the checkpoint.
    pub fn message(&self) -> (r: String)
        ensures
            r@ == "nb-api transaction ("@ + text::decimal(self@.run.plan.plan.len()) + " ops)"@,
    {
        let digits = text::decimal_of(self.run.txn.len() as u64);
        text::cat3("nb-api transaction (", digits.as_str(), " ops)")
    }

    /// The index edits by file; none where no operation changes an index.
    pub fn index_groups(&self) -> (r: Vec<index::FileEdits>)
        ensures
            ({
                let n = self@.run.metas.len() as int;
                let edits = edits_of(self@.run.metas, n);
                let files = index::files_of(edits, edits.len() as int);
                &&& r@.len() == files.len()
                &&& forall|k: int|
                    0 <= k < r@.len() ==> index::group_ok(
                        #[trigger] r@[k],
                        edit_ops(self@.run.metas, n),
                        edits,
                        files[k],
                        edits.len() as int,
                    )
            }),
    {
        proof {
            use_type_invariant(self);
            assert(index::edit_views(self.edits@).len() == self.edits@.len());
        }
        index::group_index_edits(&self.ops, &self.edits)
    }

    /// The path of each operation, for a look at the index of its folder.
    pub fn op_path(&self, i: usize) -> (r: Option<&str>)
        requires
            i < self@.run.plan.plan.len(),
        ensures
            match r {
                Some(p) => self@.run.metas[i as int].path == Some(p@),
                None => self@.run.metas[i as int].path is None,
            },
    {
        proof {
            use_type_invariant(self);
            assert(apply::metas(self.run.metas@).len() == self.run.metas@.len());
            assert(apply::metas(self.run.metas@)[i as int] == self.run.metas@[i as int]@);
        }
        match &self.run.metas[i].path {
            Some(p) => Some(p.as_str()),
            None => None,
        }
    }

    /// The number of operations.
    pub fn len(&self) -> (r: usize)
        ensures
            r == self@.run.plan.plan.len(),
            r == self@.run.metas.len(),
    {
        proof {
            use_type_invariant(self);
        }
        self.run.txn.len()
    }

    /// What is reported once the plan is on disk. `created` says whether there was anything to
    /// check in, `head` is the revision then, and `indexes` the index of the folder of each
    /// operation's path.
    pub fn finish(
        self,
        created: bool,
        head: Option<String>,
        placements: &Vec<IndexPlacement>,
        indexes: Vec<Option<Vec<u8>>>,
    ) -> (r: Result<CommitOutcome, NbError>)
        requires
            indexes@.len() == self@.run.plan.plan.len(),
        ensures
            match r {
                Ok(o) => (created ==> head is Some) && o@ == (Committed {
                    commit_created: created,
                    revision_id: if created {
                        error::opt_text(head)
                    } else {
                        None
                    },
                    pre_revision: self@.run.pre_revision,
                    ops: outcomes_of(
                        self@.run.plan.notebook,
                        self@.run.metas,
                        index::placement_views(placements@),
                        indexes@,
                    ),
                }),
                Err(e) => created && head is None && e@ == (NbErrorView::IndeterminateCommit {
                    pre_revision: self@.run.pre_revision,
                    post_revision_observed: None,
                    guidance:
                        "git commit may have succeeded but HEAD could not be re-read; do not retry blindly"@,
                }),
            },
    {
        proof {
            use_type_invariant(&self);
        }
        let ghost v = self@;
        let revision_id = if created {
            match head {
                Some(h) => Some(h),
                None => {
                    return Err(
                        NbError::IndeterminateCommit {
                            pre_revision: self.run.pre_revision,
                            post_revision_observed: None,
                            guidance:
                                "git commit may have succeeded but HEAD could not be re-read; do not retry blindly".to_string(),
                        },
                    );
                },
            }
        } else {
            None
        };
        let notebook = self.run.txn.notebook().to_string();
        let PlanRun { pre_revision, mut metas, .. } = self.run;
        let mut indexes = indexes;
        let ghost all = apply::metas(metas@);
        let ghost given = indexes@;
        let ghost want = outcomes_of(
            notebook@,
            all,
            index::placement_views(placements@),
            given,
        );
        let mut rest: Vec<OpOutcome> = Vec::new();
        let mut n: usize = metas.len();
        assert(all.len() == metas@.len());
        assert(metas@.take(n as int) =~= metas@);
        assert(given.take(n as int) =~= given);
        let ghost whole = metas@;
        while n > 0
            invariant
                n == metas@.len(),
                n == indexes@.len(),
                n <= whole.len(),
                all == apply::metas(whole),
                all.len() == whole.len(),
                given.len() == whole.len(),
                metas@ == whole.take(n as int),
                indexes@ == given.take(n as int),
                want == outcomes_of(
                    notebook@,
                    all,
                    index::placement_views(placements@),
                    given,
                ),
                rest@.len() == whole.len() - n,
                forall|k: int|
                    0 <= k < rest@.len() ==> (#[trigger] rest@[k])@ == want[whole.len() - 1 - k],
            decreases n,
        {
            let meta = metas.pop();
            let found = indexes.pop();
            match (meta, found) {
                (Some(meta), Some(found)) => {
                    assert(all[n - 1] == meta@);
                    assert(found == given[n - 1]);
                    rest.push(report_op(notebook.as_str(), meta, n - 1, placements, found));
                },
                _ => {},
            }
            n -= 1;
            proof {
                assert(metas@ =~= whole.take(n as int));
                assert(indexes@ =~= given.take(n as int));
            }
        }
        let mut ops: Vec<OpOutcome> = Vec::new();
        let ghost full = rest@;
        let mut left: usize = rest.len();
        assert(rest@.take(left as int) =~= rest@);
        while left > 0
            invariant
                left == rest@.len(),
                left <= full.len(),
                rest@ == full.take(left as int),
                full.len() == want.len(),
                forall|k: int|
                    0 <= k < full.len() ==> (#[trigger] full[k])@ == want[full.len() - 1 - k],
                ops@.len() == full.len() - left,
                forall|k: int| 0 <= k < ops@.len() ==> (#[trigger] ops@[k])@ == want[k],
            decreases left,
        {
            match rest.pop() {
                Some(o) => {
                    assert(o == full[left - 1]);
                    ops.push(o);
                },
                None => {},
            }
            left -= 1;
            assert(rest@ =~= full.take(left as int));
        }
        assert(types::outcomes(ops@) =~= want);
        Ok(CommitOutcome { commit_created: created, revision_id, pre_revision, ops })
    }

    /// What follows a failed write, given the revision that the notebook is at now, as far as
    /// it can be read.
    pub fn fail(self, error: NbError, post: Option<String>) -> (r: Failure)
        ensures
            match r {
                Failure::Report(e) => post matches Some(h) && h@ != self@.run.pre_revision && e@
                    == (NbErrorView::IndeterminateCommit {
                    pre_revision: self@.run.pre_revision,
                    post_revision_observed: error::opt_text(post),
                    guidance:
                        "checkpoint may have completed; re-read HEAD/status and do not retry the same plan blindly"@,
                }),
                Failure::Restore { error: e, pre_revision, owned, folders } => (post matches Some(h)
                    ==> h@ == self@.run.pre_revision) && e == error && pre_revision@
                    == self@.run.pre_revision && text::texts(owned@) == owned_outputs(self@)
                    && text::texts(folders@) == self@.folders,
            },
    {
        let moved = match &post {
            Some(h) => !text::equal(h.as_str(), self.run.pre_revision.as_str()),
            None => false,
        };
        if moved {
            return Failure::Report(
                NbError::IndeterminateCommit {
                    pre_revision: self.run.pre_revision,
                    post_revision_observed: post,
                    guidance:
                        "checkpoint may have completed; re-read HEAD/status and do not retry the same plan blindly".to_string(),
                },
            );
        }
        let owned = new_outputs(&self.force_paths, &self.baseline, &self.folders);
        assert(text::texts(self.force_paths@).len() == self.force_paths@.len());
        Failure::Restore {
            error,
            pre_revision: self.run.pre_revision,
            owned,
            folders: self.folders,
        }
    }
}

} // verus!
