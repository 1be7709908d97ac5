//! Applying planned operations to the in-memory tree.

use crate::bytes;
use crate::error;
use crate::error::{NbError, NbErrorView};
use crate::fingerprint;
use crate::fingerprint::Fingerprint;
use crate::lines;
use crate::lines::{
    apply_line_edits, apply_substring, require_contiguous_body, splice_body, splice_title,
};
use crate::parser;
use crate::parser::parse_at;
use crate::paths;
use crate::paths::{split_folder_basename, Folder, Place};
use crate::text;
use crate::transaction::content;
use crate::transaction::content::{
    apply_tag_edit, build_bookmark_bytes, build_note_bytes, build_todo_bytes, set_todo_state,
};
use crate::transaction::index;
use crate::transaction::index::{
    append_index_edit, blank_index_edit, move_index_edits, IndexEdit, PendingIndexEdit,
};
use crate::transaction::plan;
use crate::transaction::plan::{Op, PlanOp};
use crate::transaction::resolve;
use crate::transaction::resolve::{
    outcome_selector, resolve_move_destination, resolve_target_path,
};
use crate::transaction::tree;
use crate::transaction::tree::{refuse_symlink_ancestors, LinkState, Node, VirtualTree};
use crate::types::{NoteTarget, Target};
use vstd::prelude::*;

verus! {

/// What a look at each prefix of a path found.
#[derive(Debug, Clone)]
pub struct PathProbe {
    pub path: String,
    pub states: Vec<LinkState>,
}

/// The test for the look at one path.
pub open spec fn probes_path(path: Seq<char>) -> spec_fn(PathProbe) -> bool {
    |p: PathProbe| p.path@ == path
}

/// What was found at a path; nothing where nobody looked.
pub open spec fn states_of(probes: Seq<PathProbe>, path: Seq<char>) -> Seq<LinkState> {
    let at = bytes::find_from(probes, probes_path(path), 0);
    if at < probes.len() {
        probes[at].states@
    } else {
        Seq::empty()
    }
}

/// The paths that the plan changes. Only these are written or removed on disk.
#[derive(Debug)]
pub struct PlanEffects {
    /// Sources of deletions and moves: the only paths that may be removed.
    pub removed: Vec<String>,
    /// Files that are created or changed.
    pub written: Vec<String>,
    /// Paths that must not be on disk yet.
    pub created: Vec<String>,
    /// New folders.
    pub mkdirs: Vec<String>,
}

/// The model of [`PlanEffects`].
pub struct Effects {
    pub removed: Seq<Seq<char>>,
    pub written: Seq<Seq<char>>,
    pub created: Seq<Seq<char>>,
    pub mkdirs: Seq<Seq<char>>,
}

impl View for PlanEffects {
    type V = Effects;

    open spec fn view(&self) -> Effects {
        Effects {
            removed: text::texts(self.removed@),
            written: text::texts(self.written@),
            created: text::texts(self.created@),
            mkdirs: text::texts(self.mkdirs@),
        }
    }
}

/// The effects of an empty plan.
pub open spec fn no_effects() -> Effects {
    Effects {
        removed: Seq::empty(),
        written: Seq::empty(),
        created: Seq::empty(),
        mkdirs: Seq::empty(),
    }
}

impl PlanEffects {
    /// The effects of an empty plan.
    pub fn new() -> (r: Self)
        ensures
            r@ == no_effects(),
    {
        let r = PlanEffects {
            removed: Vec::new(),
            written: Vec::new(),
            created: Vec::new(),
            mkdirs: Vec::new(),
        };
        assert(r@.removed =~= Seq::<Seq<char>>::empty());
        assert(r@.written =~= Seq::<Seq<char>>::empty());
        assert(r@.created =~= Seq::<Seq<char>>::empty());
        assert(r@.mkdirs =~= Seq::<Seq<char>>::empty());
        r
    }

    fn write(&mut self, path: &str)
        ensures
            final(self)@ == (Effects { written: old(self)@.written.push(path@), ..old(self)@ }),
    {
        text::push_text(&mut self.written, path);
    }

    fn create(&mut self, path: &str)
        ensures
            final(self)@ == (Effects {
                written: old(self)@.written.push(path@),
                created: old(self)@.created.push(path@),
                ..old(self)@
            }),
    {
        text::push_text(&mut self.written, path);
        text::push_text(&mut self.created, path);
    }

    fn remove(&mut self, path: &str)
        ensures
            final(self)@ == (Effects { removed: old(self)@.removed.push(path@), ..old(self)@ }),
    {
        text::push_text(&mut self.removed, path);
    }

    fn mkdir(&mut self, path: &str)
        ensures
            final(self)@ == (Effects { mkdirs: old(self)@.mkdirs.push(path@), ..old(self)@ }),
    {
        text::push_text(&mut self.mkdirs, path);
    }
}

/// What is reported of an applied operation.
#[derive(Debug)]
pub struct OpMeta {
    pub path: Option<String>,
    pub selector: Option<String>,
    pub noop: bool,
    pub fingerprint: Option<Fingerprint>,
    pub index_edits: Vec<PendingIndexEdit>,
}

/// The model of an [`OpMeta`].
pub struct Meta {
    pub path: Option<Seq<char>>,
    pub selector: Option<Seq<char>>,
    pub noop: bool,
    pub fingerprint: Option<Seq<char>>,
    pub index_edits: Seq<IndexEdit>,
}

impl View for OpMeta {
    type V = Meta;

    open spec fn view(&self) -> Meta {
        Meta {
            path: error::opt_text(self.path),
            selector: error::opt_text(self.selector),
            noop: self.noop,
            fingerprint: plan::opt_hex(self.fingerprint),
            index_edits: index::edit_views(self.index_edits@),
        }
    }
}

/// The models of a vector of reports.
pub open spec fn metas(v: Seq<OpMeta>) -> Seq<Meta> {
    v.map_values(|m: OpMeta| m@)
}

/// The tree, the effects and the report after an operation.
pub struct Applied {
    pub tree: Map<Seq<char>, Node>,
    pub effects: Effects,
    pub meta: Meta,
}

/// The tree, the ignored paths and what was found on disk, as one operation sees them.
pub struct Scene {
    pub notebook: Seq<char>,
    pub root: Place,
    pub tree: Map<Seq<char>, Node>,
    pub ignored: Seq<Seq<char>>,
    pub probes: Seq<PathProbe>,
    pub effects: Effects,
}

/// The refusal to create something at a path.
pub open spec fn create_refusal(s: Scene, path: Seq<char>) -> Option<NbErrorView> {
    if s.ignored.contains(path) {
        Some(
            NbErrorView::PathIgnored {
                path,
                guidance:
                    "path exists as a Git-ignored file; un-ignore or remove it outside the transaction before creating here"@,
                plan_index: None,
            },
        )
    } else {
        match tree::link_refusal(s.root, tree::components(path), states_of(s.probes, path), 0) {
            Some(e) => Some(e),
            None => if s.tree.dom().contains(path) {
                Some(NbErrorView::PathCollision { path, plan_index: None })
            } else {
                None
            },
        }
    }
}

/// The hash of the body of a file, or the refusal of a file that is no document.
pub open spec fn body_hash(b: Seq<u8>, path: Seq<char>) -> Result<Seq<char>, NbErrorView> {
    match parser::parsed_at(b, path) {
        Ok(doc) => Ok(fingerprint::blake3_hex(doc.body())),
        Err(e) => Err(e),
    }
}

/// A new file at a path, or the refusal.
pub open spec fn created(s: Scene, path: Seq<char>, b: Seq<u8>) -> Result<Applied, NbErrorView> {
    match create_refusal(s, path) {
        Some(e) => Err(e),
        None => match body_hash(b, path) {
            Err(e) => Err(e),
            Ok(hash) => Ok(
                Applied {
                    tree: tree::with_file(s.tree, path, b),
                    effects: Effects {
                        written: s.effects.written.push(path),
                        created: s.effects.created.push(path),
                        ..s.effects
                    },
                    meta: Meta {
                        path: Some(path),
                        selector: Some(s.notebook + ":"@ + path),
                        noop: false,
                        fingerprint: Some(hash),
                        index_edits: seq![index::append_edit(path)],
                    },
                },
            ),
        },
    }
}

/// The file that keeps a folder in Git.
pub open spec fn keep_file(path: Seq<char>) -> Seq<char> {
    path + "/.gitkeep"@
}

/// A new folder with its keep file, or the refusal.
pub open spec fn folder_created(s: Scene, path: Seq<char>) -> Result<Applied, NbErrorView> {
    let keep = keep_file(path);
    match create_refusal(s, path) {
        Some(e) => Err(e),
        None => match create_refusal(s, keep) {
            Some(e) => Err(e),
            None => {
                let with = tree::with_folder(s.tree, path);
                Ok(
                    Applied {
                        tree: if with.dom().contains(keep) {
                            with
                        } else {
                            tree::with_file(with, keep, Seq::empty())
                        },
                        effects: Effects {
                            mkdirs: s.effects.mkdirs.push(path),
                            written: s.effects.written.push(keep),
                            created: s.effects.created.push(keep),
                            ..s.effects
                        },
                        meta: Meta {
                            path: Some(path),
                            selector: None,
                            noop: false,
                            fingerprint: None,
                            index_edits: Seq::empty(),
                        },
                    },
                )
            },
        },
    }
}

/// A note deleted, or the refusal.
pub open spec fn deleted(s: Scene, target: Target) -> Result<Applied, NbErrorView> {
    match resolve::resolved(s.tree, s.ignored, target) {
        Err(e) => Err(e),
        Ok(path) => if !s.tree.dom().contains(path) {
            Err(NbErrorView::NotFound { selector: target.value() })
        } else {
            Ok(
                Applied {
                    tree: s.tree.remove(path),
                    effects: Effects { removed: s.effects.removed.push(path), ..s.effects },
                    meta: Meta {
                        path: Some(path),
                        selector: Some(resolve::selector_of(s.notebook, target, path)),
                        noop: false,
                        fingerprint: None,
                        index_edits: seq![index::blank_edit(path)],
                    },
                },
            )
        },
    }
}

/// A rename inside a folder to a name with more bytes: its line in the index could not be
/// rewritten in place.
pub open spec fn grows_in_place(from: Seq<char>, to: Seq<char>) -> bool {
    let (from_folder, from_base) = paths::folder_and_base(from);
    let (to_folder, to_base) = paths::folder_and_base(to);
    from_folder == to_folder && vstd::utf8::encode_utf8(to_base).len() > vstd::utf8::encode_utf8(
        from_base,
    ).len()
}

/// A note moved, or the refusal.
pub open spec fn moved(s: Scene, target: Target, destination: Seq<char>) -> Result<
    Applied,
    NbErrorView,
> {
    match resolve::resolved(s.tree, s.ignored, target) {
        Err(e) => Err(e),
        Ok(from) => {
            let to = resolve::moved_to(from, destination);
            match create_refusal(s, to) {
                Some(e) => Err(e),
                None => if grows_in_place(from, to) {
                    Err(
                        error::invalid(
                            "in-folder rename to a longer name (`"@ + paths::folder_and_base(from).1
                                + "` -> `"@ + paths::folder_and_base(to).1
                                + "`) would risk concurrent .index appends; delete and recreate the note instead"@,
                        ),
                    )
                } else if !s.tree.dom().contains(from) {
                    Err(NbErrorView::NotFound { selector: from })
                } else {
                    Ok(
                        Applied {
                            tree: tree::renamed(s.tree, from, to),
                            effects: Effects {
                                removed: s.effects.removed.push(from),
                                written: s.effects.written.push(to),
                                created: s.effects.created.push(to),
                                ..s.effects
                            },
                            meta: Meta {
                                path: Some(to),
                                selector: Some(s.notebook + ":"@ + to),
                                noop: false,
                                fingerprint: None,
                                index_edits: index::move_edits(from, to),
                            },
                        },
                    )
                },
            }
        },
    }
}

/// The refusal of an edit of a body that is not the one that was read.
pub open spec fn stale_body(target: Target) -> NbErrorView {
    NbErrorView::FingerprintMismatch {
        target,
        guidance: "body fingerprint does not match; re-read and retry"@,
    }
}

/// A title line: a title without a `#` becomes a level-one heading.
pub open spec fn heading_line(title: Seq<char>) -> Seq<char> {
    if title.len() > 0 && title[0] == '#' {
        title
    } else {
        "# "@ + title
    }
}

/// The new source of a file that an operation edits, or the refusal. Whether the body is in
/// one piece comes before its fingerprint.
pub open spec fn new_source(op: Op, path: Seq<char>, b: Seq<u8>) -> Result<Seq<u8>, NbErrorView> {
    match op {
        Op::MarkTaskDone { task_number, .. } => content::state_set(b, path, true, task_number),
        Op::UnmarkTaskDone { task_number, .. } => content::state_set(b, path, false, task_number),
        _ => match parser::parsed_at(b, path) {
            Err(e) => Err(e),
            Ok(doc) => match op {
                Op::ReplaceNoteBody { target, new_body, fingerprint } => match lines::contiguous_body(
                    doc,
                ) {
                    Err(e) => Err(e),
                    Ok(body) => if fingerprint::blake3_hex(doc.body()) != fingerprint {
                        Err(stale_body(target))
                    } else {
                        lines::body_replaced(doc, vstd::utf8::encode_utf8(new_body))
                    },
                },
                Op::EditNoteSubstring {
                    target,
                    pattern,
                    replacement,
                    occurrence,
                    expected_count,
                    fingerprint,
                } => match lines::contiguous_body(doc) {
                    Err(e) => Err(e),
                    Ok(body) => if fingerprint matches Some(hash) && fingerprint::blake3_hex(
                        doc.body(),
                    ) != hash {
                        Err(stale_body(target))
                    } else {
                        match lines::substituted(
                            body,
                            vstd::utf8::encode_utf8(pattern),
                            vstd::utf8::encode_utf8(replacement),
                            occurrence,
                            expected_count,
                        ) {
                            Err(e) => Err(e),
                            Ok(new_body) => lines::body_replaced(doc, new_body),
                        }
                    },
                },
                Op::EditNoteLines { edits, .. } => match lines::contiguous_body(doc) {
                    Err(e) => Err(e),
                    Ok(body) => match lines::edited(body, edits) {
                        Err(e) => Err(e),
                        Ok(new_body) => lines::body_replaced(doc, new_body),
                    },
                },
                Op::RetitleNote { title, .. } => Ok(
                    lines::title_replaced(doc, vstd::utf8::encode_utf8(heading_line(title))),
                ),
                Op::EditNoteTags { add, remove, .. } => Ok(content::tag_edit(doc, add, remove)),
                _ => Ok(b),
            },
        },
    }
}

/// A file edited in place, or the refusal.
pub open spec fn edited_in_place(s: Scene, target: Target, op: Op) -> Result<Applied, NbErrorView> {
    match resolve::resolved(s.tree, s.ignored, target) {
        Err(e) => Err(e),
        Ok(path) => if !(s.tree.dom().contains(path) && s.tree[path] is File) {
            Err(NbErrorView::NotFound { selector: target.value() })
        } else {
            let before = s.tree[path]->File_0;
            match new_source(op, path, before) {
                Err(e) => Err(e),
                Ok(after) => match body_hash(after, path) {
                    Err(e) => Err(e),
                    Ok(hash) => Ok(
                        Applied {
                            tree: tree::with_file(s.tree, path, after),
                            effects: Effects { written: s.effects.written.push(path), ..s.effects },
                            meta: Meta {
                                path: Some(path),
                                selector: Some(resolve::selector_of(s.notebook, target, path)),
                                noop: after == before,
                                fingerprint: Some(hash),
                                index_edits: Seq::empty(),
                            },
                        },
                    ),
                },
            }
        },
    }
}

/// What applying an operation gives, or its refusal.
pub open spec fn applied(s: Scene, op: Op) -> Result<Applied, NbErrorView> {
    match op {
        Op::AddNote { path, title, content, tags } => created(
            s,
            path,
            vstd::utf8::encode_utf8(content::note_text(title, content, tags)),
        ),
        Op::AddTodo { path, title, description, tasks, tags } => created(
            s,
            path,
            vstd::utf8::encode_utf8(content::todo_text(title, description, tasks, tags)),
        ),
        Op::AddBookmark { path, url, title, tags, comment } => created(
            s,
            path,
            vstd::utf8::encode_utf8(content::bookmark_text(url, title, tags, comment)),
        ),
        Op::AddFolder { path } => folder_created(s, path),
        Op::DeleteNote { target } => deleted(s, target),
        Op::MoveNote { target, destination } => moved(s, target, destination),
        Op::MarkTaskDone { target, .. } => edited_in_place(s, target, op),
        Op::UnmarkTaskDone { target, .. } => edited_in_place(s, target, op),
        Op::ReplaceNoteBody { target, .. } => edited_in_place(s, target, op),
        Op::EditNoteSubstring { target, .. } => edited_in_place(s, target, op),
        Op::EditNoteLines { target, .. } => edited_in_place(s, target, op),
        Op::RetitleNote { target, .. } => edited_in_place(s, target, op),
        Op::EditNoteTags { target, .. } => edited_in_place(s, target, op),
    }
}

/// The paths whose prefixes have to be looked at before an operation is applied.
pub open spec fn create_paths(
    m: Map<Seq<char>, Node>,
    ignored: Seq<Seq<char>>,
    op: Op,
) -> Seq<Seq<char>> {
    match op {
        Op::AddNote { path, .. } => seq![path],
        Op::AddTodo { path, .. } => seq![path],
        Op::AddBookmark { path, .. } => seq![path],
        Op::AddFolder { path } => seq![path, keep_file(path)],
        Op::MoveNote { target, destination } => match resolve::resolved(m, ignored, target) {
            Ok(from) => seq![resolve::moved_to(from, destination)],
            Err(_) => Seq::empty(),
        },
        _ => Seq::empty(),
    }
}

/// The paths whose prefixes have to be looked at before an operation is applied.
pub fn paths_to_probe(tree: &VirtualTree, ignored: &Vec<String>, op: &PlanOp) -> (r: Vec<String>)
    ensures
        text::texts(r@) == create_paths(tree@, text::texts(ignored@), op@),
{
    let mut out: Vec<String> = Vec::new();
    assert(text::texts(out@) =~= Seq::<Seq<char>>::empty());
    match op {
        PlanOp::AddNote { path, .. } => {
            text::push_text(&mut out, path.as_str());
        },
        PlanOp::AddTodo { path, .. } => {
            text::push_text(&mut out, path.as_str());
        },
        PlanOp::AddBookmark { path, .. } => {
            text::push_text(&mut out, path.as_str());
        },
        PlanOp::AddFolder { path } => {
            let keep = text::cat2(path.as_str(), "/.gitkeep");
            text::push_text(&mut out, path.as_str());
            text::push_text(&mut out, keep.as_str());
        },
        PlanOp::MoveNote { target, destination } => {
            match resolve_target_path(tree, ignored, target) {
                Ok(from) => {
                    let to = resolve_move_destination(from.as_str(), destination.as_str());
                    text::push_text(&mut out, to.as_str());
                },
                Err(_) => {},
            }
        },
        _ => {},
    }
    assert(text::texts(out@) =~= create_paths(tree@, text::texts(ignored@), op@));
    out
}

/// Refuse to create something at a path.
pub fn refuse_create_collision(
    root: &Folder,
    tree: &VirtualTree,
    ignored: &Vec<String>,
    probes: &Vec<PathProbe>,
    path: &str,
) -> (r: Result<(), NbError>)
    ensures
        forall|s: Scene|
            s.root == root@ && s.tree == tree@ && s.ignored == text::texts(ignored@) && s.probes
                == probes@ ==> (match r {
                Ok(()) => (#[trigger] create_refusal(s, path@)) is None,
                Err(e) => create_refusal(s, path@) == Some(e@),
            }),
{
    if text::list_contains(ignored, path) {
        return Err(
            NbError::PathIgnored {
                path: path.to_string(),
                guidance:
                    "path exists as a Git-ignored file; un-ignore or remove it outside the transaction before creating here".to_string(),
                plan_index: None,
            },
        );
    }
    let mut i: usize = 0;
    while i < probes.len() && !text::equal(probes[i].path.as_str(), path)
        invariant
            i <= probes.len(),
            forall|k: int| 0 <= k < i ==> !probes_path(path@)(#[trigger] probes@[k]),
        decreases probes.len() - i,
    {
        i += 1;
    }
    proof {
        bytes::lemma_find_from_is(probes@, probes_path(path@), 0, i as int);
    }
    if i < probes.len() {
        match refuse_symlink_ancestors(root, path, &probes[i].states) {
            Ok(()) => {},
            Err(e) => {
                return Err(e);
            },
        }
    }
    if tree.contains(path) {
        return Err(NbError::PathCollision { path: path.to_string(), plan_index: None });
    }
    Ok(())
}

/// The fingerprint of the body of a file.
pub fn fingerprint_bytes(content: &[u8], path: &str) -> (r: Result<Fingerprint, NbError>)
    ensures
        match r {
            Ok(f) => body_hash(content@, path@) == Ok::<Seq<char>, NbErrorView>(f@),
            Err(e) => body_hash(content@, path@) == Err::<Seq<char>, NbErrorView>(e@),
        },
{
    match parse_at(content, path) {
        Ok(doc) => Ok(fingerprint::fingerprint(&doc)),
        Err(e) => Err(e),
    }
}

/// The planned state that one operation after another changes.
#[derive(Debug)]
pub struct PlanState {
    pub tree: VirtualTree,
    pub effects: PlanEffects,
}

/// What an operation sees of a planned state.
pub open spec fn scene(
    notebook: Seq<char>,
    root: Place,
    state: PlanState,
    ignored: Seq<Seq<char>>,
    probes: Seq<PathProbe>,
) -> Scene {
    Scene { notebook, root, tree: state.tree@, ignored, probes, effects: state.effects@ }
}

/// An operation leaves the planned state as its model says; a refused one leaves it alone.
pub open spec fn state_agrees(
    before: PlanState,
    after: PlanState,
    r: Result<OpMeta, NbError>,
    model: Result<Applied, NbErrorView>,
) -> bool {
    match r {
        Ok(meta) => model matches Ok(x) && x.tree == after.tree@ && x.effects == after.effects@
            && x.meta == meta@,
        Err(e) => model matches Err(x) && x == e@ && after.tree@ == before.tree@ && after.effects@
            == before.effects@,
    }
}

/// Where an operation is applied.
#[derive(Debug)]
pub struct Surroundings {
    pub notebook: String,
    pub root: Folder,
    /// The existing paths that Git ignores.
    pub ignored: Vec<String>,
}

/// The scene of a planned state in its surroundings.
pub open spec fn scene_in(at: Surroundings, state: PlanState, probes: Seq<PathProbe>) -> Scene {
    scene(at.notebook@, at.root@, state, text::texts(at.ignored@), probes)
}

/// A one-element list of edits.
fn only(edit: PendingIndexEdit) -> (r: Vec<PendingIndexEdit>)
    ensures
        index::edit_views(r@) == seq![edit@],
{
    let mut out: Vec<PendingIndexEdit> = Vec::new();
    out.push(edit);
    assert(index::edit_views(out@) =~= seq![edit@]);
    out
}

/// An empty list of edits.
fn no_edits() -> (r: Vec<PendingIndexEdit>)
    ensures
        index::edit_views(r@) == Seq::<IndexEdit>::empty(),
{
    let out: Vec<PendingIndexEdit> = Vec::new();
    assert(index::edit_views(out@) =~= Seq::<IndexEdit>::empty());
    out
}

fn create_file(
    at: &Surroundings,
    state: &mut PlanState,
    probes: &Vec<PathProbe>,
    path: &str,
    content: Vec<u8>,
) -> (r: Result<OpMeta, NbError>)
    ensures
        state_agrees(
            *old(state),
            *final(state),
            r,
            created(scene_in(*at, *old(state), probes@), path@, content@),
        ),
{
    match refuse_create_collision(&at.root, &state.tree, &at.ignored, probes, path) {
        Ok(()) => {},
        Err(e) => {
            return Err(e);
        },
    }
    let fp = match fingerprint_bytes(content.as_slice(), path) {
        Ok(f) => f,
        Err(e) => {
            return Err(e);
        },
    };
    state.tree.insert_file(path, content);
    state.effects.create(path);
    Ok(
        OpMeta {
            path: Some(path.to_string()),
            selector: Some(text::cat3(at.notebook.as_str(), ":", path)),
            noop: false,
            fingerprint: Some(fp),
            index_edits: only(append_index_edit(path)),
        },
    )
}

fn create_folder(
    at: &Surroundings,
    state: &mut PlanState,
    probes: &Vec<PathProbe>,
    path: &str,
) -> (r: Result<OpMeta, NbError>)
    ensures
        state_agrees(
            *old(state),
            *final(state),
            r,
            folder_created(scene_in(*at, *old(state), probes@), path@),
        ),
{
    let keep = text::cat2(path, "/.gitkeep");
    match refuse_create_collision(&at.root, &state.tree, &at.ignored, probes, path) {
        Ok(()) => {},
        Err(e) => {
            return Err(e);
        },
    }
    match refuse_create_collision(
        &at.root,
        &state.tree,
        &at.ignored,
        probes,
        keep.as_str(),
    ) {
        Ok(()) => {},
        Err(e) => {
            return Err(e);
        },
    }
    state.tree.insert_folder(path);
    state.effects.mkdir(path);
    if !state.tree.contains(keep.as_str()) {
        let empty: Vec<u8> = Vec::new();
        assert(empty@ =~= Seq::<u8>::empty());
        state.tree.insert_file(keep.as_str(), empty);
    }
    state.effects.create(keep.as_str());
    Ok(
        OpMeta {
            path: Some(path.to_string()),
            selector: None,
            noop: false,
            fingerprint: None,
            index_edits: no_edits(),
        },
    )
}

fn delete_entry(at: &Surroundings, state: &mut PlanState, target: &NoteTarget, probes: &Vec<PathProbe>) -> (r:
    Result<OpMeta, NbError>)
    ensures
        state_agrees(
            *old(state),
            *final(state),
            r,
            deleted(scene_in(*at, *old(state), probes@), target@),
        ),
{
    let path = match resolve_target_path(&state.tree, &at.ignored, target) {
        Ok(p) => p,
        Err(e) => {
            return Err(e);
        },
    };
    if !state.tree.contains(path.as_str()) {
        return Err(NbError::NotFound { selector: target.value().to_string() });
    }
    state.tree.remove(path.as_str());
    state.effects.remove(path.as_str());
    let selector = outcome_selector(at.notebook.as_str(), target, path.as_str());
    let edits = only(blank_index_edit(path.as_str()));
    Ok(
        OpMeta {
            path: Some(path),
            selector: Some(selector),
            noop: false,
            fingerprint: None,
            index_edits: edits,
        },
    )
}

fn move_entry(
    at: &Surroundings,
    state: &mut PlanState,
    probes: &Vec<PathProbe>,
    target: &NoteTarget,
    destination: &str,
) -> (r: Result<OpMeta, NbError>)
    ensures
        state_agrees(
            *old(state),
            *final(state),
            r,
            moved(scene_in(*at, *old(state), probes@), target@, destination@),
        ),
{
    let from = match resolve_target_path(&state.tree, &at.ignored, target) {
        Ok(p) => p,
        Err(e) => {
            return Err(e);
        },
    };
    let to = resolve_move_destination(from.as_str(), destination);
    match refuse_create_collision(
        &at.root,
        &state.tree,
        &at.ignored,
        probes,
        to.as_str(),
    ) {
        Ok(()) => {},
        Err(e) => {
            return Err(e);
        },
    }
    let (from_folder, from_base) = split_folder_basename(from.as_str());
    let (to_folder, to_base) = split_folder_basename(to.as_str());
    if text::equal(from_folder.as_str(), to_folder.as_str()) && to_base.as_str().as_bytes().len()
        > from_base.as_str().as_bytes().len() {
        let head = text::cat3(
            "in-folder rename to a longer name (`",
            from_base.as_str(),
            "` -> `",
        );
        let reason = text::cat3(
            head.as_str(),
            to_base.as_str(),
            "`) would risk concurrent .index appends; delete and recreate the note instead",
        );
        return Err(NbError::invalid(reason.as_str()));
    }
    match state.tree.rename(from.as_str(), to.as_str()) {
        Ok(()) => {},
        Err(e) => {
            return Err(e);
        },
    }
    state.effects.remove(from.as_str());
    state.effects.create(to.as_str());
    let edits = move_index_edits(from.as_str(), to.as_str());
    Ok(
        OpMeta {
            selector: Some(text::cat3(at.notebook.as_str(), ":", to.as_str())),
            path: Some(to),
            noop: false,
            fingerprint: None,
            index_edits: edits,
        },
    )
}

/// The error of an edit of a body that is not the one that was read.
fn stale(target: &NoteTarget) -> (r: NbError)
    ensures
        r@ == stale_body(target@),
{
    NbError::FingerprintMismatch {
        target: target.duplicate(),
        guidance: "body fingerprint does not match; re-read and retry".to_string(),
    }
}

/// The new source of a file that an operation edits.
pub fn edit_source(op: &PlanOp, path: &str, content: &[u8]) -> (r: Result<Vec<u8>, NbError>)
    ensures
        lines::bytes_agree(r, new_source(op@, path@, content@)),
{
    match op {
        PlanOp::MarkTaskDone { task_number, .. } => {
            return set_todo_state(content, path, true, *task_number);
        },
        PlanOp::UnmarkTaskDone { task_number, .. } => {
            return set_todo_state(content, path, false, *task_number);
        },
        _ => {},
    }
    let doc = match parse_at(content, path) {
        Ok(doc) => doc,
        Err(e) => {
            return Err(e);
        },
    };
    match op {
        PlanOp::ReplaceNoteBody { target, new_body, fingerprint } => {
            match require_contiguous_body(&doc) {
                Ok(_) => {},
                Err(e) => {
                    return Err(e);
                },
            }
            let current = fingerprint::fingerprint(&doc);
            if !current.same(fingerprint) {
                return Err(stale(target));
            }
            splice_body(&doc, new_body.as_str().as_bytes())
        },
        PlanOp::EditNoteSubstring {
            target,
            pattern,
            replacement,
            occurrence,
            expected_count,
            fingerprint,
        } => {
            let body = match require_contiguous_body(&doc) {
                Ok(b) => b,
                Err(e) => {
                    return Err(e);
                },
            };
            if let Some(expected) = fingerprint {
                let current = fingerprint::fingerprint(&doc);
                if !current.same(expected) {
                    return Err(stale(target));
                }
            }
            let new_body = match apply_substring(
                body.as_slice(),
                pattern.as_str().as_bytes(),
                replacement.as_str().as_bytes(),
                occurrence,
                *expected_count,
            ) {
                Ok(b) => b,
                Err(e) => {
                    return Err(e);
                },
            };
            splice_body(&doc, new_body.as_slice())
        },
        PlanOp::EditNoteLines { edits, .. } => {
            let body = match require_contiguous_body(&doc) {
                Ok(b) => b,
                Err(e) => {
                    return Err(e);
                },
            };
            let new_body = match apply_line_edits(body.as_slice(), edits) {
                Ok(b) => b,
                Err(e) => {
                    return Err(e);
                },
            };
            splice_body(&doc, new_body.as_slice())
        },
        PlanOp::RetitleNote { title, .. } => {
            let x = text::chars_of(title.as_str());
            if x.len() > 0 && x[0] == '#' {
                splice_title(&doc, title.as_str().as_bytes())
            } else {
                let line = text::cat2("# ", title.as_str());
                splice_title(&doc, line.as_str().as_bytes())
            }
        },
        PlanOp::EditNoteTags { add, remove, .. } => Ok(apply_tag_edit(&doc, add, remove)),
        _ => Ok(vstd::slice::slice_to_vec(content)),
    }
}

fn edit_file(
    at: &Surroundings,
    state: &mut PlanState,
    probes: &Vec<PathProbe>,
    target: &NoteTarget,
    op: &PlanOp,
) -> (r: Result<OpMeta, NbError>)
    ensures
        state_agrees(
            *old(state),
            *final(state),
            r,
            edited_in_place(scene_in(*at, *old(state), probes@), target@, op@),
        ),
{
    let path = match resolve_target_path(&state.tree, &at.ignored, target) {
        Ok(p) => p,
        Err(e) => {
            return Err(e);
        },
    };
    let before = match state.tree.get_file(path.as_str()) {
        Some(b) => vstd::slice::slice_to_vec(b.as_slice()),
        None => {
            return Err(NbError::NotFound { selector: target.value().to_string() });
        },
    };
    let after = match edit_source(op, path.as_str(), before.as_slice()) {
        Ok(b) => b,
        Err(e) => {
            return Err(e);
        },
    };
    let noop = bytes::equal(after.as_slice(), before.as_slice());
    let fp = match fingerprint_bytes(after.as_slice(), path.as_str()) {
        Ok(f) => f,
        Err(e) => {
            return Err(e);
        },
    };
    state.tree.insert_file(path.as_str(), after);
    state.effects.write(path.as_str());
    let selector = outcome_selector(at.notebook.as_str(), target, path.as_str());
    Ok(
        OpMeta {
            path: Some(path),
            selector: Some(selector),
            noop,
            fingerprint: Some(fp),
            index_edits: no_edits(),
        },
    )
}

/// A text of an option.
fn opt_ref(s: &Option<String>) -> (r: Option<&str>)
    ensures
        text::opt_str(r) == error::opt_text(*s),
{
    match s {
        Some(s) => Some(s.as_str()),
        None => None,
    }
}

/// Check an operation and apply it to the planned state. A refused operation leaves the
/// state as it was.
#[verifier::rlimit(60)]
#[verifier::spinoff_prover]
pub fn validate_and_apply_virtual(
    at: &Surroundings,
    state: &mut PlanState,
    probes: &Vec<PathProbe>,
    op: &PlanOp,
) -> (r: Result<OpMeta, NbError>)
    ensures
        state_agrees(
            *old(state),
            *final(state),
            r,
            applied(scene_in(*at, *old(state), probes@), op@),
        ),
{
    match op {
        PlanOp::AddNote { path, title, content, tags } => {
            let content = build_note_bytes(opt_ref(title), content.as_str(), tags);
            create_file(at, state, probes, path.as_str(), content)
        },
        PlanOp::AddTodo { path, title, description, tasks, tags } => {
            let content = build_todo_bytes(title.as_str(), opt_ref(description), tasks, tags);
            create_file(at, state, probes, path.as_str(), content)
        },
        PlanOp::AddBookmark { path, url, title, tags, comment } => {
            let content = build_bookmark_bytes(url.as_str(), opt_ref(title), tags, opt_ref(comment));
            create_file(at, state, probes, path.as_str(), content)
        },
        PlanOp::AddFolder { path } => create_folder(at, state, probes, path.as_str()),
        PlanOp::DeleteNote { target } => delete_entry(at, state, target, probes),
        PlanOp::MoveNote { target, destination } => move_entry(
            at,
            state,
            probes,
            target,
            destination.as_str(),
        ),
        PlanOp::MarkTaskDone { target, .. } => edit_file(at, state, probes, target, op),
        PlanOp::UnmarkTaskDone { target, .. } => edit_file(at, state, probes, target, op),
        PlanOp::ReplaceNoteBody { target, .. } => edit_file(at, state, probes, target, op),
        PlanOp::EditNoteSubstring { target, .. } => edit_file(at, state, probes, target, op),
        PlanOp::EditNoteLines { target, .. } => edit_file(at, state, probes, target, op),
        PlanOp::RetitleNote { target, .. } => edit_file(at, state, probes, target, op),
        PlanOp::EditNoteTags { target, .. } => edit_file(at, state, probes, target, op),
    }
}

/// A refusal with the number of the operation that it is about.
pub open spec fn annotated(e: NbErrorView, n: u32) -> NbErrorView {
    match e {
        NbErrorView::PathCollision { path, .. } => NbErrorView::PathCollision {
            path,
            plan_index: Some(n),
        },
        NbErrorView::PathIgnored { path, guidance, .. } => NbErrorView::PathIgnored {
            path,
            guidance,
            plan_index: Some(n),
        },
        NbErrorView::FingerprintMismatch { .. } => e,
        NbErrorView::AnchorMismatch { .. } => e,
        NbErrorView::OccurrenceMismatch { .. } => e,
        NbErrorView::OverlappingEdits { .. } => e,
        NbErrorView::FragmentedBody { .. } => e,
        NbErrorView::EmptySubstringPattern => e,
        NbErrorView::NotFound { .. } => e,
        NbErrorView::UnsupportedStructure { .. } => e,
        NbErrorView::PlanValidation { kind, message, .. } => NbErrorView::PlanValidation {
            kind,
            message,
            plan_index: Some(n),
        },
        _ => NbErrorView::PlanValidation {
            kind: "op_failed"@,
            message: error::message(e),
            plan_index: Some(n),
        },
    }
}

/// Put the number of an operation into its refusal.
pub fn annotate_plan_index(err: NbError, n: u32) -> (r: NbError)
    ensures
        r@ == annotated(err@, n),
{
    match err {
        NbError::PathCollision { path, .. } => NbError::PathCollision { path, plan_index: Some(n) },
        NbError::PathIgnored { path, guidance, .. } => NbError::PathIgnored {
            path,
            guidance,
            plan_index: Some(n),
        },
        NbError::FingerprintMismatch { .. } => err,
        NbError::AnchorMismatch { .. } => err,
        NbError::OccurrenceMismatch { .. } => err,
        NbError::OverlappingEdits { .. } => err,
        NbError::FragmentedBody { .. } => err,
        NbError::EmptySubstringPattern => err,
        NbError::NotFound { .. } => err,
        NbError::UnsupportedStructure { .. } => err,
        NbError::PlanValidation { kind, message, .. } => NbError::PlanValidation {
            kind,
            message,
            plan_index: Some(n),
        },
        _ => {
            let message = err.message_text();
            NbError::PlanValidation {
                kind: "op_failed".to_string(),
                message,
                plan_index: Some(n),
            }
        },
    }
}

/// The entry at a path is the same in two trees.
pub open spec fn same_entry(
    a: Map<Seq<char>, Node>,
    b: Map<Seq<char>, Node>,
    p: Seq<char>,
) -> bool {
    a.dom().contains(p) == b.dom().contains(p) && (a.dom().contains(p) ==> a[p] == b[p])
}

/// Whatever an operation changes in the tree is among its effects: a path is written, removed
/// or made as a folder, or it is a folder above one of these.
pub proof fn law_effects_cover_changes(s: Scene, op: Op, p: Seq<char>)
    requires
        applied(s, op) is Ok,
        !same_entry(s.tree, applied(s, op)->Ok_0.tree, p),
    ensures
        ({
            let x = applied(s, op)->Ok_0;
            x.effects.written.contains(p) || x.effects.removed.contains(p)
                || x.effects.mkdirs.contains(p) || (!s.tree.dom().contains(p)
                && x.tree.dom().contains(p) && x.tree[p] is Folder)
        }),
{
    let x = applied(s, op)->Ok_0;
    match op {
        Op::AddNote { path, .. } => {
            tree::lemma_with_parents(s.tree, path, p);
            lemma_pushed(s.effects.written, path);
        },
        Op::AddTodo { path, .. } => {
            tree::lemma_with_parents(s.tree, path, p);
            lemma_pushed(s.effects.written, path);
        },
        Op::AddBookmark { path, .. } => {
            tree::lemma_with_parents(s.tree, path, p);
            lemma_pushed(s.effects.written, path);
        },
        Op::AddFolder { path } => {
            let keep = keep_file(path);
            tree::lemma_with_chain(s.tree, path, p);
            tree::lemma_with_parents(tree::with_folder(s.tree, path), keep, p);
            lemma_pushed(s.effects.written, keep);
            lemma_pushed(s.effects.mkdirs, path);
        },
        Op::DeleteNote { target } => {
            let path = resolve::resolved(s.tree, s.ignored, target)->Ok_0;
            lemma_pushed(s.effects.removed, path);
        },
        Op::MoveNote { target, destination } => {
            let from = resolve::resolved(s.tree, s.ignored, target)->Ok_0;
            let to = resolve::moved_to(from, destination);
            tree::lemma_with_parents(s.tree.remove(from), to, p);
            lemma_pushed(s.effects.removed, from);
            lemma_pushed(s.effects.written, to);
        },
        Op::MarkTaskDone { target, .. } => lemma_edit_covers(s, target, op, p),
        Op::UnmarkTaskDone { target, .. } => lemma_edit_covers(s, target, op, p),
        Op::ReplaceNoteBody { target, .. } => lemma_edit_covers(s, target, op, p),
        Op::EditNoteSubstring { target, .. } => lemma_edit_covers(s, target, op, p),
        Op::EditNoteLines { target, .. } => lemma_edit_covers(s, target, op, p),
        Op::RetitleNote { target, .. } => lemma_edit_covers(s, target, op, p),
        Op::EditNoteTags { target, .. } => lemma_edit_covers(s, target, op, p),
    }
}

proof fn lemma_pushed(v: Seq<Seq<char>>, p: Seq<char>)
    ensures
        v.push(p).contains(p),
{
    assert(v.push(p)[v.len() as int] == p);
}

proof fn lemma_edit_covers(s: Scene, target: Target, op: Op, p: Seq<char>)
    requires
        edited_in_place(s, target, op) is Ok,
        !same_entry(s.tree, edited_in_place(s, target, op)->Ok_0.tree, p),
    ensures
        ({
            let x = edited_in_place(s, target, op)->Ok_0;
            x.effects.written.contains(p) || (!s.tree.dom().contains(p)
                && x.tree.dom().contains(p) && x.tree[p] is Folder)
        }),
{
    let path = resolve::resolved(s.tree, s.ignored, target)->Ok_0;
    tree::lemma_with_parents(s.tree, path, p);
    lemma_pushed(s.effects.written, path);
}

/// The tree holds no path that Git ignores.
pub open spec fn holds_no_ignored(s: Scene) -> bool {
    forall|i: int| 0 <= i < s.ignored.len() ==> !s.tree.dom().contains(#[trigger] s.ignored[i])
}

/// A path that Git ignores is never created.
pub proof fn law_ignored_is_not_created(s: Scene, path: Seq<char>, b: Seq<u8>)
    requires
        s.ignored.contains(path),
    ensures
        created(s, path, b) is Err,
        folder_created(s, path) is Err,
{
}

/// A path that Git ignores is never edited.
pub proof fn law_ignored_is_not_edited(s: Scene, target: Target, op: Op)
    requires
        holds_no_ignored(s),
    ensures
        edited_in_place(s, target, op) matches Ok(x) ==> (x.meta.path matches Some(path)
            && !s.ignored.contains(path)),
{
}

/// A path that Git ignores is never deleted.
pub proof fn law_ignored_is_not_deleted(s: Scene, target: Target)
    requires
        holds_no_ignored(s),
    ensures
        deleted(s, target) matches Ok(x) ==> (x.meta.path matches Some(path)
            && !s.ignored.contains(path)),
{
}

/// A path that Git ignores is neither moved nor moved to.
pub proof fn law_ignored_is_not_moved(s: Scene, target: Target, destination: Seq<char>)
    requires
        holds_no_ignored(s),
    ensures
        moved(s, target, destination) matches Ok(x) ==> (x.meta.path matches Some(path)
            && !s.ignored.contains(path)) && (resolve::resolved(s.tree, s.ignored, target) matches Ok(
            from,
        ) && !s.ignored.contains(from)),
{
}

/// The body of a file is not the one that a fingerprint was taken of.
pub open spec fn stale_for(b: Seq<u8>, path: Seq<char>, fingerprint: Seq<char>) -> bool {
    parser::parsed_at(b, path) matches Ok(doc) && fingerprint::blake3_hex(doc.body())
        != fingerprint
}

/// The refusal of an edit of a file whose body is in several pieces, or else is stale.
pub open spec fn stale_refusal(b: Seq<u8>, path: Seq<char>, target: Target) -> NbErrorView {
    match lines::contiguous_body(parser::parsed_at(b, path)->Ok_0) {
        Err(e) => e,
        Ok(_) => stale_body(target),
    }
}

/// A body that has changed since it was read is neither replaced nor edited: the fingerprint
/// does not match. Only a body in several pieces is refused for that reason first.
pub proof fn law_stale_body_is_refused(op: Op, path: Seq<char>, b: Seq<u8>)
    ensures
        op matches Op::ReplaceNoteBody { target, fingerprint, .. } ==> (stale_for(
            b,
            path,
            fingerprint,
        ) ==> new_source(op, path, b) == Err::<Seq<u8>, NbErrorView>(
            stale_refusal(b, path, target),
        )),
        op matches Op::EditNoteSubstring { target, fingerprint: Some(hash), .. } ==> (stale_for(
            b,
            path,
            hash,
        ) ==> new_source(op, path, b) == Err::<Seq<u8>, NbErrorView>(
            stale_refusal(b, path, target),
        )),
{
}

/// Within one plan, what was created at a path is not created there again.
pub proof fn law_second_creation_is_refused(s: Scene, path: Seq<char>, b: Seq<u8>, again: Seq<u8>)
    requires
        created(s, path, b) is Ok,
    ensures
        ({
            let x = created(s, path, b)->Ok_0;
            created(Scene { tree: x.tree, effects: x.effects, ..s }, path, again) == Err::<
                Applied,
                NbErrorView,
            >(NbErrorView::PathCollision { path, plan_index: None })
        }),
{
}

} // verus!
