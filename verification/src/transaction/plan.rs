//! The plan of a transaction: operations are collected first and applied together.

use crate::bytes;
use crate::error;
use crate::error::{NbError, NbErrorView};
use crate::fingerprint::Fingerprint;
use crate::paths;
use crate::paths::{normalize_rel, without_leading};
use crate::text;
use crate::transaction::names;
use crate::transaction::names::{
    detect_duplicate_title_heading, validate_create_path, validate_target,
};
use crate::transaction::resolve;
use crate::types::{LineEdit, NoteTarget, Occurrence, Target};
use vstd::prelude::*;

verus! {

/// A planned operation.
#[allow(inconsistent_fields)]
#[derive(Debug)]
pub enum PlanOp {
    AddNote { path: String, title: Option<String>, content: String, tags: Vec<String> },
    AddTodo {
        path: String,
        title: String,
        description: Option<String>,
        tasks: Vec<String>,
        tags: Vec<String>,
    },
    AddBookmark {
        path: String,
        url: String,
        title: Option<String>,
        tags: Vec<String>,
        comment: Option<String>,
    },
    AddFolder { path: String },
    DeleteNote { target: NoteTarget },
    MoveNote { target: NoteTarget, destination: String },
    MarkTaskDone { target: NoteTarget, task_number: Option<u32> },
    UnmarkTaskDone { target: NoteTarget, task_number: Option<u32> },
    ReplaceNoteBody { target: NoteTarget, new_body: String, fingerprint: Fingerprint },
    EditNoteSubstring {
        target: NoteTarget,
        pattern: String,
        replacement: String,
        occurrence: Occurrence,
        expected_count: u32,
        fingerprint: Option<Fingerprint>,
    },
    EditNoteLines { target: NoteTarget, edits: Vec<LineEdit> },
    RetitleNote { target: NoteTarget, title: String },
    EditNoteTags { target: NoteTarget, add: Vec<String>, remove: Vec<String> },
}

/// The model of a [`PlanOp`].
#[allow(inconsistent_fields)]
pub enum Op {
    AddNote {
        path: Seq<char>,
        title: Option<Seq<char>>,
        content: Seq<char>,
        tags: Seq<Seq<char>>,
    },
    AddTodo {
        path: Seq<char>,
        title: Seq<char>,
        description: Option<Seq<char>>,
        tasks: Seq<Seq<char>>,
        tags: Seq<Seq<char>>,
    },
    AddBookmark {
        path: Seq<char>,
        url: Seq<char>,
        title: Option<Seq<char>>,
        tags: Seq<Seq<char>>,
        comment: Option<Seq<char>>,
    },
    AddFolder { path: Seq<char> },
    DeleteNote { target: Target },
    MoveNote { target: Target, destination: Seq<char> },
    MarkTaskDone { target: Target, task_number: Option<u32> },
    UnmarkTaskDone { target: Target, task_number: Option<u32> },
    ReplaceNoteBody { target: Target, new_body: Seq<char>, fingerprint: Seq<char> },
    EditNoteSubstring {
        target: Target,
        pattern: Seq<char>,
        replacement: Seq<char>,
        occurrence: Occurrence,
        expected_count: u32,
        fingerprint: Option<Seq<char>>,
    },
    EditNoteLines { target: Target, edits: Seq<LineEdit> },
    RetitleNote { target: Target, title: Seq<char> },
    EditNoteTags { target: Target, add: Seq<Seq<char>>, remove: Seq<Seq<char>> },
}

/// The hexadecimal part of an optional fingerprint.
pub open spec fn opt_hex(f: Option<Fingerprint>) -> Option<Seq<char>> {
    match f {
        Some(f) => Some(f@),
        None => None,
    }
}

impl View for PlanOp {
    type V = Op;

    open spec fn view(&self) -> Op {
        match *self {
            PlanOp::AddNote { path, title, content, tags } => Op::AddNote {
                path: path@,
                title: error::opt_text(title),
                content: content@,
                tags: text::texts(tags@),
            },
            PlanOp::AddTodo { path, title, description, tasks, tags } => Op::AddTodo {
                path: path@,
                title: title@,
                description: error::opt_text(description),
                tasks: text::texts(tasks@),
                tags: text::texts(tags@),
            },
            PlanOp::AddBookmark { path, url, title, tags, comment } => Op::AddBookmark {
                path: path@,
                url: url@,
                title: error::opt_text(title),
                tags: text::texts(tags@),
                comment: error::opt_text(comment),
            },
            PlanOp::AddFolder { path } => Op::AddFolder { path: path@ },
            PlanOp::DeleteNote { target } => Op::DeleteNote { target: target@ },
            PlanOp::MoveNote { target, destination } => Op::MoveNote {
                target: target@,
                destination: destination@,
            },
            PlanOp::MarkTaskDone { target, task_number } => Op::MarkTaskDone {
                target: target@,
                task_number,
            },
            PlanOp::UnmarkTaskDone { target, task_number } => Op::UnmarkTaskDone {
                target: target@,
                task_number,
            },
            PlanOp::ReplaceNoteBody { target, new_body, fingerprint } => Op::ReplaceNoteBody {
                target: target@,
                new_body: new_body@,
                fingerprint: fingerprint@,
            },
            PlanOp::EditNoteSubstring {
                target,
                pattern,
                replacement,
                occurrence,
                expected_count,
                fingerprint,
            } => Op::EditNoteSubstring {
                target: target@,
                pattern: pattern@,
                replacement: replacement@,
                occurrence,
                expected_count,
                fingerprint: opt_hex(fingerprint),
            },
            PlanOp::EditNoteLines { target, edits } => Op::EditNoteLines {
                target: target@,
                edits: edits@,
            },
            PlanOp::RetitleNote { target, title } => Op::RetitleNote {
                target: target@,
                title: title@,
            },
            PlanOp::EditNoteTags { target, add, remove } => Op::EditNoteTags {
                target: target@,
                add: text::texts(add@),
                remove: text::texts(remove@),
            },
        }
    }
}

/// The models of planned operations.
pub open spec fn ops(v: Seq<PlanOp>) -> Seq<Op> {
    v.map_values(|op: PlanOp| op@)
}

/// The checked path of a new entry, or the refusal.
pub open spec fn create_path(path: Seq<char>, file: bool) -> Result<Seq<char>, NbErrorView> {
    match names::create_path_fault(path, file) {
        Some(reason) => Err(error::invalid(reason)),
        None => Ok(paths::normalized(text::trim(path))),
    }
}

/// The operation that adds a note, or the refusal.
pub open spec fn note_op(
    path: Seq<char>,
    title: Option<Seq<char>>,
    content: Seq<char>,
    tags: Seq<Seq<char>>,
) -> Result<Op, NbErrorView> {
    match create_path(path, true) {
        Err(e) => Err(e),
        Ok(path) => match title {
            Some(t) => match names::duplicate_heading(t, content) {
                Some(heading) => Err(NbErrorView::DuplicateTitleHeading { title: t, heading }),
                None => Ok(Op::AddNote { path, title, content, tags }),
            },
            None => Ok(Op::AddNote { path, title, content, tags }),
        },
    }
}

/// The operation that adds a task, or the refusal.
pub open spec fn todo_op(
    path: Seq<char>,
    title: Seq<char>,
    description: Option<Seq<char>>,
    tasks: Seq<Seq<char>>,
    tags: Seq<Seq<char>>,
) -> Result<Op, NbErrorView> {
    match create_path(path, true) {
        Err(e) => Err(e),
        Ok(path) => if text::trim(title).len() == 0 {
            Err(error::invalid("todo title must not be empty"@))
        } else {
            Ok(Op::AddTodo { path, title, description, tasks, tags })
        },
    }
}

/// The operation that adds a bookmark, or the refusal.
pub open spec fn bookmark_op(
    path: Seq<char>,
    url: Seq<char>,
    title: Option<Seq<char>>,
    tags: Seq<Seq<char>>,
    comment: Option<Seq<char>>,
) -> Result<Op, NbErrorView> {
    match create_path(path, true) {
        Err(e) => Err(e),
        Ok(path) => if text::trim(url).len() == 0 {
            Err(error::invalid("bookmark url must not be empty"@))
        } else {
            Ok(Op::AddBookmark { path, url, title, tags, comment })
        },
    }
}

/// The operation that adds a folder, or the refusal.
pub open spec fn folder_op(path: Seq<char>) -> Result<Op, NbErrorView> {
    match create_path(path, false) {
        Err(e) => Err(e),
        Ok(path) => Ok(Op::AddFolder { path }),
    }
}

/// An operation on a target, or the refusal of an empty target.
pub open spec fn target_op(target: Target, op: Op) -> Result<Op, NbErrorView> {
    if text::trim(target.value()).len() == 0 {
        Err(error::invalid("note target must not be empty"@))
    } else {
        Ok(op)
    }
}

/// An operation on a target that has a refusal of its own, checked after the target.
pub open spec fn checked_op(target: Target, fault: Option<NbErrorView>, op: Op) -> Result<
    Op,
    NbErrorView,
> {
    match target_op(target, op) {
        Err(e) => Err(e),
        Ok(op) => match fault {
            Some(e) => Err(e),
            None => Ok(op),
        },
    }
}

/// A planned destination: normalized, with the slash that marks a folder kept.
pub open spec fn destination_of(destination: Seq<char>) -> Seq<char> {
    let d = paths::normalized(destination);
    if resolve::into_folder(destination) {
        d.push('/')
    } else {
        d
    }
}

/// What is wrong with a destination.
pub open spec fn destination_fault(destination: Seq<char>) -> Option<NbErrorView> {
    let d = paths::normalized(destination);
    if d.len() == 0 || text::find_text(d, ".."@, 0) is Some {
        Some(error::invalid("invalid move destination"@))
    } else {
        None
    }
}

/// Tags without leading `#`s.
pub open spec fn tag_keys(tags: Seq<Seq<char>>) -> Seq<Seq<char>> {
    tags.map_values(|t: Seq<char>| paths::strip_leading(t, '#'))
}

/// The test for a text of a list.
pub open spec fn listed_in(items: Seq<Seq<char>>) -> spec_fn(Seq<char>) -> bool {
    |t: Seq<char>| items.contains(t)
}

/// What is wrong with a tag edit: a tag that is both added and removed.
pub open spec fn tag_edit_fault(add: Seq<Seq<char>>, remove: Seq<Seq<char>>) -> Option<
    NbErrorView,
> {
    let keys = tag_keys(remove);
    let at = bytes::find_from(keys, listed_in(tag_keys(add)), 0);
    if at < keys.len() {
        Some(error::invalid("contradictory tag add/remove for `"@ + keys[at] + "`"@))
    } else {
        None
    }
}

/// The refusal of an empty batch of line edits.
pub open spec fn batch_fault(n: nat) -> Option<NbErrorView> {
    if n == 0 {
        Some(error::invalid("edit_note_lines requires a non-empty edits batch"@))
    } else {
        None
    }
}

/// The refusal of an empty pattern.
pub open spec fn pattern_fault(pattern: Seq<char>) -> Option<NbErrorView> {
    if pattern.len() == 0 {
        Some(NbErrorView::EmptySubstringPattern)
    } else {
        None
    }
}

/// Tags without leading `#`s.
fn tag_keys_of(tags: &[String]) -> (r: Vec<String>)
    ensures
        text::texts(r@) == tag_keys(text::texts(tags@)),
{
    let mut out: Vec<String> = Vec::new();
    let mut i: usize = 0;
    while i < tags.len()
        invariant
            i <= tags.len(),
            out@.len() == i,
            forall|k: int|
                0 <= k < i ==> (#[trigger] out@[k])@ == paths::strip_leading(tags@[k]@, '#'),
        decreases tags.len() - i,
    {
        out.push(without_leading(tags[i].as_str(), '#'));
        i += 1;
    }
    assert(text::texts(out@) =~= tag_keys(text::texts(tags@)));
    out
}

/// Check that no tag is both added and removed.
fn check_tag_edit(add: &[String], remove: &[String]) -> (r: Result<(), NbError>)
    ensures
        match r {
            Ok(()) => tag_edit_fault(text::texts(add@), text::texts(remove@)) is None,
            Err(e) => tag_edit_fault(text::texts(add@), text::texts(remove@)) == Some(e@),
        },
{
    let added = tag_keys_of(add);
    let removed = tag_keys_of(remove);
    let ghost keys = text::texts(removed@);
    let ghost test = listed_in(text::texts(added@));
    let mut i: usize = 0;
    while i < removed.len()
        invariant
            i <= removed.len(),
            keys == text::texts(removed@),
            test == listed_in(text::texts(added@)),
            forall|k: int| 0 <= k < i ==> !test(#[trigger] keys[k]),
            text::texts(added@) == tag_keys(text::texts(add@)),
            keys == tag_keys(text::texts(remove@)),
        decreases removed.len() - i,
    {
        assert(keys[i as int] == removed@[i as int]@);
        if text::list_contains(&added, removed[i].as_str()) {
            proof {
                bytes::lemma_find_from_is(keys, test, 0, i as int);
            }
            let reason = text::cat3(
                "contradictory tag add/remove for `",
                removed[i].as_str(),
                "`",
            );
            return Err(NbError::invalid(reason.as_str()));
        }
        i += 1;
    }
    proof {
        assert(keys.len() == removed@.len());
        bytes::lemma_find_from_is(keys, test, 0, i as int);
    }
    Ok(())
}

/// A copy of an optional text.
fn owned(s: Option<&str>) -> (r: Option<String>)
    ensures
        error::opt_text(r) == text::opt_str(s),
{
    match s {
        Some(s) => Some(s.to_string()),
        None => None,
    }
}

/// An in-memory plan for one notebook. Dropping it discards it.
#[derive(Debug)]
pub struct Transaction {
    notebook: String,
    plan: Vec<PlanOp>,
    gate_timeout_ms: u64,
}

/// The model of a [`Transaction`].
pub struct Planned {
    pub notebook: Seq<char>,
    pub plan: Seq<Op>,
    pub gate_timeout_ms: u64,
}

impl View for Transaction {
    type V = Planned;

    closed spec fn view(&self) -> Planned {
        Planned {
            notebook: self.notebook@,
            plan: ops(self.plan@),
            gate_timeout_ms: self.gate_timeout_ms,
        }
    }
}

/// What planning an operation does: an accepted one stands at the end of the plan, a refused
/// one leaves the plan alone.
pub open spec fn planned(
    before: Planned,
    after: Planned,
    r: Result<(), NbError>,
    model: Result<Op, NbErrorView>,
) -> bool {
    match r {
        Ok(()) => model matches Ok(op) && after == (Planned { plan: before.plan.push(op), ..before }),
        Err(e) => model matches Err(x) && x == e@ && after == before,
    }
}

impl Transaction {
    /// An empty plan.
    pub fn new(notebook: &str, gate_timeout_ms: u64) -> (r: Self)
        ensures
            r@ == (Planned { notebook: notebook@, plan: Seq::empty(), gate_timeout_ms }),
    {
        let r = Transaction { notebook: notebook.to_string(), plan: Vec::new(), gate_timeout_ms };
        assert(r@.plan =~= Seq::<Op>::empty());
        r
    }

    /// The notebook of the plan.
    pub fn notebook(&self) -> (r: &str)
        ensures
            r@ == self@.notebook,
    {
        self.notebook.as_str()
    }

    /// How long to wait for the notebook, in milliseconds.
    pub fn gate_timeout_ms(&self) -> (r: u64)
        ensures
            r == self@.gate_timeout_ms,
    {
        self.gate_timeout_ms
    }

    /// The number of planned operations.
    pub fn len(&self) -> (r: usize)
        ensures
            r == self@.plan.len(),
    {
        self.plan.len()
    }

    /// A planned operation.
    pub fn op(&self, i: usize) -> (r: &PlanOp)
        requires
            i < self@.plan.len(),
        ensures
            r@ == self@.plan[i as int],
    {
        &self.plan[i]
    }

    fn append(&mut self, op: PlanOp)
        ensures
            final(self)@ == (Planned { plan: old(self)@.plan.push(op@), ..old(self)@ }),
    {
        let ghost before = self.plan@;
        self.plan.push(op);
        assert(ops(self.plan@) =~= ops(before).push(op@));
    }

    /// Plan a new note at a path with a file name.
    pub fn add_note(
        &mut self,
        path: &str,
        title: Option<&str>,
        content: &str,
        tags: &[String],
    ) -> (r: Result<(), NbError>)
        ensures
            planned(
                old(self)@,
                final(self)@,
                r,
                note_op(path@, text::opt_str(title), content@, text::texts(tags@)),
            ),
    {
        let path = match validate_create_path(path, true) {
            Ok(p) => p,
            Err(e) => {
                return Err(e);
            },
        };
        if let Some(t) = title {
            match detect_duplicate_title_heading(t, content) {
                Some(heading) => {
                    return Err(NbError::DuplicateTitleHeading { title: t.to_string(), heading });
                },
                None => {},
            }
        }
        self.append(
            PlanOp::AddNote {
                path,
                title: owned(title),
                content: content.to_string(),
                tags: text::copied(tags),
            },
        );
        Ok(())
    }

    /// Plan a new task.
    pub fn add_todo(
        &mut self,
        path: &str,
        title: &str,
        description: Option<&str>,
        tasks: &[String],
        tags: &[String],
    ) -> (r: Result<(), NbError>)
        ensures
            planned(
                old(self)@,
                final(self)@,
                r,
                todo_op(
                    path@,
                    title@,
                    text::opt_str(description),
                    text::texts(tasks@),
                    text::texts(tags@),
                ),
            ),
    {
        let path = match validate_create_path(path, true) {
            Ok(p) => p,
            Err(e) => {
                return Err(e);
            },
        };
        if text::trimmed(title).is_empty() {
            return Err(NbError::invalid("todo title must not be empty"));
        }
        self.append(
            PlanOp::AddTodo {
                path,
                title: title.to_string(),
                description: owned(description),
                tasks: text::copied(tasks),
                tags: text::copied(tags),
            },
        );
        Ok(())
    }

    /// Plan a new bookmark.
    pub fn add_bookmark(
        &mut self,
        path: &str,
        url: &str,
        title: Option<&str>,
        tags: &[String],
        comment: Option<&str>,
    ) -> (r: Result<(), NbError>)
        ensures
            planned(
                old(self)@,
                final(self)@,
                r,
                bookmark_op(
                    path@,
                    url@,
                    text::opt_str(title),
                    text::texts(tags@),
                    text::opt_str(comment),
                ),
            ),
    {
        let path = match validate_create_path(path, true) {
            Ok(p) => p,
            Err(e) => {
                return Err(e);
            },
        };
        if text::trimmed(url).is_empty() {
            return Err(NbError::invalid("bookmark url must not be empty"));
        }
        self.append(
            PlanOp::AddBookmark {
                path,
                url: url.to_string(),
                title: owned(title),
                tags: text::copied(tags),
                comment: owned(comment),
            },
        );
        Ok(())
    }

    /// Plan a new folder.
    pub fn add_folder(&mut self, path: &str) -> (r: Result<(), NbError>)
        ensures
            planned(old(self)@, final(self)@, r, folder_op(path@)),
    {
        let path = match validate_create_path(path, false) {
            Ok(p) => p,
            Err(e) => {
                return Err(e);
            },
        };
        self.append(PlanOp::AddFolder { path });
        Ok(())
    }

    /// Plan the deletion of a note.
    pub fn delete_note(&mut self, target: NoteTarget) -> (r: Result<(), NbError>)
        ensures
            planned(
                old(self)@,
                final(self)@,
                r,
                target_op(target@, Op::DeleteNote { target: target@ }),
            ),
    {
        match validate_target(&target) {
            Ok(()) => {},
            Err(e) => {
                return Err(e);
            },
        }
        self.append(PlanOp::DeleteNote { target });
        Ok(())
    }

    /// Plan the move of a note. A destination with a slash at its end is a folder.
    pub fn move_note(&mut self, target: NoteTarget, destination: &str) -> (r: Result<(), NbError>)
        ensures
            planned(
                old(self)@,
                final(self)@,
                r,
                checked_op(
                    target@,
                    destination_fault(destination@),
                    Op::MoveNote { target: target@, destination: destination_of(destination@) },
                ),
            ),
    {
        match validate_target(&target) {
            Ok(()) => {},
            Err(e) => {
                return Err(e);
            },
        }
        let mut dest = normalize_rel(destination);
        if dest.as_str().is_empty() || text::find_text_in(dest.as_str(), "..").is_some() {
            return Err(NbError::invalid("invalid move destination"));
        }
        if resolve::is_into_folder(destination) {
            dest.push('/');
        }
        self.append(PlanOp::MoveNote { target, destination: dest });
        Ok(())
    }

    /// Plan that a task, or its checklist item with a number from 1, is done.
    pub fn mark_task_done(&mut self, target: NoteTarget, task_number: Option<u32>) -> (r: Result<
        (),
        NbError,
    >)
        ensures
            planned(
                old(self)@,
                final(self)@,
                r,
                target_op(target@, Op::MarkTaskDone { target: target@, task_number }),
            ),
    {
        match validate_target(&target) {
            Ok(()) => {},
            Err(e) => {
                return Err(e);
            },
        }
        self.append(PlanOp::MarkTaskDone { target, task_number });
        Ok(())
    }

    /// Plan that a task, or its checklist item with a number from 1, is open again.
    pub fn unmark_task_done(&mut self, target: NoteTarget, task_number: Option<u32>) -> (r: Result<
        (),
        NbError,
    >)
        ensures
            planned(
                old(self)@,
                final(self)@,
                r,
                target_op(target@, Op::UnmarkTaskDone { target: target@, task_number }),
            ),
    {
        match validate_target(&target) {
            Ok(()) => {},
            Err(e) => {
                return Err(e);
            },
        }
        self.append(PlanOp::UnmarkTaskDone { target, task_number });
        Ok(())
    }

    /// Plan a new body, provided that the old one still has the given fingerprint.
    pub fn replace_note_body(
        &mut self,
        target: NoteTarget,
        new_body: &str,
        fingerprint: Fingerprint,
    ) -> (r: Result<(), NbError>)
        ensures
            planned(
                old(self)@,
                final(self)@,
                r,
                target_op(
                    target@,
                    Op::ReplaceNoteBody {
                        target: target@,
                        new_body: new_body@,
                        fingerprint: fingerprint@,
                    },
                ),
            ),
    {
        match validate_target(&target) {
            Ok(()) => {},
            Err(e) => {
                return Err(e);
            },
        }
        self.append(
            PlanOp::ReplaceNoteBody { target, new_body: new_body.to_string(), fingerprint },
        );
        Ok(())
    }

    /// Plan the replacement of a pattern, provided that it occurs as often as expected.
    pub fn edit_note_substring(
        &mut self,
        target: NoteTarget,
        pattern: &str,
        replacement: &str,
        occurrence: Occurrence,
        expected_count: u32,
        fingerprint: Option<Fingerprint>,
    ) -> (r: Result<(), NbError>)
        ensures
            planned(
                old(self)@,
                final(self)@,
                r,
                checked_op(
                    target@,
                    pattern_fault(pattern@),
                    Op::EditNoteSubstring {
                        target: target@,
                        pattern: pattern@,
                        replacement: replacement@,
                        occurrence,
                        expected_count,
                        fingerprint: opt_hex(fingerprint),
                    },
                ),
            ),
    {
        match validate_target(&target) {
            Ok(()) => {},
            Err(e) => {
                return Err(e);
            },
        }
        if pattern.is_empty() {
            return Err(NbError::EmptySubstringPattern);
        }
        self.append(
            PlanOp::EditNoteSubstring {
                target,
                pattern: pattern.to_string(),
                replacement: replacement.to_string(),
                occurrence,
                expected_count,
                fingerprint,
            },
        );
        Ok(())
    }

    /// Plan a batch of line edits.
    pub fn edit_note_lines(&mut self, target: NoteTarget, edits: Vec<LineEdit>) -> (r: Result<
        (),
        NbError,
    >)
        ensures
            planned(
                old(self)@,
                final(self)@,
                r,
                checked_op(
                    target@,
                    batch_fault(edits@.len()),
                    Op::EditNoteLines { target: target@, edits: edits@ },
                ),
            ),
    {
        match validate_target(&target) {
            Ok(()) => {},
            Err(e) => {
                return Err(e);
            },
        }
        if edits.len() == 0 {
            return Err(NbError::invalid("edit_note_lines requires a non-empty edits batch"));
        }
        self.append(PlanOp::EditNoteLines { target, edits });
        Ok(())
    }

    /// Plan a new title.
    pub fn retitle_note(&mut self, target: NoteTarget, title: &str) -> (r: Result<(), NbError>)
        ensures
            planned(
                old(self)@,
                final(self)@,
                r,
                target_op(target@, Op::RetitleNote { target: target@, title: title@ }),
            ),
    {
        match validate_target(&target) {
            Ok(()) => {},
            Err(e) => {
                return Err(e);
            },
        }
        self.append(PlanOp::RetitleNote { target, title: title.to_string() });
        Ok(())
    }

    /// Plan a change of tags. No tag may be both added and removed.
    pub fn edit_note_tags(&mut self, target: NoteTarget, add: &[String], remove: &[String]) -> (r:
        Result<(), NbError>)
        ensures
            planned(
                old(self)@,
                final(self)@,
                r,
                checked_op(
                    target@,
                    tag_edit_fault(text::texts(add@), text::texts(remove@)),
                    Op::EditNoteTags {
                        target: target@,
                        add: text::texts(add@),
                        remove: text::texts(remove@),
                    },
                ),
            ),
    {
        match validate_target(&target) {
            Ok(()) => {},
            Err(e) => {
                return Err(e);
            },
        }
        match check_tag_edit(add, remove) {
            Ok(()) => {},
            Err(e) => {
                return Err(e);
            },
        }
        self.append(
            PlanOp::EditNoteTags { target, add: text::copied(add), remove: text::copied(remove) },
        );
        Ok(())
    }
}

} // verus!
