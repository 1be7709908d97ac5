//! Values that cross the library's boundary.

use crate::bytes::{CR, LF};
use crate::error;
use crate::fingerprint;
use crate::fingerprint::Fingerprint;
use crate::parser::document::{DocumentKind, TodoState};
use crate::text;
use vstd::prelude::*;

verus! {

/// Which note an operation is about.
#[derive(Debug, Clone, PartialEq, Eq)]
pub enum NoteTarget {
    /// An `nb` selector: an id, a title or a path, with or without a notebook.
    Selector { value: String },
    /// A notebook-relative path.
    Path { value: String },
}

/// The model of a [`NoteTarget`].
pub enum Target {
    Selector { value: Seq<char> },
    Path { value: Seq<char> },
}

impl Target {
    /// The selector or path.
    pub open spec fn value(self) -> Seq<char> {
        match self {
            Target::Selector { value } => value,
            Target::Path { value } => value,
        }
    }
}

impl View for NoteTarget {
    type V = Target;

    open spec fn view(&self) -> Target {
        match *self {
            NoteTarget::Selector { value } => Target::Selector { value: value@ },
            NoteTarget::Path { value } => Target::Path { value: value@ },
        }
    }
}

/// The `Debug` form of a target.
pub open spec fn target_text(t: Target) -> Seq<char> {
    match t {
        Target::Selector { value } => "Selector { value: "@ + text::debug_text(value) + " }"@,
        Target::Path { value } => "Path { value: "@ + text::debug_text(value) + " }"@,
    }
}

impl NoteTarget {
    /// The target at a notebook-relative path.
    pub fn path(value: &str) -> (r: Self)
        ensures
            r@ == (Target::Path { value: value@ }),
    {
        NoteTarget::Path { value: value.to_string() }
    }

    /// The selector or path as it was given.
    pub fn value(&self) -> (r: &str)
        ensures
            r@ == self@.value(),
    {
        match self {
            NoteTarget::Selector { value } => value.as_str(),
            NoteTarget::Path { value } => value.as_str(),
        }
    }

    /// A copy with the same model.
    pub fn duplicate(&self) -> (r: Self)
        ensures
            r@ == self@,
    {
        match self {
            NoteTarget::Selector { value } => NoteTarget::Selector { value: value.clone() },
            NoteTarget::Path { value } => NoteTarget::Path { value: value.clone() },
        }
    }

    /// The `Debug` form.
    pub fn debug_form(&self) -> (r: String)
        ensures
            r@ == target_text(self@),
    {
        match self {
            NoteTarget::Selector { value } => {
                let quoted = text::debug_str(value.as_str());
                text::cat3("Selector { value: ", quoted.as_str(), " }")
            },
            NoteTarget::Path { value } => {
                let quoted = text::debug_str(value.as_str());
                text::cat3("Path { value: ", quoted.as_str(), " }")
            },
        }
    }
}

/// How a body ends its lines.
#[derive(Debug, Clone, Copy, PartialEq, Eq, Structural)]
pub enum LineEol {
    Lf,
    CrLf,
}

/// The bytes of a line ending.
pub open spec fn eol_bytes(e: LineEol) -> Seq<u8> {
    match e {
        LineEol::Lf => seq![LF],
        LineEol::CrLf => seq![CR, LF],
    }
}

impl LineEol {
    /// The bytes of the line ending.
    pub fn to_bytes(&self) -> (r: Vec<u8>)
        ensures
            r@ == eol_bytes(*self),
    {
        let mut out: Vec<u8> = Vec::new();
        match self {
            LineEol::Lf => {
                out.push(LF);
            },
            LineEol::CrLf => {
                out.push(CR);
                out.push(LF);
            },
        }
        assert(out@ =~= eol_bytes(*self));
        out
    }
}

/// The anchor of a line with the given bytes.
pub open spec fn anchor_of(line: Seq<u8>) -> Seq<char> {
    "b3l1:"@ + fingerprint::blake3_hex(line)
}

/// A token that authenticates the bytes of one line.
#[derive(Debug, PartialEq, Eq, Hash)]
pub struct LineAnchor {
    text: String,
}

impl View for LineAnchor {
    type V = Seq<char>;

    closed spec fn view(&self) -> Seq<char> {
        self.text@
    }
}

impl Clone for LineAnchor {
    fn clone(&self) -> (r: Self)
        ensures
            r@ == self@,
    {
        LineAnchor { text: self.text.clone() }
    }
}

impl LineAnchor {
    /// The anchor of a line with the given bytes.
    pub fn from_line_bytes(line: &[u8]) -> (r: Self)
        ensures
            r@ == anchor_of(line@),
    {
        let hex = fingerprint::blake3_hex_of(line);
        LineAnchor { text: text::cat2("b3l1:", hex.as_str()) }
    }

    /// An anchor that was read elsewhere.
    pub fn from_text(token: &str) -> (r: Self)
        ensures
            r@ == token@,
    {
        LineAnchor { text: token.to_string() }
    }

    /// The text of the anchor.
    pub fn as_str(&self) -> (r: &str)
        ensures
            r@ == self@,
    {
        self.text.as_str()
    }

    /// Whether two anchors are equal.
    pub fn same(&self, other: &LineAnchor) -> (r: bool)
        ensures
            r == (self@ == other@),
    {
        text::equal(self.text.as_str(), other.text.as_str())
    }
}

/// A line as it was read: its number, from 1, and its anchor.
#[derive(Debug, Clone, PartialEq, Eq)]
pub struct LineRef {
    pub number: u32,
    pub anchor: LineAnchor,
}

/// The ends of a body.
#[derive(Debug, Clone, Copy, PartialEq, Eq, Structural)]
pub enum BoundaryAt {
    /// Before the first line.
    Caret,
    /// After the last line.
    Dollar,
}

/// Where lines are inserted.
#[derive(Debug, Clone, PartialEq, Eq)]
pub enum LinePosition {
    Boundary { at: BoundaryAt },
    Before { line: LineRef },
    After { line: LineRef },
}

/// One edit of a batch of line edits. Content is bare text, without a final line ending.
#[allow(inconsistent_fields)]
#[derive(Debug, Clone, PartialEq, Eq)]
pub enum LineEdit {
    Insert { at: LinePosition, content: String },
    Delete { start: LineRef, end: LineRef },
    Replace { start: LineRef, end: LineRef, content: String },
}

/// Which occurrences of a pattern are meant.
#[derive(Debug, Clone, Copy, PartialEq, Eq, Structural)]
pub enum Occurrence {
    First,
    All,
    /// The n-th, from 1.
    Nth { n: u32 },
}

/// A body line as it is shown.
#[derive(Debug, Clone, PartialEq, Eq)]
pub struct NoteLine {
    pub number: u32,
    pub anchor: LineAnchor,
    pub text: String,
}

/// A match inside a body line.
#[derive(Debug, Clone, PartialEq, Eq)]
pub struct NoteLineHit {
    pub number: u32,
    pub anchor: LineAnchor,
    pub start_byte: u32,
    pub end_byte: u32,
    pub text: Option<String>,
}

/// A piece of a body as it is shown.
#[derive(Debug, Clone, PartialEq, Eq)]
pub struct BodyFragment {
    pub index: u32,
    pub bytes: String,
    /// Where the piece stands in the source.
    pub start_byte: u32,
    pub end_byte: u32,
}

/// A note as it is shown.
#[derive(Debug)]
pub struct ShowNote {
    /// The numeric selector where the note has an id, else the one that was asked for.
    pub selector: String,
    pub path: String,
    pub kind: DocumentKind,
    pub todo_state: Option<TodoState>,
    /// The title line.
    pub title: Option<String>,
    /// The title without marks.
    pub title_text: Option<String>,
    pub tags: Vec<String>,
    pub body_fragments: Vec<BodyFragment>,
    pub body_contiguous: bool,
    pub body: String,
    pub fingerprint: Fingerprint,
    pub source: String,
    pub numeric_id: Option<u32>,
}

/// A window of the body lines of a note.
#[derive(Debug)]
pub struct ShowNoteLines {
    pub selector: String,
    pub path: String,
    pub kind: DocumentKind,
    pub total_lines: u32,
    pub offset: u32,
    pub limit: u32,
    /// Where the next window starts, if there is one.
    pub next_offset: Option<u32>,
    pub lines: Vec<NoteLine>,
    pub title: Option<String>,
    pub tags: Vec<String>,
    pub body_fingerprint: Fingerprint,
    pub eol: Option<LineEol>,
    pub has_final_eol: bool,
    pub numeric_id: Option<u32>,
}

/// The matches of a pattern in the body lines of a note.
#[derive(Debug)]
pub struct SearchNoteLines {
    pub selector: String,
    pub path: String,
    pub kind: DocumentKind,
    pub hits: Vec<NoteLineHit>,
    pub body_fingerprint: Fingerprint,
}

/// What became of one planned operation.
#[derive(Debug)]
pub struct OpOutcome {
    /// The number of the operation in the plan, from 0.
    pub index: u32,
    pub path: Option<String>,
    pub selector: Option<String>,
    pub numeric_id: Option<u32>,
    pub noop: bool,
    pub fingerprint: Option<Fingerprint>,
}

/// The model of an [`OpOutcome`].
pub struct Outcome {
    pub index: u32,
    pub path: Option<Seq<char>>,
    pub selector: Option<Seq<char>>,
    pub numeric_id: Option<u32>,
    pub noop: bool,
    pub fingerprint: Option<Seq<char>>,
}

impl View for OpOutcome {
    type V = Outcome;

    open spec fn view(&self) -> Outcome {
        Outcome {
            index: self.index,
            path: error::opt_text(self.path),
            selector: error::opt_text(self.selector),
            numeric_id: self.numeric_id,
            noop: self.noop,
            fingerprint: match self.fingerprint {
                Some(f) => Some(f@),
                None => None,
            },
        }
    }
}

/// The models of a vector of outcomes.
pub open spec fn outcomes(v: Seq<OpOutcome>) -> Seq<Outcome> {
    v.map_values(|o: OpOutcome| o@)
}

/// What became of a transaction.
#[derive(Debug)]
pub struct CommitOutcome {
    pub commit_created: bool,
    /// The new revision, where a checkpoint was made.
    pub revision_id: Option<String>,
    /// The revision that the plan was applied to.
    pub pre_revision: String,
    pub ops: Vec<OpOutcome>,
}

/// The model of a [`CommitOutcome`].
pub struct Committed {
    pub commit_created: bool,
    pub revision_id: Option<Seq<char>>,
    pub pre_revision: Seq<char>,
    pub ops: Seq<Outcome>,
}

impl View for CommitOutcome {
    type V = Committed;

    open spec fn view(&self) -> Committed {
        Committed {
            commit_created: self.commit_created,
            revision_id: error::opt_text(self.revision_id),
            pre_revision: self.pre_revision@,
            ops: outcomes(self.ops@),
        }
    }
}

} // verus!
