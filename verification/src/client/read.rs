//! What is shown of a note.

use crate::bytes;
use crate::client::path_printed;
use crate::diagnostics;
use crate::diagnostics::is_selector_not_found;
use crate::error;
use crate::error::{NbError, NbErrorView};
use crate::fingerprint;
use crate::git::text_agrees;
use crate::lines;
use crate::lines::{
    document_lines, note_line_from_body_line, require_contiguous_body, search_lines, BodyLine,
};
use crate::parser;
use crate::parser::document;
use crate::parser::document::{DocumentKind, DocumentView, NoteDocument, TodoState};
use crate::parser::{parse_as, parse_at};
use crate::paths;
use crate::paths::{
    split_folder_basename, with_replaced, without_leading, without_trailing, Folder, Place,
};
use crate::text;
use crate::transaction::index;
use crate::transaction::index::index_id;
use crate::types::{
    BodyFragment, LineEol, NoteLine, SearchNoteLines, ShowNote, ShowNoteLines,
};
use vstd::prelude::*;

verus! {

/// How `nb` classifies what a selector means.
#[derive(Debug, Clone, PartialEq, Eq)]
pub enum ShowClassification {
    Textual,
    NonTextual { actual_type: String },
    /// `nb` could not say.
    ProbeFailure,
}

/// How `nb` classifies what a selector means: `textual` says whether it agreed that it is text,
/// and `printed` is the type that it printed when asked, if it could.
pub fn probe_show_classification(textual: bool, printed: Option<String>) -> (r: ShowClassification)
    ensures
        match r {
            ShowClassification::Textual => textual,
            ShowClassification::NonTextual { actual_type } => !textual && (printed matches Some(p)
                && text::trim(p@).len() > 0 && actual_type@ == text::trim(p@)),
            ShowClassification::ProbeFailure => !textual && (printed matches Some(p) ==> text::trim(
                p@,
            ).len() == 0),
        },
{
    if textual {
        return ShowClassification::Textual;
    }
    match printed {
        Some(out) => {
            let t = text::trimmed(out.as_str());
            if t.is_empty() {
                ShowClassification::ProbeFailure
            } else {
                ShowClassification::NonTextual { actual_type: t.to_string() }
            }
        },
        None => ShowClassification::ProbeFailure,
    }
}

/// Refuse a search without a query.
pub fn check_queries(queries: &[String]) -> (r: Result<(), NbError>)
    ensures
        match r {
            Ok(()) => queries@.len() > 0,
            Err(e) => queries@.len() == 0 && e@ == error::invalid(
                "at least one search query is required"@,
            ),
        },
{
    if queries.len() == 0 {
        Err(NbError::invalid("at least one search query is required"))
    } else {
        Ok(())
    }
}

/// Refuse to show what is not text.
pub fn check_showable(selector: &str, class: ShowClassification) -> (r: Result<(), NbError>)
    ensures
        match class {
            ShowClassification::NonTextual { actual_type } => r matches Err(e) && e@
                == (NbErrorView::UnsupportedShowTarget {
                selector: selector@,
                actual_type: actual_type@,
            }),
            _ => r is Ok,
        },
{
    match class {
        ShowClassification::NonTextual { actual_type } => Err(
            NbError::UnsupportedShowTarget { selector: selector.to_string(), actual_type },
        ),
        _ => Ok(()),
    }
}

/// The path of an item that `nb` printed, or the failure; the exact diagnostic for a missing
/// selector is told apart from every other.
pub open spec fn item_path(selector: Seq<char>, result: Result<String, NbError>) -> Result<
    Seq<char>,
    NbErrorView,
> {
    match result {
        Ok(out) => path_printed(out@, "nb show "@ + selector + " --path"@, "empty path"@),
        Err(e) => if e matches NbError::CommandFailed { stderr, .. } && diagnostics::diagnoses(
            stderr@,
            "Not found: "@,
            selector,
        ) {
            Err(NbErrorView::NotFound { selector })
        } else {
            Err(e@)
        },
    }
}

/// The path of an item that `nb` printed.
pub fn resolve_item_path(selector: &str, result: Result<String, NbError>) -> (r: Result<
    String,
    NbError,
>)
    ensures
        text_agrees(r, item_path(selector@, result)),
{
    match result {
        Ok(output) => {
            let path = text::trimmed(output.as_str());
            if path.is_empty() {
                return Err(
                    NbError::CommandFailed {
                        command: text::cat3("nb show ", selector, " --path"),
                        stderr: "empty path".to_string(),
                        exit_code: None,
                    },
                );
            }
            Ok(path.to_string())
        },
        Err(e) => {
            let missing = match &e {
                NbError::CommandFailed { stderr, .. } => is_selector_not_found(
                    stderr.as_str(),
                    selector,
                ),
                _ => false,
            };
            if missing {
                Err(NbError::NotFound { selector: selector.to_string() })
            } else {
                Err(e)
            }
        },
    }
}

/// A path below a root, both with links resolved: what follows the root and the separator of
/// the platform.
pub open spec fn below(root: Place, path: Seq<char>) -> Option<Seq<char>> {
    let inside = if root.path.len() > 0 && root.path.last() == root.separator {
        root.path
    } else {
        root.path.push(root.separator)
    };
    if path == root.path {
        Some(Seq::empty())
    } else if inside.is_prefix_of(path) {
        Some(path.skip(inside.len() as int))
    } else {
        None
    }
}

/// The notebook-relative form of a path, both with links resolved.
pub fn path_relative_to(root: &Folder, path: &str) -> (r: Result<String, NbError>)
    ensures
        match below(root@, path@) {
            Some(rel) => r matches Ok(s) && s@ == paths::replace_char(rel, '\\', '/'),
            None => r matches Err(e) && e@ == error::invalid(
                "path "@ + path@ + " is not under notebook root "@ + root@.path,
            ),
        },
{
    let mut inside = text::chars_of(root.path.as_str());
    if inside.len() == 0 || inside[inside.len() - 1] != root.separator {
        inside.push(root.separator);
    }
    if text::equal(path, root.path.as_str()) {
        let empty = String::new();
        assert(empty@ =~= Seq::<char>::empty());
        assert(paths::replace_char(Seq::empty(), '\\', '/') =~= Seq::<char>::empty());
        return Ok(empty);
    }
    let k: usize = inside.len();
    let start = text::string_of(inside.as_slice());
    assert(start@ =~= inside@);
    if text::starts_with(path, start.as_str()) {
        let x = text::chars_of(path);
        let n: usize = x.len();
        let rel = text::string_of(vstd::slice::slice_subrange(x.as_slice(), k, n));
        assert(rel@ =~= path@.skip(k as int));
        return Ok(with_replaced(rel.as_str(), '\\', '/'));
    }
    let reason = text::cat4("path ", path, " is not under notebook root ", root.path.as_str());
    Err(NbError::invalid(reason.as_str()))
}

/// The document that a shown file is read as: by its name, and as a note where the name is
/// that of no format that can be parsed.
pub open spec fn shown_document(source: Seq<u8>, path: Seq<char>) -> Result<DocumentView, NbErrorView> {
    match parser::parsed_at(source, path) {
        Err(NbErrorView::UnsupportedDocumentFormat { .. }) => parser::parsed_as(
            source,
            DocumentKind::Note,
        ),
        r => r,
    }
}

/// The document that a shown file is read as.
fn parse_shown(source: &[u8], path: &str) -> (r: Result<NoteDocument, NbError>)
    ensures
        parser::parse_agrees(r, shown_document(source@, path@)),
{
    match parse_at(source, path) {
        Ok(doc) => Ok(doc),
        Err(e) => {
            if matches!(e, NbError::UnsupportedDocumentFormat { .. }) {
                parse_as(source, DocumentKind::Note)
            } else {
                Err(e)
            }
        },
    }
}

/// The word for a kind of document.
pub open spec fn kind_word(kind: DocumentKind) -> Seq<char> {
    match kind {
        DocumentKind::Note => "note"@,
        DocumentKind::Todo => "todo"@,
        DocumentKind::Bookmark => "bookmark"@,
    }
}

/// The refusal to show bytes that are not UTF-8.
pub open spec fn not_text(selector: Seq<char>, path: Seq<char>, kind: DocumentKind) -> NbErrorView {
    NbErrorView::NonUtf8 { selector, path, kind: kind_word(kind), mime_hint: None }
}

/// The title of a note without line feed, heading marks and surrounding white space.
pub open spec fn title_text(title: Seq<u8>) -> Seq<char> {
    text::trim(
        paths::strip_leading(paths::strip_trailing(text::lossy_text(title), '\n'), '#'),
    )
}

/// The tags of a document as texts without leading `#`s.
pub open spec fn tag_texts(doc: DocumentView) -> Seq<Seq<char>> {
    document::slices(doc.source, doc.tag_spans()).map_values(
        |t: Seq<u8>| paths::strip_leading(text::lossy_text(t), '#'),
    )
}

/// The model of a piece of a body.
pub struct Fragment {
    pub index: u32,
    pub text: Seq<char>,
    pub start_byte: u32,
    pub end_byte: u32,
}

/// The model of a [`BodyFragment`].
pub open spec fn fragment(f: BodyFragment) -> Fragment {
    Fragment {
        index: f.index,
        text: f.bytes@,
        start_byte: f.start_byte,
        end_byte: f.end_byte,
    }
}

/// The models of a vector of pieces.
pub open spec fn fragments(v: Seq<BodyFragment>) -> Seq<Fragment> {
    v.map_values(|f: BodyFragment| fragment(f))
}

/// The pieces of the body of a document.
pub open spec fn fragments_of(doc: DocumentView) -> Seq<Fragment> {
    Seq::new(
        doc.partition.bodies.len(),
        |k: int|
            Fragment {
                index: k as u32,
                text: vstd::utf8::decode_utf8(
                    bytes::slice_of(doc.source, doc.partition.bodies[k]),
                ),
                start_byte: doc.partition.bodies[k].start as u32,
                end_byte: doc.partition.bodies[k].end as u32,
            },
    )
}

/// Every part of a document that is shown as text is UTF-8.
pub open spec fn all_text(doc: DocumentView) -> bool {
    &&& vstd::utf8::valid_utf8(doc.source)
    &&& forall|k: int|
        0 <= k < doc.partition.bodies.len() ==> vstd::utf8::valid_utf8(
            bytes::slice_of(doc.source, #[trigger] doc.partition.bodies[k]),
        )
    &&& vstd::utf8::valid_utf8(doc.body())
    &&& (doc.partition.title matches Some(r) ==> vstd::utf8::valid_utf8(
        bytes::slice_of(doc.source, r),
    ))
}

/// The model of a [`ShowNote`].
pub struct Shown {
    pub selector: Seq<char>,
    pub path: Seq<char>,
    pub kind: DocumentKind,
    pub todo_state: Option<TodoState>,
    pub title: Option<Seq<char>>,
    pub title_text: Option<Seq<char>>,
    pub tags: Seq<Seq<char>>,
    pub body_fragments: Seq<Fragment>,
    pub body_contiguous: bool,
    pub body: Seq<char>,
    pub fingerprint: Seq<char>,
    pub source: Seq<char>,
    pub numeric_id: Option<u32>,
}

/// The model of a shown note.
pub open spec fn shown_view(n: ShowNote) -> Shown {
    Shown {
        selector: n.selector@,
        path: n.path@,
        kind: n.kind,
        todo_state: n.todo_state,
        title: error::opt_text(n.title),
        title_text: error::opt_text(n.title_text),
        tags: text::texts(n.tags@),
        body_fragments: fragments(n.body_fragments@),
        body_contiguous: n.body_contiguous,
        body: n.body@,
        fingerprint: n.fingerprint@,
        source: n.source@,
        numeric_id: n.numeric_id,
    }
}

/// The id of a path in the index of its folder.
pub open spec fn id_in(index: Option<Vec<u8>>, rel: Seq<char>) -> Option<u32> {
    match index {
        Some(b) => index::listed_id(b@, paths::folder_and_base(rel).1),
        None => None,
    }
}

/// The selector of a path: its numeric one, or the fallback where it has no id.
pub open spec fn selector_for(
    notebook: Seq<char>,
    rel: Seq<char>,
    id: Option<u32>,
    fallback: Seq<char>,
) -> Seq<char> {
    match id {
        Some(n) => if paths::last_index(rel, '/') < 0 {
            notebook + ":"@ + text::decimal(n as nat)
        } else {
            notebook + ":"@ + paths::folder_and_base(rel).0 + "/"@ + text::decimal(n as nat)
        },
        None => fallback,
    }
}

/// What is shown of a note, or the refusal. `index` is the index of the folder of the note.
pub open spec fn shown_note(
    notebook: Seq<char>,
    selector: Seq<char>,
    rel: Seq<char>,
    source: Seq<u8>,
    index: Option<Vec<u8>>,
) -> Result<Shown, NbErrorView> {
    match shown_document(source, rel) {
        Err(e) => Err(e),
        Ok(doc) => if !all_text(doc) {
            Err(not_text(selector, rel, doc.partition.kind))
        } else {
            Ok(
                Shown {
                    selector: selector_for(notebook, rel, id_in(index, rel), selector),
                    path: rel,
                    kind: doc.partition.kind,
                    todo_state: doc.todo_state(),
                    title: match doc.partition.title {
                        Some(r) => Some(
                            vstd::utf8::decode_utf8(bytes::slice_of(doc.source, r)),
                        ),
                        None => None,
                    },
                    title_text: match doc.partition.title {
                        Some(r) => Some(title_text(bytes::slice_of(doc.source, r))),
                        None => None,
                    },
                    tags: tag_texts(doc),
                    body_fragments: fragments_of(doc),
                    body_contiguous: doc.partition.bodies.len() <= 1,
                    body: vstd::utf8::decode_utf8(doc.body()),
                    fingerprint: fingerprint::blake3_hex(doc.body()),
                    source: vstd::utf8::decode_utf8(doc.source),
                    numeric_id: id_in(index, rel),
                },
            )
        },
    }
}

/// The refusal to show bytes that are not UTF-8.
fn refuse_bytes(selector: &str, path: &str, kind: DocumentKind) -> (r: NbError)
    ensures
        r@ == not_text(selector@, path@, kind),
{
    let word = match kind {
        DocumentKind::Note => "note".to_string(),
        DocumentKind::Todo => "todo".to_string(),
        DocumentKind::Bookmark => "bookmark".to_string(),
    };
    NbError::NonUtf8 {
        selector: selector.to_string(),
        path: path.to_string(),
        kind: word,
        mime_hint: None,
    }
}

/// The pieces of the body of a document, unless one is not UTF-8.
fn body_pieces(doc: &NoteDocument) -> (r: Option<Vec<BodyFragment>>)
    ensures
        ({
            let ok = forall|k: int|
                0 <= k < doc@.partition.bodies.len() ==> vstd::utf8::valid_utf8(
                    bytes::slice_of(doc@.source, #[trigger] doc@.partition.bodies[k]),
                );
            match r {
                Some(v) => ok && fragments(v@) == fragments_of(doc@),
                None => !ok,
            }
        }),
{
    let ranges = doc.body_ranges();
    let source = doc.source();
    let ghost all = doc@.partition.bodies;
    let ghost want = fragments_of(doc@);
    let mut out: Vec<BodyFragment> = Vec::new();
    let mut i: usize = 0;
    assert(bytes::spans(ranges@).len() == ranges@.len());
    while i < ranges.len()
        invariant
            i <= ranges.len(),
            source@ == doc@.source,
            all == doc@.partition.bodies,
            want == fragments_of(doc@),
            bytes::spans(ranges@) == all,
            all.len() == ranges@.len(),
            forall|k: int|
                0 <= k < ranges@.len() ==> bytes::span_within(
                    (#[trigger] ranges@[k])@,
                    doc@.source.len() as int,
                ),
            forall|k: int|
                0 <= k < i ==> vstd::utf8::valid_utf8(
                    bytes::slice_of(doc@.source, #[trigger] all[k]),
                ),
            out@.len() == i,
            forall|k: int| 0 <= k < i ==> fragment(#[trigger] out@[k]) == want[k],
        decreases ranges.len() - i,
    {
        let range = ranges[i];
        assert(all[i as int] == range@);
        assert(bytes::span_within(range@, doc@.source.len() as int));
        match text::read_utf8(vstd::slice::slice_subrange(source, range.start, range.end)) {
            Ok(s) => {
                out.push(
                    BodyFragment {
                        index: i as u32,
                        bytes: s.to_string(),
                        start_byte: range.start as u32,
                        end_byte: range.end as u32,
                    },
                );
            },
            Err(_) => {
                assert(!vstd::utf8::valid_utf8(bytes::slice_of(doc@.source, all[i as int])));
                return None;
            },
        }
        i += 1;
    }
    assert(fragments(out@) =~= want);
    Some(out)
}

/// The tags of a document as texts.
fn tags_shown(doc: &NoteDocument) -> (r: Vec<String>)
    ensures
        text::texts(r@) == tag_texts(doc@),
{
    let raw = doc.tags();
    let ghost all = document::slices(doc@.source, doc@.tag_spans());
    let mut out: Vec<String> = Vec::new();
    let mut i: usize = 0;
    assert(document::slice_views(raw@).len() == raw@.len());
    while i < raw.len()
        invariant
            i <= raw.len(),
            document::slice_views(raw@) == all,
            raw@.len() == all.len(),
            out@.len() == i,
            forall|k: int|
                0 <= k < i ==> (#[trigger] out@[k])@ == paths::strip_leading(
                    text::lossy_text(all[k]),
                    '#',
                ),
        decreases raw.len() - i,
    {
        assert(document::slice_views(raw@)[i as int] == raw@[i as int]@);
        let t = text::from_utf8_lossy(raw[i]);
        out.push(without_leading(t.as_str(), '#'));
        i += 1;
    }
    assert(text::texts(out@) =~= tag_texts(doc@));
    out
}

/// The title of a note without line feed, heading marks and surrounding white space.
fn title_shown(title: &[u8]) -> (r: String)
    ensures
        r@ == title_text(title@),
{
    let t = text::from_utf8_lossy(title);
    let ended = without_trailing(t.as_str(), '\n');
    let bare = without_leading(ended.as_str(), '#');
    text::trimmed(bare.as_str()).to_string()
}

/// The selector of a path: its numeric one, or the fallback where it has no id.
pub fn numeric_selector_for_path(notebook: &str, rel: &str, id: Option<u32>, fallback: &str) -> (r:
    String)
    ensures
        r@ == selector_for(notebook@, rel@, id, fallback@),
{
    match id {
        None => fallback.to_string(),
        Some(n) => {
            let digits = text::decimal_of(n as u64);
            let x = text::chars_of(rel);
            match paths::last_index_of(x.as_slice(), '/') {
                None => text::cat3(notebook, ":", digits.as_str()),
                Some(_) => {
                    let (folder, _) = split_folder_basename(rel);
                    text::cat5(notebook, ":", folder.as_str(), "/", digits.as_str())
                },
            }
        },
    }
}

/// What is shown of a note. `index` is the index of the folder of the note, if it has one.
pub fn show_note(
    notebook: &str,
    selector: &str,
    rel: &str,
    source: &[u8],
    index: Option<Vec<u8>>,
) -> (r: Result<ShowNote, NbError>)
    ensures
        match r {
            Ok(n) => shown_note(notebook@, selector@, rel@, source@, index) == Ok::<
                Shown,
                NbErrorView,
            >(shown_view(n)),
            Err(e) => shown_note(notebook@, selector@, rel@, source@, index) == Err::<
                Shown,
                NbErrorView,
            >(e@),
        },
{
    let doc = match parse_shown(source, rel) {
        Ok(doc) => doc,
        Err(e) => {
            return Err(e);
        },
    };
    let kind = doc.kind();
    let whole = match text::read_utf8(doc.source()) {
        Ok(s) => s.to_string(),
        Err(_) => {
            return Err(refuse_bytes(selector, rel, kind));
        },
    };
    let pieces = match body_pieces(&doc) {
        Some(v) => v,
        None => {
            return Err(refuse_bytes(selector, rel, kind));
        },
    };
    assert(fragments(pieces@).len() == pieces@.len());
    let contiguous = pieces.len() <= 1;
    let body_bytes = doc.body_bytes();
    let body = match text::read_utf8(body_bytes.as_slice()) {
        Ok(s) => s.to_string(),
        Err(_) => {
            return Err(refuse_bytes(selector, rel, kind));
        },
    };
    let tags = tags_shown(&doc);
    let (title, title_text) = match doc.title() {
        None => (None, None),
        Some(t) => {
            match text::read_utf8(t) {
                Ok(s) => (Some(s.to_string()), Some(title_shown(t))),
                Err(_) => {
                    return Err(refuse_bytes(selector, rel, kind));
                },
            }
        },
    };
    assert(all_text(doc@));
    let (_, basename) = split_folder_basename(rel);
    let numeric_id: Option<u32> = index_id(index, basename.as_str());
    Ok(
        ShowNote {
            selector: numeric_selector_for_path(notebook, rel, numeric_id, selector),
            path: rel.to_string(),
            kind,
            todo_state: doc.todo_state(),
            title,
            title_text,
            tags,
            body_fragments: pieces,
            body_contiguous: contiguous,
            body,
            fingerprint: fingerprint::fingerprint(&doc),
            source: whole,
            numeric_id,
        },
    )
}

/// The model of a [`NoteLine`].
pub struct LineShown {
    pub number: u32,
    pub anchor: Seq<char>,
    pub text: Seq<char>,
}

/// The model of a shown line.
pub open spec fn line_view(l: NoteLine) -> LineShown {
    LineShown { number: l.number, anchor: l.anchor@, text: l.text@ }
}

/// The models of shown lines.
pub open spec fn line_views(v: Seq<NoteLine>) -> Seq<LineShown> {
    v.map_values(|l: NoteLine| line_view(l))
}

/// The lines of a body from one to another, as they are shown.
pub open spec fn lines_shown(body: Seq<u8>, from: int, to: int) -> Seq<LineShown> {
    Seq::new(
        (to - from) as nat,
        |k: int|
            {
                let l = lines::models(body)[from + k];
                LineShown {
                    number: l.number,
                    anchor: l.anchor,
                    text: text::lossy_text(bytes::slice_of(body, l.text)),
                }
            },
    )
}

/// A window of the lines of a body.
pub struct Window {
    pub total_lines: u32,
    pub offset: u32,
    pub limit: u32,
    pub next_offset: Option<u32>,
    pub lines: Seq<LineShown>,
    pub eol: Option<LineEol>,
    pub has_final_eol: bool,
}

/// The window that starts at a line, from 1, and holds up to `limit` lines; one that starts
/// further than right behind the last line is refused.
pub open spec fn window_of(body: Seq<u8>, offset: Option<u32>, limit: Option<u32>) -> Result<
    Window,
    NbErrorView,
> {
    let n = lines::models(body).len() as int;
    let total = n as u32;
    let first = match offset {
        Some(o) => o,
        None => 1u32,
    };
    let size = match limit {
        Some(l) => l,
        None => 100u32,
    };
    let from = first - 1;
    let end = if from + size < n {
        from + size
    } else {
        n
    };
    if first == 0 || first > total + 1 {
        Err(
            NbErrorView::InvalidLineWindow { offset: first, limit: size, total_lines: total },
        )
    } else {
        Ok(
            Window {
                total_lines: total,
                offset: first,
                limit: size,
                next_offset: if end < n {
                    Some((end + 1) as u32)
                } else {
                    None
                },
                lines: lines_shown(body, from, end),
                eol: lines::declared_eol(body),
                has_final_eol: lines::ends_with_eol(body),
            },
        )
    }
}

/// The window of a shown note.
pub open spec fn window_view(w: ShowNoteLines) -> Window {
    Window {
        total_lines: w.total_lines,
        offset: w.offset,
        limit: w.limit,
        next_offset: w.next_offset,
        lines: line_views(w.lines@),
        eol: w.eol,
        has_final_eol: w.has_final_eol,
    }
}

/// The contiguous body of a shown note, or the refusal.
pub open spec fn shown_body(n: ShowNote) -> Result<Seq<u8>, NbErrorView> {
    match parser::parsed_at(vstd::utf8::encode_utf8(n.source@), n.path@) {
        Err(e) => Err(e),
        Ok(doc) => lines::contiguous_body(doc),
    }
}

/// The contiguous body of a shown note.
fn body_of(n: &ShowNote) -> (r: Result<Vec<u8>, NbError>)
    ensures
        lines::bytes_agree(r, shown_body(*n)),
{
    match parse_at(n.source.as_str().as_bytes(), n.path.as_str()) {
        Ok(doc) => require_contiguous_body(&doc),
        Err(e) => Err(e),
    }
}

/// The lines of a body from one to another, as they are shown.
fn show_lines(body: &[u8], v: &Vec<BodyLine>, from: usize, to: usize) -> (r: Vec<NoteLine>)
    requires
        lines::line_models(v@) == lines::models(body@),
        from <= to <= v@.len(),
    ensures
        line_views(r@) == lines_shown(body@, from as int, to as int),
{
    let ghost all = lines::models(body@);
    let ghost want = lines_shown(body@, from as int, to as int);
    let mut out: Vec<NoteLine> = Vec::new();
    let mut i: usize = from;
    while i < to
        invariant
            from <= i <= to,
            to <= v@.len(),
            lines::line_models(v@) == all,
            all == lines::models(body@),
            want == lines_shown(body@, from as int, to as int),
            out@.len() == i - from,
            forall|k: int| 0 <= k < out@.len() ==> line_view(#[trigger] out@[k]) == want[k],
        decreases to - i,
    {
        proof {
            lines::lemma_models(body@, i as int);
            assert(lines::line_models(v@)[i as int] == v@[i as int]@);
        }
        out.push(note_line_from_body_line(&v[i], body));
        i += 1;
    }
    assert(line_views(out@) =~= want);
    out
}

/// A window of the body lines of a shown note.
pub fn show_note_lines(shown: ShowNote, offset: Option<u32>, limit: Option<u32>) -> (r: Result<
    ShowNoteLines,
    NbError,
>)
    ensures
        match shown_body(shown) {
            Err(x) => r matches Err(e) && e@ == x,
            Ok(body) => match window_of(body, offset, limit) {
                Err(x) => r matches Err(e) && e@ == x,
                Ok(w) => r matches Ok(v) && window_view(v) == w && v.selector == shown.selector
                    && v.path == shown.path && v.kind == shown.kind && v.title == shown.title
                    && v.tags == shown.tags && v.body_fingerprint == shown.fingerprint
                    && v.numeric_id == shown.numeric_id,
            },
        },
{
    let body = match body_of(&shown) {
        Ok(b) => b,
        Err(e) => {
            return Err(e);
        },
    };
    let (eol, has_final_eol, all) = document_lines(body.as_slice());
    let n: usize = all.len();
    assert(lines::line_models(all@).len() == all@.len());
    let total_lines: u32 = n as u32;
    let first: u32 = match offset {
        Some(o) => o,
        None => 1,
    };
    let size: u32 = match limit {
        Some(l) => l,
        None => 100,
    };
    if first == 0 || first as u64 > total_lines as u64 + 1 {
        return Err(NbError::InvalidLineWindow { offset: first, limit: size, total_lines });
    }
    proof {
        lemma_truncated(n);
    }
    let from: usize = (first - 1) as usize;
    let end: usize = if n - from > size as usize {
        from + size as usize
    } else {
        n
    };
    let window = show_lines(body.as_slice(), &all, from, end);
    let next_offset: Option<u32> = if end < n {
        Some((end + 1) as u32)
    } else {
        None
    };
    Ok(
        ShowNoteLines {
            selector: shown.selector,
            path: shown.path,
            kind: shown.kind,
            total_lines,
            offset: first,
            limit: size,
            next_offset,
            lines: window,
            title: shown.title,
            tags: shown.tags,
            body_fingerprint: shown.fingerprint,
            eol,
            has_final_eol,
            numeric_id: shown.numeric_id,
        },
    )
}

/// A number that is cut to 32 bits does not grow.
proof fn lemma_truncated(n: usize)
    ensures
        (n as u32) <= n,
{
    let x = n as u64;
    assert((x as u32) <= x) by (bit_vector);
    assert(x as u32 == n as u32) by (bit_vector)
        requires
            x == n as u64,
    ;
}

/// The matches of a pattern in the body lines of a shown note.
pub fn search_note_lines(shown: ShowNote, pattern: &str) -> (r: Result<SearchNoteLines, NbError>)
    ensures
        match shown_body(shown) {
            Err(x) => r matches Err(e) && e@ == x,
            Ok(body) => {
                let p = vstd::utf8::encode_utf8(pattern@);
                let all = lines::models(body);
                if p.len() == 0 {
                    r matches Err(e) && e@ == NbErrorView::EmptySubstringPattern
                } else {
                    r matches Ok(v) && lines::hit_models(v.hits@) == lines::hits_of(
                        body,
                        all,
                        p,
                        all.len() as int,
                    ) && v.selector == shown.selector && v.path == shown.path && v.kind
                        == shown.kind && v.body_fingerprint == shown.fingerprint
                }
            },
        },
{
    let body = match body_of(&shown) {
        Ok(b) => b,
        Err(e) => {
            return Err(e);
        },
    };
    match search_lines(body.as_slice(), pattern.as_bytes()) {
        Err(e) => Err(e),
        Ok(hits) => Ok(
            SearchNoteLines {
                selector: shown.selector,
                path: shown.path,
                kind: shown.kind,
                hits,
                body_fingerprint: shown.fingerprint,
            },
        ),
    }
}

/// A window that is not the last is followed by the one that its next offset names, without a
/// gap.
pub proof fn law_next_window_follows(body: Seq<u8>, offset: Option<u32>, limit: Option<u32>)
    requires
        lines::models(body).len() < u32::MAX,
        window_of(body, offset, limit) matches Ok(w) && w.next_offset is Some,
    ensures
        ({
            let w = window_of(body, offset, limit)->Ok_0;
            w.next_offset == Some((w.offset + w.lines.len()) as u32) && window_of(
                body,
                w.next_offset,
                limit,
            ) is Ok
        }),
{
}

} // verus!
