//! Structural parser: bytes in, a lossless partition of them out.

pub mod assemble;
pub mod classify;
pub mod dispatch;
pub mod dispatch_laws;
pub mod document;
pub mod fence_laws;
pub mod fragments;
pub mod helpers;
pub mod link_bodies;
pub mod link_laws;
pub mod partition;
pub mod partition_laws;
pub mod pieces;
pub mod readback;
pub mod recognised;
pub mod retitled;
pub mod roles;
pub mod tag_sections;
pub mod task_laws;
pub mod types;

use crate::bytes::ByteRange;
use crate::error::{NbError, NbErrorView, ParseErrorKind};
use crate::parser::assemble::{assemble_bookmark, assemble_note, assemble_todo};
use crate::parser::classify::{classify_bookmark, classify_note, classify_todo};
use crate::parser::dispatch::{format_dispatch, supported_list, Dispatch, FormatDispatch};
use crate::parser::document::{DocumentKind, DocumentView, NoteDocument, ParseContext};
use crate::parser::partition::PartitionView;
use crate::parser::types::Token;
use crate::tokenizer;
use crate::tokenizer::tokenize;
use vstd::prelude::*;

verus! {

/// The classified lines of a source.
pub open spec fn tokens_of(s: Seq<u8>, kind: DocumentKind) -> Seq<Token> {
    let lines = tokenizer::source_lines(s);
    match kind {
        DocumentKind::Note => classify::note_tokens(s, lines),
        DocumentKind::Todo => classify::todo_tokens(s, lines),
        DocumentKind::Bookmark => classify::bookmark_tokens(s, lines),
    }
}

/// The partition of a source, unless it is a task or bookmark without a non-blank line.
pub open spec fn partition_of(s: Seq<u8>, kind: DocumentKind) -> Option<PartitionView> {
    let lines = tokenizer::source_lines(s);
    let tokens = tokens_of(s, kind);
    match kind {
        DocumentKind::Note => Some(assemble::note_partition(s, lines, tokens)),
        DocumentKind::Todo => assemble::todo_partition(s, lines, tokens),
        DocumentKind::Bookmark => assemble::bookmark_partition(s, lines, tokens),
    }
}

/// What parsing a source as one kind of document gives.
pub open spec fn parsed_as(s: Seq<u8>, kind: DocumentKind) -> Result<DocumentView, NbErrorView> {
    match partition_of(s, kind) {
        Some(partition) => Ok(DocumentView { source: s, partition }),
        None => Err(
            NbErrorView::ParseError {
                kind: ParseErrorKind::MissingTitle,
                location: ByteRange { start: 0, end: 0 },
            },
        ),
    }
}

/// What parsing a source gives when the name at the end of `path` decides its kind.
pub open spec fn parsed_at(s: Seq<u8>, path: Seq<char>) -> Result<DocumentView, NbErrorView> {
    match dispatch::dispatch(path) {
        Dispatch::SupportedKind(kind) => parsed_as(s, kind),
        Dispatch::Rejected(extension) => Err(
            NbErrorView::UnsupportedDocumentFormat {
                extension,
                supported: dispatch::supported_extensions(),
            },
        ),
        Dispatch::MarkdownNote => parsed_as(s, DocumentKind::Note),
    }
}

/// What parsing a source in a context gives.
pub open spec fn parsed(s: Seq<u8>, context: ParseContext) -> Result<DocumentView, NbErrorView> {
    match context {
        ParseContext::FromPath(path) => parsed_at(s, path@),
        ParseContext::Explicit(kind) => parsed_as(s, kind),
    }
}

/// A parse result and its model agree.
pub open spec fn parse_agrees(
    r: Result<NoteDocument, NbError>,
    model: Result<DocumentView, NbErrorView>,
) -> bool {
    match r {
        Ok(doc) => model == Ok::<DocumentView, NbErrorView>(doc@),
        Err(e) => model == Err::<DocumentView, NbErrorView>(e@),
    }
}

/// A document keeps its source, and every byte of it belongs to exactly one range of the
/// partition.
pub open spec fn lossless(s: Seq<u8>, doc: DocumentView) -> bool {
    &&& doc.source == s
    &&& doc.partition_fault() is None
    &&& partition::owned_once(doc.partition.covered(), s.len() as int)
}

/// Parsing is lossless.
pub proof fn law_parse_is_lossless(s: Seq<u8>, kind: DocumentKind)
    ensures
        parsed_as(s, kind) matches Ok(doc) ==> lossless(s, doc),
{
    let lines = tokenizer::source_lines(s);
    let tokens = tokens_of(s, kind);
    assemble::lemma_source_lines(s);
    if let Some(p) = partition_of(s, kind) {
        match kind {
            DocumentKind::Note => assemble::lemma_note_tiles(s, lines, tokens),
            DocumentKind::Todo => assemble::lemma_todo_tiles(s, lines, tokens),
            DocumentKind::Bookmark => assemble::lemma_bookmark_tiles(s, lines, tokens),
        }
        partition::lemma_tiles_no_fault(p.prefix, p.pieces(), s.len() as int);
        partition::lemma_tiles_owned_once(p.prefix, p.pieces(), s.len() as int);
    }
}

/// A line that is not blank.
pub open spec fn has_non_blank_line(s: Seq<u8>) -> bool {
    exists|k: int|
        0 <= k < tokenizer::source_lines(s).len() && !helpers::blank(
            (#[trigger] tokenizer::source_lines(s)[k]).content(s),
        )
}

/// A token is blank exactly where its line is, except that a bookmark's code fence hides
/// blank lines, and then an earlier line is not blank.
proof fn lemma_first_content(s: Seq<u8>, kind: DocumentKind)
    ensures
        ({
            let t = tokens_of(s, kind);
            has_non_blank_line(s) <==> assemble::next_content(t, 0) < t.len()
        }),
{
    let lines = tokenizer::source_lines(s);
    let t = tokens_of(s, kind);
    assemble::lemma_next_content(t, 0);
    let h = assemble::next_content(t, 0);
    if has_non_blank_line(s) {
        let k = choose|k: int|
            0 <= k < lines.len() && !helpers::blank((#[trigger] lines[k]).content(s));
        assert(t[k] !is Blank);
    }
    if h < t.len() {
        if kind == DocumentKind::Bookmark {
            assert(t[h] == classify::bookmark_token(
                classify::bookmark_scan(s, lines, h),
                lines[h].content(s),
            ));
            assemble::lemma_no_fence_before(s, lines, t, h);
        }
        assert(!helpers::blank(lines[h].content(s)));
    }
}

/// Parsing refuses only tasks and bookmarks without a non-blank line.
pub proof fn law_parse_refuses_only_blank(s: Seq<u8>, kind: DocumentKind)
    ensures
        parsed_as(s, kind) is Ok <==> (kind == DocumentKind::Note || has_non_blank_line(s)),
{
    lemma_first_content(s, kind);
}

/// Parse bytes into a document.
pub fn parse(bytes: &[u8], context: ParseContext) -> (r: Result<NoteDocument, NbError>)
    ensures
        parse_agrees(r, parsed(bytes@, context)),
        r matches Ok(doc) ==> lossless(bytes@, doc@),
{
    match context {
        ParseContext::FromPath(path) => parse_at(bytes, path.as_str()),
        ParseContext::Explicit(kind) => parse_as(bytes, kind),
    }
}

/// Parse bytes into a document whose kind the name at the end of `path` decides.
pub fn parse_at(bytes: &[u8], path: &str) -> (r: Result<NoteDocument, NbError>)
    ensures
        parse_agrees(r, parsed_at(bytes@, path@)),
        r matches Ok(doc) ==> lossless(bytes@, doc@),
{
    match format_dispatch(path) {
        FormatDispatch::SupportedKind(kind) => parse_as(bytes, kind),
        FormatDispatch::Rejected(extension) => Err(
            NbError::UnsupportedDocumentFormat { extension, supported: supported_list() },
        ),
        FormatDispatch::MarkdownNote => parse_as(bytes, DocumentKind::Note),
    }
}

/// The error for a task or bookmark without a non-blank line.
fn missing_title() -> (r: NbError)
    ensures
        r@ == (NbErrorView::ParseError {
            kind: ParseErrorKind::MissingTitle,
            location: ByteRange { start: 0, end: 0 },
        }),
{
    NbError::ParseError {
        kind: ParseErrorKind::MissingTitle,
        location: ByteRange { start: 0, end: 0 },
    }
}

/// Parse bytes into a document of the given kind.
pub fn parse_as(bytes: &[u8], kind: DocumentKind) -> (r: Result<NoteDocument, NbError>)
    ensures
        parse_agrees(r, parsed_as(bytes@, kind)),
        r matches Ok(doc) ==> lossless(bytes@, doc@),
{
    let source = vstd::slice::slice_to_vec(bytes);
    let (preamble, lines) = tokenize(bytes);
    let ghost spans = tokenizer::line_spans(lines@);
    proof {
        assemble::lemma_lines_fit(bytes@, lines@);
    }
    let partition = match kind {
        DocumentKind::Note => {
            let tokens = classify_note(bytes, &lines);
            assert(types::token_views(tokens@).len() == tokens@.len());
            assemble_note(bytes, &preamble, &lines, &tokens)
        },
        DocumentKind::Todo => {
            let tokens = classify_todo(bytes, &lines);
            assert(types::token_views(tokens@).len() == tokens@.len());
            match assemble_todo(bytes, &preamble, &lines, &tokens) {
                Ok(p) => p,
                Err(_) => {
                    return Err(missing_title());
                },
            }
        },
        DocumentKind::Bookmark => {
            let tokens = classify_bookmark(bytes, &lines);
            assert(types::token_views(tokens@).len() == tokens@.len());
            match assemble_bookmark(bytes, &preamble, &lines, &tokens) {
                Ok(p) => p,
                Err(_) => {
                    return Err(missing_title());
                },
            }
        },
    };
    proof {
        assemble::lemma_partition_within(bytes@, kind, partition@);
        law_parse_is_lossless(bytes@, kind);
    }
    Ok(NoteDocument::assembled(source, partition))
}

} // verus!
