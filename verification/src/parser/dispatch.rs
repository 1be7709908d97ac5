//! Chooses the kind of a document by its file name.

use crate::parser::document::DocumentKind;
use crate::paths;
use crate::text;
use vstd::prelude::*;

verus! {

/// The dotted suffixes, without their leading dot, that can be parsed.
pub const SUPPORTED_DOCUMENT_EXTENSIONS: [&'static str; 4] = [
    "md",
    "markdown",
    "todo.md",
    "bookmark.md",
];

/// The dotted suffixes that can be parsed.
pub open spec fn supported_extensions() -> Seq<Seq<char>> {
    seq!["md"@, "markdown"@, "todo.md"@, "bookmark.md"@]
}

/// What a file name says about its format.
pub enum FormatDispatch {
    /// A suffix that can be parsed.
    SupportedKind(DocumentKind),
    /// A suffix that is recognised and refused, in lower case and without its dot.
    Rejected(String),
    /// No recognised suffix: parsed as a note.
    MarkdownNote,
}

/// The model of a [`FormatDispatch`].
pub enum Dispatch {
    SupportedKind(DocumentKind),
    Rejected(Seq<char>),
    MarkdownNote,
}

impl View for FormatDispatch {
    type V = Dispatch;

    open spec fn view(&self) -> Dispatch {
        match *self {
            FormatDispatch::SupportedKind(kind) => Dispatch::SupportedKind(kind),
            FormatDispatch::Rejected(ext) => Dispatch::Rejected(ext@),
            FormatDispatch::MarkdownNote => Dispatch::MarkdownNote,
        }
    }
}

/// What the final component of a path says about its format: the longest recognised dotted
/// suffix decides, whatever its ASCII case.
pub open spec fn dispatch(path: Seq<char>) -> Dispatch {
    match paths::file_name(path) {
        None => Dispatch::MarkdownNote,
        Some(name) => {
            let lower = text::ascii_lower_text(name);
            if ".bookmark.md"@.is_suffix_of(lower) {
                Dispatch::SupportedKind(DocumentKind::Bookmark)
            } else if ".todo.md"@.is_suffix_of(lower) {
                Dispatch::SupportedKind(DocumentKind::Todo)
            } else if ".md"@.is_suffix_of(lower) || ".markdown"@.is_suffix_of(lower) {
                Dispatch::SupportedKind(DocumentKind::Note)
            } else if ".asciidoc"@.is_suffix_of(lower) {
                Dispatch::Rejected("asciidoc"@)
            } else if ".latex"@.is_suffix_of(lower) {
                Dispatch::Rejected("latex"@)
            } else if ".adoc"@.is_suffix_of(lower) {
                Dispatch::Rejected("adoc"@)
            } else if ".org"@.is_suffix_of(lower) {
                Dispatch::Rejected("org"@)
            } else if ".tex"@.is_suffix_of(lower) {
                Dispatch::Rejected("tex"@)
            } else {
                Dispatch::MarkdownNote
            }
        },
    }
}

/// What the final component of a path says about its format.
pub fn format_dispatch(path: &str) -> (r: FormatDispatch)
    ensures
        r@ == dispatch(path@),
{
    let name = match paths::file_name_of(path) {
        None => {
            return FormatDispatch::MarkdownNote;
        },
        Some(name) => name,
    };
    let lower = text::lower_ascii(name.as_str());
    let s = lower.as_str();
    if text::ends_with(s, ".bookmark.md") {
        FormatDispatch::SupportedKind(DocumentKind::Bookmark)
    } else if text::ends_with(s, ".todo.md") {
        FormatDispatch::SupportedKind(DocumentKind::Todo)
    } else if text::ends_with(s, ".md") || text::ends_with(s, ".markdown") {
        FormatDispatch::SupportedKind(DocumentKind::Note)
    } else if text::ends_with(s, ".asciidoc") {
        FormatDispatch::Rejected("asciidoc".to_string())
    } else if text::ends_with(s, ".latex") {
        FormatDispatch::Rejected("latex".to_string())
    } else if text::ends_with(s, ".adoc") {
        FormatDispatch::Rejected("adoc".to_string())
    } else if text::ends_with(s, ".org") {
        FormatDispatch::Rejected("org".to_string())
    } else if text::ends_with(s, ".tex") {
        FormatDispatch::Rejected("tex".to_string())
    } else {
        FormatDispatch::MarkdownNote
    }
}

/// The supported extensions as owned strings.
pub fn supported_list() -> (r: Vec<String>)
    ensures
        text::texts(r@) == supported_extensions(),
{
    let mut out: Vec<String> = Vec::new();
    out.push("md".to_string());
    out.push("markdown".to_string());
    out.push("todo.md".to_string());
    out.push("bookmark.md".to_string());
    assert(text::texts(out@) =~= supported_extensions());
    out
}

} // verus!
